//! The full-speed host controller.

use vstd::prelude::*;
use crate::port;
use crate::port::{Access, Exchange, NO_PAGE, Poll, PollTest, Port};
use crate::usb::bus::{Call, UsbHcd};
use crate::usb::ehci;
use crate::usb::pool::Pool;
use crate::usb::regs;
use crate::usb::regs::UsbSetup;
use crate::usb::transaction;
use crate::usb::transfer::{CachedQh, Request};

verus! {

pub const ED_COUNT: usize = 32;

pub const TD_COUNT: usize = 128;

pub const RESET_TIMEOUT_LOOPS: u32 = 100_000;

/// How much of the data of a bulk transfer one part of it takes.
pub const TD_CHUNK: usize = 4096;

/// The endpoints and transfers of a controller.
pub struct OhciState {
    pub ed_base: u64,
    pub td_base: u64,
    pub hcca: u64,
    pub eds: Pool,
    pub tds: Pool,
    pub cached: Vec<CachedQh>,
    /// The fixed endpoints, and what their links hold.
    pub control_ed: usize,
    pub bulk_ed: usize,
    pub control_next: u32,
    pub bulk_next: u32,
    /// Whether the device found at the last reset is a low-speed one.
    pub low_speed: bool,
}

/// What the endpoints and transfers of a controller are.
pub ghost struct OhciModel {
    pub ed_base: u64,
    pub td_base: u64,
    pub hcca: u64,
    pub eds: Seq<usize>,
    pub tds: Seq<usize>,
    pub cached: Seq<CachedQh>,
    pub control_ed: usize,
    pub bulk_ed: usize,
    pub control_next: u32,
    pub bulk_next: u32,
    pub low_speed: bool,
}

impl View for OhciState {
    type V = OhciModel;

    open spec fn view(&self) -> OhciModel {
        OhciModel {
            ed_base: self.ed_base,
            td_base: self.td_base,
            hcca: self.hcca,
            eds: self.eds.free@,
            tds: self.tds.free@,
            cached: self.cached@,
            control_ed: self.control_ed,
            bulk_ed: self.bulk_ed,
            control_next: self.control_next,
            bulk_next: self.bulk_next,
            low_speed: self.low_speed,
        }
    }
}

/// The address of an endpoint or a transfer.
pub open spec fn at(base: u64, index: int) -> usize {
    (base + 16 * index) as usize
}

/// The address as the controller takes it.
pub open spec fn low(base: u64, index: int) -> u32 {
    ((base + 16 * index) % 0x1_0000_0000) as u32
}

fn address_of(base: u64, index: usize) -> (address: usize)
    requires
        index < 128,
    ensures
        address == at(base, index as int),
{
    (base as u128 + 16 * (index as u128)) as usize
}

fn low_of(base: u64, index: usize) -> (address: u32)
    requires
        index < 128,
    ensures
        address == low(base, index as int),
{
    ((base as u128 + 16 * (index as u128)) % 0x1_0000_0000) as u32
}

impl OhciState {
    /// No endpoint and no transfer has two owners.
    pub open spec fn wf(&self) -> bool {
        &&& self.eds.wf()
        &&& self.eds.count == ED_COUNT
        &&& self.tds.wf()
        &&& self.tds.count == TD_COUNT
        &&& self.control_ed < ED_COUNT
        &&& self.bulk_ed < ED_COUNT
        &&& self.control_ed != self.bulk_ed
        &&& !self.eds.is_free(self.control_ed)
        &&& !self.eds.is_free(self.bulk_ed)
        &&& forall|i: int|
            0 <= i < self.cached@.len() ==> (#[trigger] self.cached@[i]).qh < ED_COUNT
                && !self.eds.is_free(self.cached@[i].qh)
    }
}

/// A transfer that is to be made.
#[derive(Clone, Copy, PartialEq, Eq, Structural, Debug)]
pub struct TdPlan {
    pub buffer: u32,
    pub len: usize,
    pub dp: u32,
    pub toggle: bool,
}

/// The words of a transfer.
pub open spec fn td_words(plan: TdPlan) -> Seq<u32> {
    seq![
        0u32,
        (regs::TD_ROUNDING + plan.dp * 0x200_0000 + (if plan.toggle {
            regs::TD_TOGGLE as int
        } else {
            0
        }) + plan.len % 0x8000) as u32,
        plan.buffer,
        if plan.len != 0 {
            ((plan.buffer + plan.len - 1) % 0x1_0000_0000) as u32
        } else {
            plan.buffer
        },
    ]
}

/// The accesses by which transfers are filled in.
pub open spec fn tds_written(base: u64, ids: Seq<usize>, plans: Seq<TdPlan>) -> Seq<Exchange>
    decreases plans.len(),
{
    if plans.len() == 0 {
        Seq::empty()
    } else {
        tds_written(base, ids.drop_last(), plans.drop_last()) + port::words_stored(
            base + 16 * ids.last(),
            td_words(plans.last()),
        )
    }
}

/// The transfers that are taken, the last free one first.
pub open spec fn taken(free: Seq<usize>, count: int) -> Seq<usize> {
    Seq::new(count as nat, |i: int| free[free.len() - 1 - i])
}

/// Whether an endpoint was chosen so.
pub open spec fn ed_chosen(
    before: OhciModel,
    after: OhciModel,
    request: Request,
    result: Option<usize>,
) -> bool {
    let fresh = OhciModel { eds: before.eds.drop_last(), ..before };
    ||| {
        &&& !request.control
        &&& after == before
        &&& exists|at: int| #[trigger]
            transaction::first_for(before.cached, request, at) && result == Some(
                before.cached[at].qh,
            )
    }
    ||| {
        &&& request.control || transaction::none_for(before.cached, request)
        &&& if before.eds.len() == 0 {
            result == None::<usize> && after == before
        } else {
            &&& result == Some(before.eds.last())
            &&& after == if request.control {
                fresh
            } else {
                OhciModel {
                    cached: before.cached.push(
                        CachedQh {
                            address: request.address,
                            ep: request.ep,
                            data_in: request.data_in,
                            qh: before.eds.last(),
                        },
                    ),
                    ..fresh
                }
            }
        }
    }
}

/// The words of an endpoint, which names its last and its first transfer. That of a
/// low-speed device is marked as one.
pub open spec fn ed_words(
    request: Request,
    low_speed: bool,
    td_base: u64,
    ids: Seq<usize>,
) -> Seq<u32> {
    seq![
        0u32,
        (request.address % 128 + (request.ep % 16) * 0x80 + (if request.data_in {
            0x1000int
        } else {
            0x1800
        }) + (if low_speed {
            0x2000int
        } else {
            0
        }) + (if request.control {
            0x8_0000int
        } else {
            0x40_0000
        })) as u32,
        low(td_base, ids.last() as int),
        low(td_base, ids[0] as int) | regs::ED_H,
    ]
}

/// The accesses by which transfers are linked to the ones behind them.
pub open spec fn tds_linked(base: u64, ids: Seq<usize>, count: int) -> Seq<Exchange> {
    Seq::new(
        count as nat,
        |i: int| port::s32(at(base, ids[i] as int), low(base, ids[i + 1] as int)),
    )
}

/// How a queue was stopped.
pub ghost struct QueueStop {
    pub control: u32,
    pub poll: Seq<Exchange>,
    pub ended: Option<u64>,
}

/// Whether a queue was stopped so. A queue that stays busy is not waited for longer.
pub open spec fn queue_stopped(w: QueueStop, control: bool, trace: Seq<Exchange>) -> bool {
    &&& ehci::paced(
        regs::OHCI_HC_COMMAND_STATUS,
        ehci::all_clear(6),
        RESET_TIMEOUT_LOOPS,
        100,
    ).done(w.poll, w.ended)
    &&& trace == seq![
        port::r32(regs::OHCI_HC_CONTROL, w.control),
        port::w32(
            regs::OHCI_HC_CONTROL,
            if control {
                w.control & 0xffff_ffef
            } else {
                w.control & 0xffff_ffdf
            },
        ),
    ] + w.poll
}

/// The accesses by which a queue is started.
pub open spec fn queue_started(value: u32, control: bool) -> Seq<Exchange> {
    seq![
        port::r32(regs::OHCI_HC_CONTROL, value),
        port::w32(
            regs::OHCI_HC_CONTROL,
            if control {
                value | regs::OHCI_CTRL_CLE
            } else {
                value | regs::OHCI_CTRL_BLE
            },
        ),
        port::w32(
            regs::OHCI_HC_COMMAND_STATUS,
            if control {
                regs::OHCI_CMDSTAT_CLF
            } else {
                regs::OHCI_CMDSTAT_BLF
            },
        ),
    ]
}

/// How a ring was changed while its queue was stopped.
pub ghost struct QueueRun {
    pub stop: QueueStop,
    pub stop_trace: Seq<Exchange>,
    pub start: u32,
}

/// Whether a ring was changed so.
pub open spec fn queue_changed(
    w: QueueRun,
    control: bool,
    change: Seq<Exchange>,
    trace: Seq<Exchange>,
) -> bool {
    &&& queue_stopped(w.stop, control, w.stop_trace)
    &&& trace == w.stop_trace + change + queue_started(w.start, control)
}

/// How transfers were carried out.
pub ghost struct OhciRun {
    pub chosen: OhciModel,
    pub ed: Option<usize>,
    pub enter: QueueRun,
    pub enter_trace: Seq<Exchange>,
    pub wait: EndWait,
    pub wait_trace: Seq<Exchange>,
    pub end: Option<u32>,
    pub leave: QueueRun,
    pub leave_trace: Seq<Exchange>,
    pub place: u32,
}

/// The accesses by which an endpoint is filled in with its transfers.
pub open spec fn ed_written(
    before: OhciModel,
    request: Request,
    ed: usize,
    ids: Seq<usize>,
) -> Seq<Exchange> {
    port::words_stored(
        before.ed_base + 16 * ed,
        ed_words(request, before.low_speed, before.td_base, ids),
    ) + tds_linked(before.td_base, ids, ids.len() - 1) + seq![
        port::s32(at(before.td_base, ids.last() as int), 0),
    ]
}

/// The fixed endpoint of a ring.
pub open spec fn list_head(before: OhciModel, control: bool) -> usize {
    if control {
        before.control_ed
    } else {
        before.bulk_ed
    }
}

/// What stands behind the fixed endpoint of a ring: at first that itself.
pub open spec fn behind_head(before: OhciModel, control: bool) -> u32 {
    let next = if control {
        before.control_next
    } else {
        before.bulk_next
    };
    if next == 0 {
        low(before.ed_base, list_head(before, control) as int)
    } else {
        next
    }
}

/// A state with another endpoint behind the fixed one of a ring.
pub open spec fn with_behind(before: OhciModel, control: bool, next: u32) -> OhciModel {
    if control {
        OhciModel { control_next: next, ..before }
    } else {
        OhciModel { bulk_next: next, ..before }
    }
}

/// The accesses by which an endpoint enters its ring, right behind the fixed one.
pub open spec fn ed_entered(before: OhciModel, control: bool, ed: usize) -> Seq<Exchange> {
    let head = list_head(before, control) as int;
    seq![
        port::s32(at(before.ed_base, head), low(before.ed_base, ed as int)),
        port::s32(at(before.ed_base, ed as int), behind_head(before, control)),
        port::fence(),
        port::flushed(before.td_base as usize),
        port::flushed(before.ed_base as usize),
    ]
}

/// The accesses of looks at a controller that had not reported the end yet.
pub open spec fn end_looks(statuses: Seq<u32>, times: Seq<u64>) -> Seq<Exchange>
    decreases statuses.len(),
{
    if statuses.len() == 0 {
        Seq::empty()
    } else {
        end_looks(statuses.drop_last(), times.drop_last()) + seq![
            port::r32(regs::OHCI_HC_INTERRUPT_STATUS, statuses.last()),
            port::clock(times.last()),
            port::wait(transaction::TRANSFER_POLL_NS),
        ]
    }
}

/// Whether the controller reports that it wrote back what it is done with.
pub open spec fn reported(status: u32) -> bool {
    status % 2 == 1
}

/// How the end of transfers was awaited.
pub ghost struct EndWait {
    pub began: u64,
    pub statuses: Seq<u32>,
    pub times: Seq<u64>,
    pub status: u32,
    pub now: u64,
}

/// Whether the end of transfers was awaited so, which gives the first word of the last
/// one. Without a report they are given up when their time is over, or after
/// `u64::MAX` looks.
pub open spec fn end_awaited(
    w: EndWait,
    td_base: u64,
    last: usize,
    trace: Seq<Exchange>,
    result: Option<u32>,
) -> bool {
    let seen = seq![port::clock(w.began)] + end_looks(w.statuses, w.times) + seq![
        port::r32(regs::OHCI_HC_INTERRUPT_STATUS, w.status),
    ];
    let deadline = transaction::deadline_of(w.began);
    &&& w.times.len() == w.statuses.len()
    &&& w.statuses.len() <= u64::MAX
    &&& forall|i: int| 0 <= i < w.statuses.len() ==> !reported(#[trigger] w.statuses[i])
    &&& forall|i: int| 0 <= i < w.times.len() ==> (#[trigger] w.times[i]) < deadline
    &&& match result {
        Some(word) => {
            &&& reported(w.status)
            &&& trace == seen + seq![
                port::w32(regs::OHCI_HC_INTERRUPT_STATUS, regs::OHCI_INTR_WDH),
                port::l32(at(td_base, last as int), word),
            ]
        },
        None => {
            &&& !reported(w.status)
            &&& w.now >= deadline || w.statuses.len() == u64::MAX
            &&& trace == seen.push(port::clock(w.now))
        },
    }
}

/// The accesses by which the endpoint behind the fixed one leaves its ring.
pub open spec fn ed_left(before: OhciModel, control: bool) -> Seq<Exchange> {
    let head = list_head(before, control) as int;
    seq![port::s32(at(before.ed_base, head), behind_head(before, control)), port::fence()]
}

/// The state after transfers came to their end.
pub open spec fn after_run(chosen: OhciModel, request: Request, ed: usize, ids: Seq<usize>) -> OhciModel {
    let kept = OhciModel {
        tds: chosen.tds.take(chosen.tds.len() - ids.len()) + ids,
        eds: if request.control {
            chosen.eds.push(ed)
        } else {
            chosen.eds
        },
        ..chosen
    };
    with_behind(kept, request.control, behind_head(chosen, request.control))
}

/// The state after transfers were given up: the controller still has them and their
/// endpoint, which stays in its ring.
pub open spec fn after_overdue(
    chosen: OhciModel,
    request: Request,
    ed: usize,
    count: int,
) -> OhciModel {
    let kept = OhciModel { tds: chosen.tds.take(chosen.tds.len() - count), ..chosen };
    with_behind(kept, request.control, low(chosen.ed_base, ed as int))
}

/// Where a transfer holds the place up to which its buffer was used.
pub open spec fn place_at(base: u64, index: int) -> usize {
    (base + 16 * index + 8) as usize
}

/// How much of the buffer of a transfer was not used. The controller clears the place
/// once it has used all of it.
pub open spec fn unused(plan: TdPlan, place: u32) -> int {
    let used = (place - plan.buffer) % 0x1_0000_0000;
    if place == 0 || used > plan.len {
        0
    } else {
        plan.len - used
    }
}

/// What became of transfers.
#[derive(Clone, Copy, Debug)]
pub enum OhciEnd {
    /// They are done. So many bytes of the measured buffer were not used.
    Done(usize),
    Failed(&'static str),
    /// The controller did not report them in time and still has them.
    Overdue,
}

/// Whether transfers were carried out so.
#[verifier::opaque]
pub open spec fn carried_out(
    w: OhciRun,
    before: OhciModel,
    after: OhciModel,
    request: Request,
    plans: Seq<TdPlan>,
    measured: int,
    trace: Seq<Exchange>,
    result: OhciEnd,
) -> bool {
    let count = plans.len() as int;
    let ids = taken(before.tds, count);
    let written = tds_written(before.td_base, ids, plans);
    if before.tds.len() < count {
        &&& after == before
        &&& trace == Seq::<Exchange>::empty()
        &&& result == OhciEnd::Failed("OHCI TD pool exhausted")
    } else {
        &&& ed_chosen(before, w.chosen, request, w.ed)
        &&& match w.ed {
            None => {
                &&& after == (OhciModel {
                    tds: before.tds.take(before.tds.len() - count),
                    ..before
                })
                &&& trace == written
                &&& result == OhciEnd::Failed("OHCI ED pool exhausted")
            },
            Some(ed) => {
                &&& queue_changed(
                    w.enter,
                    request.control,
                    ed_entered(before, request.control, ed),
                    w.enter_trace,
                )
                &&& end_awaited(w.wait, before.td_base, ids.last(), w.wait_trace, w.end)
                &&& match w.end {
                    None => {
                        &&& trace == written + ed_written(before, request, ed, ids)
                            + w.enter_trace + w.wait_trace
                        &&& after == after_overdue(w.chosen, request, ed, count)
                        &&& result == OhciEnd::Overdue
                    },
                    Some(word) => {
                        let good = word / 0x1000_0000 == regs::TD_CC_NOERROR;
                        &&& queue_changed(
                            w.leave,
                            request.control,
                            ed_left(before, request.control),
                            w.leave_trace,
                        )
                        &&& trace == written + ed_written(before, request, ed, ids)
                            + w.enter_trace + w.wait_trace + (w.leave_trace + if good {
                            seq![
                                port::l32(
                                    place_at(before.td_base, ids[measured] as int),
                                    w.place,
                                ),
                            ]
                        } else {
                            Seq::empty()
                        })
                        &&& after == after_run(w.chosen, request, ed, ids)
                        &&& result == if good {
                            OhciEnd::Done(unused(plans[measured], w.place) as usize)
                        } else {
                            OhciEnd::Failed("OHCI transfer error")
                        }
                    },
                }
            },
        }
    }
}

/// Waits until the controller reports that transfers are done.
fn await_report<F: FnMut(Access) -> u64>(port: &mut Port<F>, td_base: u64, last: usize) -> (result:
    Option<u32>)
    requires
        old(port).wf(),
        last < TD_COUNT,
    ensures
        final(port).wf(),
        final(port).performs() == old(port).performs(),
        port::grown(final(port).log(), old(port).log()),
        exists|w: EndWait| #[trigger]
            end_awaited(
                w,
                td_base,
                last,
                port::since(final(port).log(), old(port).log()),
                result,
            ),
{
    let ghost start = port.log();
    let began: u64 = port.now();
    let deadline: u64 = began.saturating_add(transaction::TRANSFER_TIMEOUT_NS);
    let ghost mut statuses: Seq<u32> = Seq::empty();
    let ghost mut times: Seq<u64> = Seq::empty();
    let ghost head = seq![port::clock(began)];
    let mut round: u64 = 0;
    assert(port.log() =~= start + (head + end_looks(statuses, times)));
    loop
        invariant
            port.wf(),
            port.performs() == old(port).performs(),
            last < TD_COUNT,
            head == seq![port::clock(began)],
            deadline == transaction::deadline_of(began),
            statuses.len() == round,
            times.len() == round,
            forall|i: int| 0 <= i < statuses.len() ==> !reported(#[trigger] statuses[i]),
            forall|i: int| 0 <= i < times.len() ==> (#[trigger] times[i]) < deadline,
            port.log() == start + (head + end_looks(statuses, times)),
            start == old(port).log(),
        decreases u64::MAX - round,
    {
        let status: u32 = port.read32(regs::OHCI_HC_INTERRUPT_STATUS);
        let ghost seen = head + end_looks(statuses, times) + seq![
            port::r32(regs::OHCI_HC_INTERRUPT_STATUS, status),
        ];
        assert(port.log() =~= start + seen);
        if status % 2 == 1 {
            port.write32(regs::OHCI_HC_INTERRUPT_STATUS, regs::OHCI_INTR_WDH);
            let word: u32 = port.load32(address_of(td_base, last));
            proof {
                let w = EndWait { began, statuses, times, status, now: 0 };
                let trace = seen + seq![
                    port::w32(regs::OHCI_HC_INTERRUPT_STATUS, regs::OHCI_INTR_WDH),
                    port::l32(at(td_base, last as int), word),
                ];
                assert(port.log() =~= start + trace);
                port::lemma_grown(start, trace);
                assert(end_awaited(w, td_base, last, trace, Some(word)));
            }
            return Some(word);
        }
        let now: u64 = port.now();
        if now >= deadline || round == u64::MAX {
            proof {
                let w = EndWait { began, statuses, times, status, now };
                let trace = seen.push(port::clock(now));
                assert(port.log() =~= start + trace);
                port::lemma_grown(start, trace);
                assert(end_awaited(w, td_base, last, trace, None));
            }
            return None;
        }
        port.delay(transaction::TRANSFER_POLL_NS);
        proof {
            let earlier = statuses;
            let earlier_times = times;
            statuses = statuses.push(status);
            times = times.push(now);
            assert(statuses.drop_last() =~= earlier);
            assert(times.drop_last() =~= earlier_times);
            assert(port.log() =~= start + (head + end_looks(statuses, times)));
        }
        round += 1;
    }
}

/// Looks how much of the buffer of a transfer was not used.
fn measure<F: FnMut(Access) -> u64>(
    port: &mut Port<F>,
    td_base: u64,
    index: usize,
    plan: TdPlan,
) -> (result: (usize, Ghost<u32>))
    requires
        old(port).wf(),
        index < TD_COUNT,
    ensures
        final(port).wf(),
        final(port).performs() == old(port).performs(),
        final(port).log() == old(port).log() + seq![
            port::l32(place_at(td_base, index as int), result.1@),
        ],
        result.0 == unused(plan, result.1@),
        result.0 <= plan.len,
{
    let ghost start = port.log();
    let place: u32 = port.load32((td_base as u128 + 16 * (index as u128) + 8) as usize);
    assert(port.log() =~= start + seq![port::l32(place_at(td_base, index as int), place)]);
    let used: u64 = (place as u64 + 0x1_0000_0000 - plan.buffer as u64) % 0x1_0000_0000;
    assert(used == (place - plan.buffer) % 0x1_0000_0000);
    let left: usize = if place == 0 || used > plan.len as u64 {
        0
    } else {
        plan.len - used as usize
    };
    (left, Ghost(place))
}

fn stop_queue<F: FnMut(Access) -> u64>(port: &mut Port<F>, control: bool)
    requires
        old(port).wf(),
    ensures
        final(port).wf(),
        final(port).performs() == old(port).performs(),
        port::grown(final(port).log(), old(port).log()),
        exists|w: QueueStop| #[trigger]
            queue_stopped(w, control, port::since(final(port).log(), old(port).log())),
{
    let ghost start = port.log();
    let value: u32 = port.read32(regs::OHCI_HC_CONTROL);
    let cleared: u32 = if control {
        value & 0xffff_ffef
    } else {
        value & 0xffff_ffdf
    };
    port.write32(regs::OHCI_HC_CONTROL, cleared);
    let ghost middle = port.log();
    let ended = port.poll(
        Poll {
            offset: regs::OHCI_HC_COMMAND_STATUS,
            wide: false,
            test: PollTest::clear(6),
            tries: RESET_TIMEOUT_LOOPS,
            pause_ns: Some(100),
        },
    );
    proof {
        let poll = port::since(port.log(), middle);
        let w = QueueStop { control: value, poll, ended };
        let trace = seq![
            port::r32(regs::OHCI_HC_CONTROL, value),
            port::w32(regs::OHCI_HC_CONTROL, cleared),
        ] + poll;
        assert(port.log() =~= start + trace);
        port::lemma_grown(start, trace);
        assert(queue_stopped(w, control, trace));
    }
}

fn start_queue<F: FnMut(Access) -> u64>(port: &mut Port<F>, control: bool) -> (value: Ghost<u32>)
    requires
        old(port).wf(),
    ensures
        final(port).wf(),
        final(port).performs() == old(port).performs(),
        final(port).log() == old(port).log() + queue_started(value@, control),
{
    let ghost start = port.log();
    let value: u32 = port.read32(regs::OHCI_HC_CONTROL);
    if control {
        port.write32(regs::OHCI_HC_CONTROL, value | regs::OHCI_CTRL_CLE);
        port.write32(regs::OHCI_HC_COMMAND_STATUS, regs::OHCI_CMDSTAT_CLF);
    } else {
        port.write32(regs::OHCI_HC_CONTROL, value | regs::OHCI_CTRL_BLE);
        port.write32(regs::OHCI_HC_COMMAND_STATUS, regs::OHCI_CMDSTAT_BLF);
    }
    assert(port.log() =~= start + queue_started(value, control));
    Ghost(value)
}

/// Fills a transfer in.
fn write_td<F: FnMut(Access) -> u64>(port: &mut Port<F>, base: u64, index: usize, plan: TdPlan)
    requires
        old(port).wf(),
        index < TD_COUNT,
        plan.dp <= 3,
    ensures
        final(port).wf(),
        final(port).performs() == old(port).performs(),
        final(port).log() == old(port).log() + port::words_stored(
            base + 16 * index,
            td_words(plan),
        ),
{
    let ghost start = port.log();
    let mut word: u32 = regs::TD_ROUNDING + plan.dp * 0x200_0000;
    if plan.toggle {
        word = word + regs::TD_TOGGLE;
    }
    word = word + (plan.len % 0x8000) as u32;
    let end: u32 = if plan.len != 0 {
        ((plan.buffer as u128 + plan.len as u128 - 1) % 0x1_0000_0000) as u32
    } else {
        plan.buffer
    };
    let first: u128 = base as u128 + 16 * (index as u128);
    port.store32(first as usize, 0);
    port.store32((first + 4) as usize, word);
    port.store32((first + 8) as usize, plan.buffer);
    port.store32((first + 12) as usize, end);
    assert(port.log() =~= start + port::words_stored(base + 16 * index, td_words(plan)));
}

impl OhciState {
    /// Finds the endpoint that is kept for requests like this.
    fn find_cached(&self, request: Request) -> (result: Option<usize>)
        ensures
            match result {
                Some(ed) => exists|at: int| #[trigger]
                    transaction::first_for(self.cached@, request, at) && ed == self.cached@[at].qh,
                None => transaction::none_for(self.cached@, request),
            },
    {
        let mut i: usize = 0;
        while i < self.cached.len()
            invariant
                i <= self.cached@.len(),
                forall|k: int|
                    0 <= k < i ==> !transaction::is_for(#[trigger] self.cached@[k], request),
            decreases self.cached@.len() - i,
        {
            let entry = self.cached[i];
            if entry.address == request.address && entry.ep == request.ep && entry.data_in
                == request.data_in {
                assert(transaction::first_for(self.cached@, request, i as int));
                return Some(entry.qh);
            }
            i += 1;
        }
        None
    }

    /// Chooses the endpoint of transfers.
    fn choose_ed(&mut self, request: Request) -> (result: Option<usize>)
        requires
            old(self).wf(),
        ensures
            final(self).wf(),
            ed_chosen(old(self)@, final(self)@, request, result),
            final(self).tds == old(self).tds,
            result matches Some(ed) ==> ed < ED_COUNT && (request.control ==> !final(self).eds.is_free(ed) && ed != old(self).control_ed && ed != old(self).bulk_ed && forall|
                i: int,
            | 0 <= i < final(self).cached@.len() ==> (#[trigger] final(self).cached@[i]).qh != ed),
    {
        if !request.control {
            match self.find_cached(request) {
                Some(ed) => {
                    proof {
                        let at = choose|at: int| #[trigger]
                            transaction::first_for(self.cached@, request, at) && ed
                                == self.cached@[at].qh;
                        assert(self.cached@[at].qh == ed);
                    }
                    return Some(ed);
                },
                None => {},
            }
        }
        let ghost before = *self;
        match self.eds.take() {
            Some(ed) => {
                proof {
                    assert forall|index: usize| !before.eds.is_free(index) implies !self.eds.is_free(
                        index,
                    ) by {
                        if self.eds.is_free(index) {
                            let k = choose|k: int|
                                0 <= k < self.eds.free@.len() && self.eds.free@[k] == index;
                            assert(before.eds.free@[k] == index);
                        }
                    }
                    assert forall|i: int| 0 <= i < self.cached@.len() implies (
                    #[trigger] self.cached@[i]).qh != ed by {
                        assert(!before.eds.is_free(before.cached@[i].qh));
                    }
                }
                if !request.control {
                    let ghost kept = self.cached@;
                    self.cached.push(
                        CachedQh {
                            address: request.address,
                            ep: request.ep,
                            data_in: request.data_in,
                            qh: ed,
                        },
                    );
                    assert forall|i: int| 0 <= i < self.cached@.len() implies (
                    #[trigger] self.cached@[i]).qh < ED_COUNT && !self.eds.is_free(
                        self.cached@[i].qh,
                    ) by {
                        if i < kept.len() {
                            assert(self.cached@[i] == kept[i]);
                        }
                    }
                }
                Some(ed)
            },
            None => None,
        }
    }

    /// Takes transfers and fills them in.
    fn take_tds<F: FnMut(Access) -> u64>(&mut self, port: &mut Port<F>, plans: &Vec<TdPlan>) -> (ids:
        Vec<usize>)
        requires
            old(self).wf(),
            old(port).wf(),
            plans@.len() <= old(self).tds.free@.len(),
            forall|i: int| 0 <= i < plans@.len() ==> (#[trigger] plans@[i]).dp <= 3,
        ensures
            final(self).wf(),
            final(port).wf(),
            final(port).performs() == old(port).performs(),
            ids@ == taken(old(self).tds.free@, plans@.len() as int),
            final(self)@ == (OhciModel {
                tds: old(self)@.tds.take(old(self)@.tds.len() - plans@.len()),
                ..old(self)@
            }),
            final(port).log() == old(port).log() + tds_written(old(self).td_base, ids@, plans@),
            ids@.no_duplicates(),
            forall|i: int|
                0 <= i < ids@.len() ==> (#[trigger] ids@[i]) < TD_COUNT && !final(self).tds.is_free(
                    ids@[i],
                ),
    {
        let ghost start = port.log();
        let ghost free = self.tds.free@;
        let mut ids: Vec<usize> = Vec::new();
        let mut i: usize = 0;
        assert(start + tds_written(self.td_base, ids@, plans@.take(0)) =~= start);
        assert(free.take(free.len() as int) =~= free);
        assert(ids@ =~= taken(free, 0));
        while i < plans.len()
            invariant
                i <= plans@.len(),
                plans@.len() <= free.len(),
                forall|i: int| 0 <= i < plans@.len() ==> (#[trigger] plans@[i]).dp <= 3,
                self.wf(),
                port.wf(),
                port.performs() == old(port).performs(),
                free == old(self).tds.free@,
                free.no_duplicates(),
                self.eds == old(self).eds,
                self.cached == old(self).cached,
                self.tds.free@ == free.take(free.len() - i),
                self@ == (OhciModel { tds: free.take(free.len() - i), ..old(self)@ }),
                ids@ == taken(free, i as int),
                port.log() == start + tds_written(
                    self.td_base,
                    ids@,
                    plans@.take(i as int),
                ),
            decreases plans@.len() - i,
        {
            let ghost earlier = ids@;
            match self.tds.take() {
                Some(index) => {
                    write_td(port, self.td_base, index, plans[i]);
                    ids.push(index);
                },
                None => {},
            }
            proof {
                let upto = plans@.take(i + 1);
                assert(upto.drop_last() =~= plans@.take(i as int));
                assert(upto.last() == plans@[i as int]);
                assert(ids@.drop_last() =~= earlier);
                assert(self.tds.free@ =~= free.take(free.len() - i - 1));
                assert(ids@ =~= taken(free, i + 1));
                assert(port.log() =~= start + tds_written(self.td_base, ids@, upto));
            }
            i += 1;
        }
        proof {
            assert(plans@.take(i as int) =~= plans@);
            let n = free.len() as int;
            assert forall|k: int| 0 <= k < ids@.len() implies (#[trigger] ids@[k]) < TD_COUNT
                && !self.tds.is_free(ids@[k]) by {
                assert(ids@[k] == free[n - 1 - k]);
                assert(old(self).tds.free@[n - 1 - k] < TD_COUNT);
                if self.tds.is_free(ids@[k]) {
                    let m = choose|m: int|
                        0 <= m < self.tds.free@.len() && self.tds.free@[m] == ids@[k];
                    assert(free[m] == free[n - 1 - k]);
                }
            }
            assert forall|a: int, b: int|
                0 <= a < ids@.len() && 0 <= b < ids@.len() && a != b implies ids@[a] != ids@[b] by {
                assert(ids@[a] == free[n - 1 - a] && ids@[b] == free[n - 1 - b]);
            }
        }
        ids
    }

    /// Fills an endpoint in and links its transfers.
    fn write_ed<F: FnMut(Access) -> u64>(
        &self,
        port: &mut Port<F>,
        request: Request,
        ed: usize,
        ids: &Vec<usize>,
    )
        requires
            old(port).wf(),
            ed < ED_COUNT,
            ids@.len() > 0,
            forall|i: int| 0 <= i < ids@.len() ==> (#[trigger] ids@[i]) < TD_COUNT,
        ensures
            final(port).wf(),
            final(port).performs() == old(port).performs(),
            final(port).log() == old(port).log() + ed_written(self@, request, ed, ids@),
    {
        let ghost start = port.log();
        let last: usize = ids[ids.len() - 1];
        let mut word: u32 = (request.address % 128) as u32 + ((request.ep % 16) as u32) * 0x80;
        word = word + if request.data_in {
            0x1000
        } else {
            0x1800
        };
        word = word + if self.low_speed {
            0x2000
        } else {
            0
        };
        word = word + if request.control {
            0x8_0000
        } else {
            0x40_0000
        };
        let first: u128 = self.ed_base as u128 + 16 * (ed as u128);
        port.store32(first as usize, 0);
        port.store32((first + 4) as usize, word);
        port.store32((first + 8) as usize, low_of(self.td_base, last));
        port.store32((first + 12) as usize, low_of(self.td_base, ids[0]) | regs::ED_H);
        let ghost head = port.log();
        let mut i: usize = 0;
        assert(head + tds_linked(self.td_base, ids@, 0) =~= head);
        while i < ids.len() - 1
            invariant
                port.wf(),
                port.performs() == old(port).performs(),
                i < ids@.len(),
                forall|i: int| 0 <= i < ids@.len() ==> (#[trigger] ids@[i]) < TD_COUNT,
                port.log() == head + tds_linked(self.td_base, ids@, i as int),
            decreases ids@.len() - i,
        {
            let from: usize = address_of(self.td_base, ids[i]);
            let to: u32 = low_of(self.td_base, ids[i + 1]);
            port.store32(from, to);
            assert(port.log() =~= head + tds_linked(self.td_base, ids@, i + 1));
            i += 1;
        }
        port.store32(address_of(self.td_base, last), 0);
        proof {
            let words = ed_words(request, self.low_speed, self.td_base, ids@);
            assert(head =~= start + port::words_stored(self.ed_base + 16 * ed, words));
            assert(port.log() =~= start + ed_written(self@, request, ed, ids@));
        }
    }

    /// What stands behind the fixed endpoint of a ring.
    fn behind(&self, control: bool) -> (next: u32)
        requires
            self.wf(),
        ensures
            next == behind_head(self@, control),
    {
        let next: u32 = if control {
            self.control_next
        } else {
            self.bulk_next
        };
        if next != 0 {
            next
        } else if control {
            low_of(self.ed_base, self.control_ed)
        } else {
            low_of(self.ed_base, self.bulk_ed)
        }
    }

    /// Lets an endpoint enter its ring.
    #[verifier::rlimit(40)]
    fn enter<F: FnMut(Access) -> u64>(&self, port: &mut Port<F>, control: bool, ed: usize)
        requires
            self.wf(),
            old(port).wf(),
            ed < ED_COUNT,
        ensures
            final(port).wf(),
            final(port).performs() == old(port).performs(),
            port::grown(final(port).log(), old(port).log()),
            exists|w: QueueRun| #[trigger]
                queue_changed(
                    w,
                    control,
                    ed_entered(self@, control, ed),
                    port::since(final(port).log(), old(port).log()),
                ),
    {
        let ghost start = port.log();
        stop_queue(port, control);
        let ghost stop_trace = port::since(port.log(), start);
        let head: usize = if control {
            self.control_ed
        } else {
            self.bulk_ed
        };
        port.store32(address_of(self.ed_base, head), low_of(self.ed_base, ed));
        let link: u32 = self.behind(control);
        port.store32(address_of(self.ed_base, ed), link);
        port.barrier();
        port.flush(self.td_base as usize);
        port.flush(self.ed_base as usize);
        let begun = start_queue(port, control);
        proof {
            let stop = choose|stop: QueueStop| #[trigger] queue_stopped(stop, control, stop_trace);
            let w = QueueRun { stop, stop_trace, start: begun@ };
            let trace = stop_trace + ed_entered(self@, control, ed) + queue_started(
                begun@,
                control,
            );
            assert(port.log() =~= start + trace);
            port::lemma_grown(start, trace);
            assert(queue_changed(w, control, ed_entered(self@, control, ed), trace));
        }
    }

    /// Lets the endpoint leave its ring.
    #[verifier::rlimit(40)]
    fn leave<F: FnMut(Access) -> u64>(&mut self, port: &mut Port<F>, control: bool)
        requires
            old(self).wf(),
            old(port).wf(),
        ensures
            final(self).wf(),
            final(port).wf(),
            final(port).performs() == old(port).performs(),
            final(self).tds == old(self).tds,
            final(self).eds == old(self).eds,
            final(self).cached == old(self).cached,
            final(self)@ == with_behind(old(self)@, control, behind_head(old(self)@, control)),
            port::grown(final(port).log(), old(port).log()),
            exists|w: QueueRun| #[trigger]
                queue_changed(
                    w,
                    control,
                    ed_left(old(self)@, control),
                    port::since(final(port).log(), old(port).log()),
                ),
    {
        let ghost start = port.log();
        stop_queue(port, control);
        let ghost stop_trace = port::since(port.log(), start);
        let head: usize = if control {
            self.control_ed
        } else {
            self.bulk_ed
        };
        let link: u32 = self.behind(control);
        port.store32(address_of(self.ed_base, head), link);
        port.barrier();
        let begun = start_queue(port, control);
        if control {
            self.control_next = link;
        } else {
            self.bulk_next = link;
        }
        proof {
            let stop = choose|stop: QueueStop| #[trigger] queue_stopped(stop, control, stop_trace);
            let w = QueueRun { stop, stop_trace, start: begun@ };
            let trace = stop_trace + ed_left(old(self)@, control) + queue_started(begun@, control);
            assert(port.log() =~= start + trace);
            port::lemma_grown(start, trace);
            assert(queue_changed(w, control, ed_left(old(self)@, control), trace));
        }
    }

    /// Carries transfers out, one chain at a time, and measures how far the buffer of
    /// one of them was used.
    #[verifier::rlimit(40)]
    pub fn submit_linked<F: FnMut(Access) -> u64>(
        &mut self,
        port: &mut Port<F>,
        request: Request,
        plans: &Vec<TdPlan>,
        measured: usize,
    ) -> (result: OhciEnd)
        requires
            old(self).wf(),
            old(port).wf(),
            measured < plans@.len(),
            forall|i: int| 0 <= i < plans@.len() ==> (#[trigger] plans@[i]).dp <= 3,
        ensures
            final(self).wf(),
            final(port).wf(),
            final(port).performs() == old(port).performs(),
            port::grown(final(port).log(), old(port).log()),
            exists|w: OhciRun| #[trigger]
                carried_out(
                    w,
                    old(self)@,
                    final(self)@,
                    request,
                    plans@,
                    measured as int,
                    port::since(final(port).log(), old(port).log()),
                    result,
                ),
            result matches OhciEnd::Done(left) ==> left <= plans@[measured as int].len,
    {
        reveal(carried_out);
        let ghost start = port.log();
        let ghost before = self@;
        let ghost mut w: OhciRun = arbitrary();
        if self.tds.free.len() < plans.len() {
            proof {
                assert(start + Seq::<Exchange>::empty() =~= start);
                port::lemma_grown(start, Seq::empty());
                assert(carried_out(
                    w,
                    before,
                    self@,
                    request,
                    plans@,
                    measured as int,
                    Seq::empty(),
                    OhciEnd::Failed("OHCI TD pool exhausted"),
                ));
            }
            return OhciEnd::Failed("OHCI TD pool exhausted");
        }
        let ids = self.take_tds(port, plans);
        let ghost written = tds_written(before.td_base, ids@, plans@);
        let ghost drained = self@;
        let chosen = self.choose_ed(request);
        proof {
            w = OhciRun { chosen: OhciModel { tds: before.tds, ..self@ }, ed: chosen, ..w };
            lemma_chosen(before, drained, self@, request, chosen);
            port::lemma_grown(start, written);
        }
        let ed: usize = match chosen {
            Some(ed) => ed,
            None => {
                assert(carried_out(
                    w,
                    before,
                    self@,
                    request,
                    plans@,
                    measured as int,
                    written,
                    OhciEnd::Failed("OHCI ED pool exhausted"),
                ));
                return OhciEnd::Failed("OHCI ED pool exhausted");
            },
        };
        self.write_ed(port, request, ed, &ids);
        let ghost filled = ed_written(before, request, ed, ids@);
        assert(ed_written(self@, request, ed, ids@) == filled);
        let ghost log1 = port.log();
        self.enter(port, request.control, ed);
        let ghost enter_trace = port::since(port.log(), log1);
        assert(ed_entered(self@, request.control, ed) == ed_entered(before, request.control, ed));
        let ghost log2 = port.log();
        let last: usize = ids[ids.len() - 1];
        let end = await_report(port, self.td_base, last);
        let ghost wait_trace = port::since(port.log(), log2);
        proof {
            let wait = choose|wait: EndWait| #[trigger]
                end_awaited(wait, before.td_base, last, wait_trace, end);
            let enter = choose|run: QueueRun| #[trigger]
                queue_changed(
                    run,
                    request.control,
                    ed_entered(before, request.control, ed),
                    enter_trace,
                );
            w = OhciRun { enter, enter_trace, wait, wait_trace, end, ..w };
        }
        let word: u32 = match end {
            Some(word) => word,
            None => {
                let link: u32 = low_of(self.ed_base, ed);
                if request.control {
                    self.control_next = link;
                } else {
                    self.bulk_next = link;
                }
                proof {
                    let trace = written + filled + enter_trace + wait_trace;
                    assert(port.log() =~= start + trace);
                    port::lemma_grown(start, trace);
                    assert(self@ == after_overdue(w.chosen, request, ed, plans@.len() as int));
                    assert(carried_out(
                        w,
                        before,
                        self@,
                        request,
                        plans@,
                        measured as int,
                        trace,
                        OhciEnd::Overdue,
                    ));
                }
                return OhciEnd::Overdue;
            },
        };
        let ghost log3 = port.log();
        let ghost entered = self@;
        self.leave(port, request.control);
        let ghost leave_trace = port::since(port.log(), log3);
        assert(ed_left(entered, request.control) == ed_left(before, request.control));
        let ghost log4 = port.log();
        let good: bool = word / 0x1000_0000 == regs::TD_CC_NOERROR;
        let ghost mut counted: Seq<Exchange> = Seq::empty();
        let result: OhciEnd = if good {
            let (left, place) = measure(port, self.td_base, ids[measured], plans[measured]);
            proof {
                w = OhciRun { place: place@, ..w };
                counted = seq![
                    port::l32(place_at(before.td_base, ids@[measured as int] as int), place@),
                ];
            }
            OhciEnd::Done(left)
        } else {
            OhciEnd::Failed("OHCI transfer error")
        };
        assert(port.log() =~= log4 + counted);
        let ghost eds_before = self.eds;
        self.tds.give_all(&ids);
        if request.control {
            self.eds.give(ed);
            proof {
                assert forall|free: usize| self.eds.is_free(free) implies eds_before.is_free(free)
                    || free == ed by {
                    let k = choose|k: int|
                        0 <= k < self.eds.free@.len() && self.eds.free@[k] == free;
                    if k < eds_before.free@.len() {
                        assert(eds_before.free@[k] == free);
                    }
                }
            }
        }
        proof {
            let leave = choose|run: QueueRun| #[trigger]
                queue_changed(
                    run,
                    request.control,
                    ed_left(before, request.control),
                    leave_trace,
                );
            w = OhciRun { leave, leave_trace, ..w };
            let gone = leave_trace + counted;
            let trace = written + filled + enter_trace + wait_trace + gone;
            assert(port.log() =~= log3 + gone);
            port::lemma_five(start, written, filled, enter_trace, wait_trace, gone);
            assert(port.log() == start + trace);
            port::lemma_grown(start, trace);
            assert(self@ == after_run(w.chosen, request, ed, ids@));
            assert(carried_out(
                w,
                before,
                self@,
                request,
                plans@,
                measured as int,
                trace,
                result,
            ));
        }
        result
    }
}

/// The choice of an endpoint does not depend on the free transfers.
proof fn lemma_chosen(
    before: OhciModel,
    drained: OhciModel,
    after: OhciModel,
    request: Request,
    result: Option<usize>,
)
    requires
        drained == (OhciModel { tds: drained.tds, ..before }),
        ed_chosen(drained, after, request, result),
    ensures
        ed_chosen(before, OhciModel { tds: before.tds, ..after }, request, result),
{
    if !request.control && after == drained && exists|at: int| #[trigger]
        transaction::first_for(drained.cached, request, at) && result == Some(
            drained.cached[at].qh,
        ) {
        let at = choose|at: int| #[trigger]
            transaction::first_for(drained.cached, request, at) && result == Some(
                drained.cached[at].qh,
            );
        assert(transaction::first_for(before.cached, request, at));
    }
}

/// A full-speed host controller.
pub struct OhciHcd<F> {
    pub port: Port<F>,
    pub state: OhciState,
    pub calls: Ghost<Seq<Call>>,
}

/// The low half of an address.
pub open spec fn low32(address: int) -> u32 {
    (address % 0x1_0000_0000) as u32
}

/// The transfers of a request.
pub open spec fn control_plan(setup: u64, payload: u64, len: usize, data_in: bool) -> Seq<TdPlan> {
    let first = TdPlan { buffer: low32(setup as int), len: 8, dp: regs::TD_DP_SETUP, toggle: false };
    let last = TdPlan {
        buffer: 0,
        len: 0,
        dp: if data_in || len == 0 {
            regs::TD_DP_OUT
        } else {
            regs::TD_DP_IN
        },
        toggle: true,
    };
    if len == 0 {
        seq![first, last]
    } else {
        seq![
            first,
            TdPlan { buffer: low32(payload as int), len, dp: data_dp(data_in), toggle: true },
            last,
        ]
    }
}

/// The direction of data.
pub open spec fn data_dp(data_in: bool) -> u32 {
    if data_in {
        regs::TD_DP_IN
    } else {
        regs::TD_DP_OUT
    }
}

/// How many transfers data takes.
pub open spec fn chunk_count(len: int) -> int {
    if len == 0 {
        1
    } else {
        (len + TD_CHUNK - 1) / (TD_CHUNK as int)
    }
}

/// One of the transfers of data; they alternate.
pub open spec fn bulk_piece(payload: u64, len: int, data_in: bool, i: int) -> TdPlan {
    TdPlan {
        buffer: if len == 0 {
            0
        } else {
            low32(payload + TD_CHUNK * i)
        },
        len: (if len - TD_CHUNK * i < TD_CHUNK {
            len - TD_CHUNK * i
        } else {
            TD_CHUNK as int
        }) as usize,
        dp: data_dp(data_in),
        toggle: i % 2 == 1,
    }
}

/// The transfers of data.
pub open spec fn bulk_plan(payload: u64, len: int, data_in: bool) -> Seq<TdPlan> {
    Seq::new(chunk_count(len) as nat, |i: int| bulk_piece(payload, len, data_in, i))
}

/// The accesses by which bytes are placed where the controller finds them.
pub open spec fn placed(bytes: Seq<u8>, address: u64) -> Seq<Exchange> {
    if bytes.len() == 0 {
        Seq::empty()
    } else {
        seq![port::payload_mapped(bytes.len() as usize, address)] + port::bytes_stored(
            address as int,
            bytes,
        )
    }
}

/// The accesses by which bytes come back.
pub open spec fn fetched(after: Seq<u8>, address: u64, data_in: bool) -> Seq<Exchange> {
    if after.len() == 0 {
        Seq::empty()
    } else {
        (if data_in {
            port::bytes_loaded(address as int, after)
        } else {
            Seq::empty()
        }) + seq![port::buffer_released(address)]
    }
}

/// How data was transferred.
pub ghost struct OhciTransfer {
    pub setup: u64,
    pub payload: u64,
    pub run: OhciRun,
    pub run_trace: Seq<Exchange>,
    pub end: OhciEnd,
}

/// Whether data was transferred so. What counts is the data up to the place that the
/// last of its buffers was used to. Of transfers that the controller still has nothing
/// is given back.
pub open spec fn data_moved(
    w: OhciTransfer,
    before: OhciModel,
    after: OhciModel,
    request: Request,
    setup: Seq<u8>,
    plans: Seq<TdPlan>,
    measured: int,
    data: Seq<u8>,
    data_after: Seq<u8>,
    trace: Seq<Exchange>,
    result: Result<usize, &'static str>,
) -> bool {
    let run = placed(setup, w.setup) + placed(data, w.payload) + w.run_trace;
    &&& carried_out(w.run, before, after, request, plans, measured, w.run_trace, w.end)
    &&& data_after.len() == data.len()
    &&& !request.data_in || w.end is Overdue ==> data_after == data
    &&& trace == if w.end is Overdue {
        run
    } else {
        run + fetched(data_after, w.payload, request.data_in) + fetched(setup, w.setup, false)
    }
    &&& result == match w.end {
        OhciEnd::Done(left) => Ok::<usize, &'static str>((data.len() - left) as usize),
        OhciEnd::Failed(error) => Err(error),
        OhciEnd::Overdue => Err("OHCI transfer timeout"),
    }
}

/// What a transfer of so many bytes gives.
fn counted(end: OhciEnd, len: usize) -> (result: Result<usize, &'static str>)
    requires
        end matches OhciEnd::Done(left) ==> left <= len,
    ensures
        result == (match end {
            OhciEnd::Done(left) => Ok::<usize, &'static str>((len - left) as usize),
            OhciEnd::Failed(error) => Err(error),
            OhciEnd::Overdue => Err("OHCI transfer timeout"),
        }),
{
    match end {
        OhciEnd::Done(left) => Ok(len - left),
        OhciEnd::Failed(error) => Err(error),
        OhciEnd::Overdue => Err("OHCI transfer timeout"),
    }
}

proof fn lemma_tds_keep(base: u64, ids: Seq<usize>, plans: Seq<TdPlan>)
    ensures
        transaction::keeps_buffers(tds_written(base, ids, plans)),
    decreases plans.len(),
{
    if plans.len() > 0 {
        lemma_tds_keep(base, ids.drop_last(), plans.drop_last());
        let last = port::words_stored(base + 16 * ids.last(), td_words(plans.last()));
        assert(transaction::keeps_buffers(last));
        transaction::lemma_keeps_both(
            tds_written(base, ids.drop_last(), plans.drop_last()),
            last,
        );
    }
}

proof fn lemma_change_keeps(
    w: QueueRun,
    control: bool,
    change: Seq<Exchange>,
    trace: Seq<Exchange>,
)
    requires
        queue_changed(w, control, change, trace),
        transaction::keeps_buffers(change),
    ensures
        transaction::keeps_buffers(trace),
{
    port::poll_is_bounded(
        ehci::paced(
            regs::OHCI_HC_COMMAND_STATUS,
            ehci::all_clear(6),
            RESET_TIMEOUT_LOOPS,
            100,
        ),
        w.stop.poll,
        w.stop.ended,
    );
    assert(transaction::keeps_buffers(w.stop_trace));
    transaction::lemma_keeps_both(w.stop_trace, change);
    let started = queue_started(w.start, control);
    assert(transaction::keeps_buffers(started));
    transaction::lemma_keeps_both(w.stop_trace + change, started);
}

proof fn lemma_end_looks_keep(statuses: Seq<u32>, times: Seq<u64>)
    ensures
        transaction::keeps_buffers(end_looks(statuses, times)),
    decreases statuses.len(),
{
    if statuses.len() > 0 {
        let earlier = end_looks(statuses.drop_last(), times.drop_last());
        let last = seq![
            port::r32(regs::OHCI_HC_INTERRUPT_STATUS, statuses.last()),
            port::clock(times.last()),
            port::wait(transaction::TRANSFER_POLL_NS),
        ];
        lemma_end_looks_keep(statuses.drop_last(), times.drop_last());
        assert(transaction::keeps_buffers(last));
        transaction::lemma_keeps_both(earlier, last);
    }
}

/// Of transfers that the controller did not report in time, and so still has, neither
/// payloads nor transfers nor their endpoint are given back.
pub proof fn memory_outlives_overdue_transfer(
    w: OhciTransfer,
    before: OhciModel,
    after: OhciModel,
    request: Request,
    setup: Seq<u8>,
    plans: Seq<TdPlan>,
    measured: int,
    data: Seq<u8>,
    data_after: Seq<u8>,
    trace: Seq<Exchange>,
    result: Result<usize, &'static str>,
)
    requires
        data_moved(
            w,
            before,
            after,
            request,
            setup,
            plans,
            measured,
            data,
            data_after,
            trace,
            result,
        ),
        w.end is Overdue,
    ensures
        transaction::keeps_buffers(trace),
        after.tds == before.tds.take(before.tds.len() - plans.len()),
        after.eds == w.run.chosen.eds,
        result == Err::<usize, &'static str>("OHCI transfer timeout"),
{
    reveal(carried_out);
    let run = w.run;
    let ed = run.ed->0;
    let ids = taken(before.tds, plans.len() as int);
    let written = tds_written(before.td_base, ids, plans);
    let filled = ed_written(before, request, ed, ids);
    lemma_tds_keep(before.td_base, ids, plans);
    assert(transaction::keeps_buffers(filled));
    transaction::lemma_keeps_both(written, filled);
    lemma_change_keeps(
        run.enter,
        request.control,
        ed_entered(before, request.control, ed),
        run.enter_trace,
    );
    transaction::lemma_keeps_both(written + filled, run.enter_trace);
    lemma_end_looks_keep(run.wait.statuses, run.wait.times);
    let began = seq![port::clock(run.wait.began)];
    let looks = end_looks(run.wait.statuses, run.wait.times);
    transaction::lemma_keeps_both(began, looks);
    let last = seq![port::r32(regs::OHCI_HC_INTERRUPT_STATUS, run.wait.status)];
    transaction::lemma_keeps_both(began + looks, last);
    assert(transaction::keeps_buffers(run.wait_trace));
    transaction::lemma_keeps_both(written + filled + run.enter_trace, run.wait_trace);
    let first = placed(setup, w.setup);
    let second = placed(data, w.payload);
    assert(transaction::keeps_buffers(first) && transaction::keeps_buffers(second));
    transaction::lemma_keeps_both(first, second);
    transaction::lemma_keeps_both(first + second, w.run_trace);
}

/// Whether a request was made so.
pub open spec fn ohci_control(
    w: OhciTransfer,
    before: OhciModel,
    after: OhciModel,
    address: u8,
    setup: UsbSetup,
    data: Seq<u8>,
    data_in: bool,
    data_after: Seq<u8>,
    trace: Seq<Exchange>,
    result: Result<usize, &'static str>,
) -> bool {
    data_moved(
        w,
        before,
        after,
        Request { address, ep: 0, data_in, control: true },
        setup.bytes(),
        control_plan(w.setup, w.payload, data.len() as usize, data_in),
        1,
        data,
        data_after,
        trace,
        result,
    )
}

/// Whether a transfer of data was made so.
pub open spec fn ohci_bulk(
    w: OhciTransfer,
    before: OhciModel,
    after: OhciModel,
    address: u8,
    ep: u8,
    data: Seq<u8>,
    data_in: bool,
    data_after: Seq<u8>,
    trace: Seq<Exchange>,
    result: Result<usize, &'static str>,
) -> bool {
    data_moved(
        w,
        before,
        after,
        Request { address, ep: ep % 16, data_in, control: false },
        Seq::empty(),
        bulk_plan(w.payload, data.len() as int, data_in),
        chunk_count(data.len() as int) - 1,
        data,
        data_after,
        trace,
        result,
    )
}

/// Places bytes where the controller finds them.
pub fn place<F: FnMut(Access) -> u64>(port: &mut Port<F>, bytes: &Vec<u8>) -> (address: u64)
    requires
        old(port).wf(),
    ensures
        final(port).wf(),
        final(port).performs() == old(port).performs(),
        final(port).log() == old(port).log() + placed(bytes@, address),
{
    let ghost start = port.log();
    if bytes.len() == 0 {
        assert(start + placed(bytes@, 0) =~= start);
        return 0;
    }
    let address: u64 = port.map_payload(bytes.len());
    port.store_bytes(address, bytes);
    assert(port.log() =~= start + placed(bytes@, address));
    address
}

/// Gets bytes back.
pub fn fetch<F: FnMut(Access) -> u64>(
    port: &mut Port<F>,
    address: u64,
    data: &mut Vec<u8>,
    data_in: bool,
)
    requires
        old(port).wf(),
    ensures
        final(port).wf(),
        final(port).performs() == old(port).performs(),
        final(data)@.len() == old(data)@.len(),
        !data_in ==> final(data)@ == old(data)@,
        final(port).log() == old(port).log() + fetched(final(data)@, address, data_in),
{
    let ghost start = port.log();
    if data.len() == 0 {
        assert(start + fetched(data@, address, data_in) =~= start);
        return ;
    }
    if data_in {
        *data = port.load_bytes(address, data.len());
    }
    port.release_buffer(address);
    assert(port.log() =~= start + fetched(data@, address, data_in));
}

/// Makes the transfers of data.
fn plan_bulk(payload: u64, len: usize, data_in: bool) -> (plans: Vec<TdPlan>)
    ensures
        plans@ == bulk_plan(payload, len as int, data_in),
        plans@.len() == chunk_count(len as int),
        plans@.len() > 0,
        plans@.last().len <= len,
        forall|i: int| 0 <= i < plans@.len() ==> (#[trigger] plans@[i]).dp <= 3,
{
    let dp: u32 = if data_in {
        regs::TD_DP_IN
    } else {
        regs::TD_DP_OUT
    };
    let mut plans: Vec<TdPlan> = Vec::new();
    if len == 0 {
        plans.push(TdPlan { buffer: 0, len: 0, dp, toggle: false });
        assert(plans@ =~= bulk_plan(payload, 0, data_in));
        return plans;
    }
    let mut offset: usize = 0;
    let mut toggle: bool = false;
    while offset < len
        invariant
            len > 0,
            dp == data_dp(data_in),
            plans@.len() <= chunk_count(len as int),
            offset == if plans@.len() < chunk_count(len as int) {
                TD_CHUNK * plans@.len()
            } else {
                len as int
            },
            toggle == (plans@.len() % 2 == 1),
            forall|i: int|
                0 <= i < plans@.len() ==> #[trigger] plans@[i] == bulk_piece(
                    payload,
                    len as int,
                    data_in,
                    i,
                ),
        decreases len - offset,
    {
        let left: usize = len - offset;
        let chunk: usize = if left < TD_CHUNK {
            left
        } else {
            TD_CHUNK
        };
        let buffer: u32 = ((payload as u128 + offset as u128) % 0x1_0000_0000) as u32;
        plans.push(TdPlan { buffer, len: chunk, dp, toggle });
        offset = offset + chunk;
        toggle = !toggle;
    }
    assert(plans@ =~= bulk_plan(payload, len as int, data_in));
    plans
}

/// Transfers data.
fn run_bulk<F: FnMut(Access) -> u64>(
    port: &mut Port<F>,
    state: &mut OhciState,
    address: u8,
    ep: u8,
    data: &mut Vec<u8>,
    data_in: bool,
) -> (result: Result<usize, &'static str>)
    requires
        old(port).wf(),
        old(state).wf(),
    ensures
        final(port).wf(),
        final(port).performs() == old(port).performs(),
        final(state).wf(),
        final(data)@.len() == old(data)@.len(),
        port::grown(final(port).log(), old(port).log()),
        exists|w: OhciTransfer| #[trigger]
            ohci_bulk(
                w,
                old(state)@,
                final(state)@,
                address,
                ep,
                old(data)@,
                data_in,
                final(data)@,
                port::since(final(port).log(), old(port).log()),
                result,
            ),
{
    let ghost start = port.log();
    let ghost before = state@;
    let ghost given = data@;
    let payload: u64 = place(port, data);
    let plans = plan_bulk(payload, data.len(), data_in);
    let request = Request { address, ep: ep % 16, data_in, control: false };
    let ghost middle = port.log();
    let measured: usize = plans.len() - 1;
    let end = state.submit_linked(port, request, &plans, measured);
    let ghost run_trace = port::since(port.log(), middle);
    let ghost run = choose|run: OhciRun| #[trigger]
        carried_out(run, before, state@, request, plans@, measured as int, run_trace, end);
    let overdue: bool = matches!(end, OhciEnd::Overdue);
    if !overdue {
        fetch(port, payload, data, data_in);
    }
    let result = counted(end, data.len());
    proof {
        let w = OhciTransfer { setup: 0, payload, run, run_trace, end };
        let none = Seq::<u8>::empty();
        let ran = placed(none, 0) + placed(given, payload) + run_trace;
        let trace = if overdue {
            ran
        } else {
            ran + fetched(data@, payload, data_in) + fetched(none, 0, false)
        };
        assert(port.log() =~= start + trace);
        port::lemma_grown(start, trace);
        assert(ohci_bulk(w, before, state@, address, ep, given, data_in, data@, trace, result));
    }
    result
}

/// Makes a request.
fn run_control<F: FnMut(Access) -> u64>(
    port: &mut Port<F>,
    state: &mut OhciState,
    address: u8,
    setup: UsbSetup,
    data: &mut Vec<u8>,
    data_in: bool,
) -> (result: Result<usize, &'static str>)
    requires
        old(port).wf(),
        old(state).wf(),
    ensures
        final(port).wf(),
        final(port).performs() == old(port).performs(),
        final(state).wf(),
        final(data)@.len() == old(data)@.len(),
        port::grown(final(port).log(), old(port).log()),
        exists|w: OhciTransfer| #[trigger]
            ohci_control(
                w,
                old(state)@,
                final(state)@,
                address,
                setup,
                old(data)@,
                data_in,
                final(data)@,
                port::since(final(port).log(), old(port).log()),
                result,
            ),
{
    let ghost start = port.log();
    let ghost before = state@;
    let ghost given = data@;
    let mut bytes = setup.to_bytes();
    let setup_at: u64 = place(port, &bytes);
    let payload: u64 = place(port, data);
    let mut plans: Vec<TdPlan> = Vec::new();
    plans.push(
        TdPlan {
            buffer: (setup_at % 0x1_0000_0000) as u32,
            len: 8,
            dp: regs::TD_DP_SETUP,
            toggle: false,
        },
    );
    if data.len() != 0 {
        let dp: u32 = if data_in {
            regs::TD_DP_IN
        } else {
            regs::TD_DP_OUT
        };
        plans.push(
            TdPlan {
                buffer: (payload % 0x1_0000_0000) as u32,
                len: data.len(),
                dp,
                toggle: true,
            },
        );
    }
    let status: u32 = if data_in || data.len() == 0 {
        regs::TD_DP_OUT
    } else {
        regs::TD_DP_IN
    };
    plans.push(TdPlan { buffer: 0, len: 0, dp: status, toggle: true });
    assert(plans@ =~= control_plan(setup_at, payload, given.len() as usize, data_in));
    let request = Request { address, ep: 0, data_in, control: true };
    let ghost middle = port.log();
    let end = state.submit_linked(port, request, &plans, 1);
    let ghost run_trace = port::since(port.log(), middle);
    let ghost run = choose|run: OhciRun| #[trigger]
        carried_out(run, before, state@, request, plans@, 1, run_trace, end);
    let overdue: bool = matches!(end, OhciEnd::Overdue);
    if !overdue {
        fetch(port, payload, data, data_in);
        fetch(port, setup_at, &mut bytes, false);
    }
    let result = counted(end, data.len());
    proof {
        let w = OhciTransfer { setup: setup_at, payload, run, run_trace, end };
        let first = placed(setup.bytes(), setup_at);
        let second = placed(given, payload);
        let third = fetched(data@, payload, data_in);
        let fourth = fetched(setup.bytes(), setup_at, false);
        let trace = if overdue {
            first + second + run_trace
        } else {
            first + second + run_trace + third + fourth
        };
        port::lemma_five(start, first, second, run_trace, third, fourth);
        assert(port.log() =~= start + trace);
        port::lemma_grown(start, trace);
        assert(ohci_control(
            w,
            before,
            state@,
            address,
            setup,
            given,
            data_in,
            data@,
            trace,
            result,
        ));
    }
    result
}

/// How a controller was started.
pub ghost struct OhciStart {
    pub ed: u64,
    pub td: u64,
    pub hcca: u64,
    pub poll: Seq<Exchange>,
    pub ended: Option<u64>,
}

/// Whether a controller was started so. If that fails its memory is given back.
pub open spec fn ohci_started(
    w: OhciStart,
    trace: Seq<Exchange>,
    result: Result<OhciModel, &'static str>,
) -> bool {
    let first = seq![port::buffer_allocated(512, 32, w.ed)];
    let second = first.push(port::buffer_allocated(2048, 32, w.td));
    let third = second.push(port::buffer_allocated(256, 256, w.hcca));
    if w.ed == NO_PAGE {
        trace == first && result == Err::<OhciModel, &'static str>("OHCI DMA buffer is unavailable")
    } else if w.td == NO_PAGE {
        &&& trace == second.push(port::buffer_released(w.ed))
        &&& result == Err::<OhciModel, &'static str>("OHCI DMA buffer is unavailable")
    } else if w.hcca == NO_PAGE {
        &&& trace == third + seq![port::buffer_released(w.ed), port::buffer_released(w.td)]
        &&& result == Err::<OhciModel, &'static str>("OHCI DMA buffer is unavailable")
    } else {
        let reset = third.push(
            port::w32(regs::OHCI_HC_COMMAND_STATUS, regs::OHCI_CMDSTAT_HCR),
        ) + w.poll;
        &&& ehci::paced(
            regs::OHCI_HC_COMMAND_STATUS,
            ehci::all_clear(regs::OHCI_CMDSTAT_HCR as u64),
            RESET_TIMEOUT_LOOPS,
            1_000,
        ).done(w.poll, w.ended)
        &&& if w.ended is None {
            &&& trace == reset + seq![
                port::buffer_released(w.ed),
                port::buffer_released(w.td),
                port::buffer_released(w.hcca),
            ]
            &&& result == Err::<OhciModel, &'static str>("OHCI reset timeout")
        } else {
            &&& trace == reset + seq![
                port::w32(regs::OHCI_HC_HCCA, low32(w.hcca as int)),
                port::w32(regs::OHCI_HC_FM_INTERVAL, 0x5a_2edf),
                port::s32(at(w.ed, 31), 0),
                port::s32(at(w.ed, 30), 0),
                port::w32(regs::OHCI_HC_CONTROL, 0x480),
            ]
            &&& result == Ok::<OhciModel, &'static str>(
                OhciModel {
                    ed_base: w.ed,
                    td_base: w.td,
                    hcca: w.hcca,
                    eds: Seq::new(30, |i: int| i as usize),
                    tds: Seq::new(TD_COUNT as nat, |i: int| i as usize),
                    cached: Seq::empty(),
                    control_ed: 31,
                    bulk_ed: 30,
                    control_next: 0,
                    bulk_next: 0,
                    low_speed: false,
                },
            )
        }
    }
}

/// What a start gave.
pub open spec fn model_of(result: Result<OhciState, &'static str>) -> Result<
    OhciModel,
    &'static str,
> {
    match result {
        Ok(state) => Ok(state@),
        Err(error) => Err(error),
    }
}

/// Starts a controller.
pub fn start_host<F: FnMut(Access) -> u64>(port: &mut Port<F>) -> (result: Result<
    OhciState,
    &'static str,
>)
    requires
        old(port).wf(),
    ensures
        final(port).wf(),
        final(port).performs() == old(port).performs(),
        port::grown(final(port).log(), old(port).log()),
        result matches Ok(state) ==> state.wf(),
        exists|w: OhciStart| #[trigger]
            ohci_started(
                w,
                port::since(final(port).log(), old(port).log()),
                model_of(result),
            ),
{
    let ghost start = port.log();
    let ghost mut w: OhciStart = arbitrary();
    let ed: u64 = port.allocate_buffer(512, 32);
    let ghost first = seq![port::buffer_allocated(512, 32, ed)];
    proof {
        w = OhciStart { ed, ..w };
    }
    if ed == NO_PAGE {
        let result: Result<OhciState, &'static str> = Err("OHCI DMA buffer is unavailable");
        proof {
            let trace = first;
            assert(port.log() =~= start + trace);
            port::lemma_grown(start, trace);
            assert(ohci_started(w, trace, model_of(result)));
        }
        return result;
    }
    let td: u64 = port.allocate_buffer(2048, 32);
    let ghost second = first.push(port::buffer_allocated(2048, 32, td));
    proof {
        w = OhciStart { td, ..w };
    }
    if td == NO_PAGE {
        port.release_buffer(ed);
        let result: Result<OhciState, &'static str> = Err("OHCI DMA buffer is unavailable");
        proof {
            let trace = second.push(port::buffer_released(ed));
            assert(port.log() =~= start + trace);
            port::lemma_grown(start, trace);
            assert(ohci_started(w, trace, model_of(result)));
        }
        return result;
    }
    let hcca: u64 = port.allocate_buffer(256, 256);
    let ghost third = second.push(port::buffer_allocated(256, 256, hcca));
    proof {
        w = OhciStart { hcca, ..w };
    }
    if hcca == NO_PAGE {
        port.release_buffer(ed);
        port.release_buffer(td);
        let result: Result<OhciState, &'static str> = Err("OHCI DMA buffer is unavailable");
        proof {
            let trace = third + seq![port::buffer_released(ed), port::buffer_released(td)];
            assert(port.log() =~= start + trace);
            port::lemma_grown(start, trace);
            assert(ohci_started(w, trace, model_of(result)));
        }
        return result;
    }
    port.write32(regs::OHCI_HC_COMMAND_STATUS, regs::OHCI_CMDSTAT_HCR);
    let ghost middle = port.log();
    let ended = port.poll(
        Poll {
            offset: regs::OHCI_HC_COMMAND_STATUS,
            wide: false,
            test: PollTest::clear(regs::OHCI_CMDSTAT_HCR as u64),
            tries: RESET_TIMEOUT_LOOPS,
            pause_ns: Some(1_000),
        },
    );
    let ghost poll = port::since(port.log(), middle);
    let ghost reset = third.push(
        port::w32(regs::OHCI_HC_COMMAND_STATUS, regs::OHCI_CMDSTAT_HCR),
    ) + poll;
    proof {
        w = OhciStart { poll, ended, ..w };
        assert(port.log() =~= start + reset);
    }
    if ended.is_none() {
        port.release_buffer(ed);
        port.release_buffer(td);
        port.release_buffer(hcca);
        let result: Result<OhciState, &'static str> = Err("OHCI reset timeout");
        proof {
            let trace = reset + seq![ port::buffer_released(ed), port::buffer_released(td), port::buffer_released(hcca), ];
            assert(port.log() =~= start + trace);
            port::lemma_grown(start, trace);
            assert(ohci_started(w, trace, model_of(result)));
        }
        return result;
    }
    port.write32(regs::OHCI_HC_HCCA, (hcca % 0x1_0000_0000) as u32);
    port.write32(regs::OHCI_HC_FM_INTERVAL, 0x5a_2edf);
    let mut eds = Pool::new(ED_COUNT);
    let control = eds.take();
    let ghost left = eds.free@;
    let bulk = eds.take();
    proof {
        assert(left =~= Seq::new(31, |i: int| i as usize));
        assert(eds.free@ =~= Seq::new(30, |i: int| i as usize));
        assert(!eds.is_free(31)) by {
            if eds.is_free(31) {
                let k = choose|k: int| 0 <= k < eds.free@.len() && eds.free@[k] == 31;
                assert(eds.free@[k] == k);
            }
        }
    }
    port.store32(address_of(ed, 31), 0);
    port.store32(address_of(ed, 30), 0);
    port.write32(regs::OHCI_HC_CONTROL, 0x480);
    let state = OhciState {
        ed_base: ed,
        td_base: td,
        hcca,
        eds,
        tds: Pool::new(TD_COUNT),
        cached: Vec::new(),
        control_ed: 31,
        bulk_ed: 30,
        control_next: 0,
        bulk_next: 0,
        low_speed: false,
    };
    let result: Result<OhciState, &'static str> = Ok(state);
    proof {
        let trace = reset + seq![
            port::w32(regs::OHCI_HC_HCCA, low32(hcca as int)),
            port::w32(regs::OHCI_HC_FM_INTERVAL, 0x5a_2edf),
            port::s32(at(ed, 31), 0),
            port::s32(at(ed, 30), 0),
            port::w32(regs::OHCI_HC_CONTROL, 0x480),
        ];
        assert(port.log() =~= start + trace);
        port::lemma_grown(start, trace);
        assert(state@.cached =~= Seq::empty());
        assert(ohci_started(w, trace, model_of(result)));
    }
    result
}

/// Whether a controller was opened so.
pub open spec fn ohci_opened<F: FnMut(Access) -> u64>(
    w: OhciStart,
    before: Seq<Exchange>,
    trace: Seq<Exchange>,
    result: Result<OhciHcd<F>, &'static str>,
) -> bool {
    match result {
        Ok(hcd) => hcd.port.log() == before + trace && ohci_started(w, trace, Ok(hcd.state@)),
        Err(error) => ohci_started(w, trace, Err(error)),
    }
}

impl<F: FnMut(Access) -> u64> OhciHcd<F> {
    /// Starts a controller.
    pub fn new(port: Port<F>) -> (result: Result<Self, &'static str>)
        requires
            port.wf(),
        ensures
            result matches Ok(hcd) ==> hcd.wf() && hcd.calls@ == Seq::<Call>::empty()
                && hcd.port.performs() == port.performs(),
            exists|w: OhciStart, trace: Seq<Exchange>| #[trigger]
                ohci_opened(w, port.log(), trace, result) && port::all_answered(
                    port.performs(),
                    trace,
                ),
    {
        let ghost start = port.log();
        let mut port = port;
        let started = start_host(&mut port);
        let ghost trace = port::since(port.log(), start);
        let ghost w = choose|w: OhciStart| #[trigger] ohci_started(w, trace, model_of(started));
        proof {
            port.growth_is_answered(start);
        }
        assert(ohci_started(w, trace, model_of(started)));
        let state: OhciState = match started {
            Ok(state) => state,
            Err(error) => {
                let result: Result<Self, &'static str> = Err(error);
                assert(ohci_opened(w, start, trace, result));
                return result;
            },
        };
        let hcd = OhciHcd { port, state, calls: Ghost(Seq::empty()) };
        let result: Result<Self, &'static str> = Ok(hcd);
        assert(ohci_opened(w, start, trace, result));
        result
    }
}

/// How a port was reset.
pub ghost struct OhciPortReset {
    pub poll: Seq<Exchange>,
    pub ended: Option<u64>,
    pub seen: u32,
    pub last: u32,
}

/// The register of a port.
pub open spec fn port_register(index: usize) -> usize {
    (regs::OHCI_HC_RH_PORT_STATUS + 4 * index) as usize
}

/// Whether a port was reset so.
pub open spec fn ohci_port_reset(
    w: OhciPortReset,
    index: usize,
    trace: Seq<Exchange>,
    result: Result<u8, &'static str>,
) -> bool {
    let reg = port_register(index);
    let waited = seq![port::w32(reg, regs::OHCI_PORT_PRS)] + w.poll + seq![
        port::r32(reg, w.seen),
    ];
    &&& ehci::paced(
        reg,
        ehci::all_clear(regs::OHCI_PORT_PRS as u64),
        RESET_TIMEOUT_LOOPS,
        1_000,
    ).done(w.poll, w.ended)
    &&& if w.seen / regs::OHCI_PORT_PRS % 2 == 1 {
        trace == waited && result == Err::<u8, &'static str>("OHCI port reset timeout")
    } else {
        &&& trace == waited + seq![
            port::w32(reg, regs::OHCI_PORT_PRSC),
            port::r32(reg, w.last),
        ]
        &&& result == Ok::<u8, &'static str>(
            if w.last / regs::OHCI_PORT_LSDA % 2 == 1 {
                regs::USB_SPEED_LOW
            } else {
                regs::USB_SPEED_FULL
            },
        )
    }
}

impl<F: FnMut(Access) -> u64> UsbHcd for OhciHcd<F> {
    open spec fn wf(&self) -> bool {
        self.port.wf() && self.state.wf()
    }

    open spec fn calls(&self) -> Seq<Call> {
        self.calls@
    }

    open spec fn ports(&self) -> usize {
        1
    }

    open spec fn label(&self) -> Seq<char> {
        "ohci"@
    }

    fn name(&self) -> (name: &'static str) {
        "ohci"
    }

    fn port_count(&self) -> (count: usize) {
        1
    }

    fn shutdown(&mut self) -> (result: Result<(), &'static str>)
        ensures
            final(self).port.performs() == old(self).port.performs(),
            result is Ok,
            final(self).state == old(self).state,
            final(self).port == old(self).port,
    {
        self.calls = Ghost(self.calls@.push(Call::Shutdown { shutdown_result: Ok(()) }));
        Ok(())
    }

    fn port_power_on(&mut self, port: usize) -> (result: Result<(), &'static str>)
        ensures
            final(self).port.performs() == old(self).port.performs(),
            result is Ok,
            final(self).state == old(self).state,
            final(self).port.log() == old(self).port.log().push(
                port::w32(regs::OHCI_HC_RH_STATUS, regs::OHCI_RHSTATUS_LPSC),
            ),
    {
        self.port.write32(regs::OHCI_HC_RH_STATUS, regs::OHCI_RHSTATUS_LPSC);
        self.calls = Ghost(self.calls@.push(Call::PowerOn { on_port: port, power_result: Ok(()) }));
        Ok(())
    }

    fn port_reset(&mut self, port: usize) -> (result: Result<u8, &'static str>)
        ensures
            final(self).port.performs() == old(self).port.performs(),
            final(self).state == (OhciState {
                low_speed: match result {
                    Ok(speed) => speed == regs::USB_SPEED_LOW,
                    Err(_) => old(self).state.low_speed,
                },
                ..old(self).state
            }),
            port::grown(final(self).port.log(), old(self).port.log()),
            exists|w: OhciPortReset| #[trigger]
                ohci_port_reset(
                    w,
                    port,
                    port::since(final(self).port.log(), old(self).port.log()),
                    result,
                ),
    {
        let ghost start = self.port.log();
        let ghost mut w: OhciPortReset = arbitrary();
        let reg: usize = regs::OHCI_HC_RH_PORT_STATUS + 4 * port;
        self.port.write32(reg, regs::OHCI_PORT_PRS);
        let ghost middle = self.port.log();
        let ended = self.port.poll(
            Poll {
                offset: reg,
                wide: false,
                test: PollTest::clear(regs::OHCI_PORT_PRS as u64),
                tries: RESET_TIMEOUT_LOOPS,
                pause_ns: Some(1_000),
            },
        );
        let ghost poll = port::since(self.port.log(), middle);
        let seen: u32 = self.port.read32(reg);
        let ghost waited = seq![port::w32(reg, regs::OHCI_PORT_PRS)] + poll + seq![
            port::r32(reg, seen),
        ];
        proof {
            w = OhciPortReset { poll, ended, seen, ..w };
            assert(self.port.log() =~= start + waited);
            port::lemma_grown(start, waited);
        }
        let mut result: Result<u8, &'static str> = Err("OHCI port reset timeout");
        let ghost mut trace = waited;
        if seen / regs::OHCI_PORT_PRS % 2 == 0 {
            self.port.write32(reg, regs::OHCI_PORT_PRSC);
            let last: u32 = self.port.read32(reg);
            result = if last / regs::OHCI_PORT_LSDA % 2 == 1 {
                Ok(regs::USB_SPEED_LOW)
            } else {
                Ok(regs::USB_SPEED_FULL)
            };
            self.state.low_speed = last / regs::OHCI_PORT_LSDA % 2 == 1;
            proof {
                w = OhciPortReset { last, ..w };
                trace = waited + seq![port::w32(reg, regs::OHCI_PORT_PRSC), port::r32(reg, last)];
                assert(self.port.log() =~= start + trace);
                port::lemma_grown(start, trace);
            }
        }
        assert(ohci_port_reset(w, port, trace, result));
        self.calls = Ghost(
            self.calls@.push(Call::Reset { reset_port: port, reset_result: result }),
        );
        assert(ohci_port_reset(
            w,
            port,
            port::since(self.port.log(), old(self).port.log()),
            result,
        ));
        result
    }

    fn port_connected(&mut self, port: usize) -> (connected: bool)
        ensures
            final(self).port.performs() == old(self).port.performs(),
            final(self).state == old(self).state,
            exists|status: u32|
                final(self).port.log() == old(self).port.log().push(
                    #[trigger] port::r32(port_register(port), status),
                ) && connected == (status % 2 == 1),
    {
        let status: u32 = self.port.read32(regs::OHCI_HC_RH_PORT_STATUS + 4 * port);
        let connected: bool = status % 2 == 1;
        assert(self.port.log() == old(self).port.log().push(
            port::r32(port_register(port), status),
        ));
        self.calls = Ghost(
            self.calls@.push(Call::Connected { seen_port: port, seen: connected }),
        );
        connected
    }

    fn control_transfer(
        &mut self,
        dev_addr: u8,
        setup: UsbSetup,
        data: &mut Vec<u8>,
        data_in: bool,
    ) -> (result: Result<usize, &'static str>)
        ensures
            final(self).port.performs() == old(self).port.performs(),
            port::grown(final(self).port.log(), old(self).port.log()),
            exists|w: OhciTransfer| #[trigger]
                ohci_control(
                    w,
                    old(self).state@,
                    final(self).state@,
                    dev_addr,
                    setup,
                    old(data)@,
                    data_in,
                    final(data)@,
                    port::since(final(self).port.log(), old(self).port.log()),
                    result,
                ),
    {
        let result = run_control(
            &mut self.port,
            &mut self.state,
            dev_addr,
            setup,
            data,
            data_in,
        );
        self.calls = Ghost(
            self.calls@.push(
                Call::Control {
                    address: dev_addr,
                    setup,
                    data: old(data)@,
                    data_in,
                    result,
                    after: data@,
                },
            ),
        );
        let ghost w = choose|w: OhciTransfer| #[trigger]
            ohci_control(
                w,
                old(self).state@,
                self.state@,
                dev_addr,
                setup,
                old(data)@,
                data_in,
                data@,
                port::since(self.port.log(), old(self).port.log()),
                result,
            );
        assert(ohci_control(
            w,
            old(self).state@,
            self.state@,
            dev_addr,
            setup,
            old(data)@,
            data_in,
            data@,
            port::since(self.port.log(), old(self).port.log()),
            result,
        ));
        result
    }

    fn bulk_transfer(&mut self, dev_addr: u8, ep: u8, data: &mut Vec<u8>, data_in: bool) -> (result:
        Result<usize, &'static str>)
        ensures
            final(self).port.performs() == old(self).port.performs(),
            port::grown(final(self).port.log(), old(self).port.log()),
            exists|w: OhciTransfer| #[trigger]
                ohci_bulk(
                    w,
                    old(self).state@,
                    final(self).state@,
                    dev_addr,
                    ep,
                    old(data)@,
                    data_in,
                    final(data)@,
                    port::since(final(self).port.log(), old(self).port.log()),
                    result,
                ),
    {
        let result = run_bulk(&mut self.port, &mut self.state, dev_addr, ep, data, data_in);
        self.calls = Ghost(
            self.calls@.push(
                Call::Bulk {
                    bulk_address: dev_addr,
                    bulk_ep: ep,
                    bulk_data: old(data)@,
                    bulk_in: data_in,
                    bulk_result: result,
                    bulk_after: data@,
                },
            ),
        );
        let ghost w = choose|w: OhciTransfer| #[trigger]
            ohci_bulk(
                w,
                old(self).state@,
                self.state@,
                dev_addr,
                ep,
                old(data)@,
                data_in,
                data@,
                port::since(self.port.log(), old(self).port.log()),
                result,
            );
        assert(ohci_bulk(
            w,
            old(self).state@,
            self.state@,
            dev_addr,
            ep,
            old(data)@,
            data_in,
            data@,
            port::since(self.port.log(), old(self).port.log()),
            result,
        ));
        result
    }

    fn interrupt_transfer(
        &mut self,
        dev_addr: u8,
        ep: u8,
        data: &mut Vec<u8>,
        data_in: bool,
    ) -> (result: Result<usize, &'static str>)
        ensures
            final(self).port.performs() == old(self).port.performs(),
            port::grown(final(self).port.log(), old(self).port.log()),
            exists|w: OhciTransfer| #[trigger]
                ohci_bulk(
                    w,
                    old(self).state@,
                    final(self).state@,
                    dev_addr,
                    ep,
                    old(data)@,
                    data_in,
                    final(data)@,
                    port::since(final(self).port.log(), old(self).port.log()),
                    result,
                ),
    {
        let result = run_bulk(&mut self.port, &mut self.state, dev_addr, ep, data, data_in);
        self.calls = Ghost(
            self.calls@.push(
                Call::Interrupt {
                    int_address: dev_addr,
                    int_ep: ep,
                    int_data: old(data)@,
                    int_in: data_in,
                    int_result: result,
                    int_after: data@,
                },
            ),
        );
        let ghost w = choose|w: OhciTransfer| #[trigger]
            ohci_bulk(
                w,
                old(self).state@,
                self.state@,
                dev_addr,
                ep,
                old(data)@,
                data_in,
                data@,
                port::since(self.port.log(), old(self).port.log()),
                result,
            );
        assert(ohci_bulk(
            w,
            old(self).state@,
            self.state@,
            dev_addr,
            ep,
            old(data)@,
            data_in,
            data@,
            port::since(self.port.log(), old(self).port.log()),
            result,
        ));
        result
    }

    fn wait(&mut self, duration_ns: u64)
        ensures
            final(self).port.performs() == old(self).port.performs(),
            final(self).state == old(self).state,
            final(self).port.log() == old(self).port.log().push(port::wait(duration_ns)),
    {
        self.port.delay(duration_ns);
        self.calls = Ghost(self.calls@.push(Call::Wait { duration_ns }));
    }
}

} // verus!
