//! The high-speed host controller as the bus sees it.

use vstd::prelude::*;
use crate::bytes::push_range;
use crate::port;
use crate::port::{Access, Exchange, NO_PAGE, Port};
use crate::usb::bus::{Call, UsbHcd};
use crate::usb::ehci;
use crate::usb::ehci::{
    HaltRun, PortResetRun, ResetRun, ScheduleRun, StartFailure, halt_controller, hc_reset,
    port_has_device, power_port, reset_port, start_async, validate_dma_region,
};
use crate::usb::pool::Pool;
use crate::usb::regs;
use crate::usb::regs::UsbSetup;
use crate::usb::ring;
use crate::usb::ring::{QH_COUNT, QhRing};
use crate::usb::transaction;
use crate::usb::transaction::TransferRun;
use crate::usb::transfer;
use crate::usb::transfer::{
    EhciState, PieceRun, QTD_COUNT, Request, Schedule, TransferDma,
};

verus! {

pub const FRAME_LIST_SIZE: usize = 1024;

/// How much of the data of a bulk transfer one part of it takes.
pub const BULK_CHUNK: usize = 16384;

/// A high-speed host controller.
pub struct EhciHcd<F> {
    pub port: Port<F>,
    pub state: EhciState,
    pub calls: Ghost<Seq<Call>>,
}

/// How a controller was started.
pub ghost struct StartRun {
    pub params: u32,
    pub frame: u64,
    pub qh: u64,
    pub qtd: u64,
    pub reset: ResetRun,
    pub reset_trace: Seq<Exchange>,
    pub reset_result: Result<(), &'static str>,
    pub start: ScheduleRun,
    pub start_trace: Seq<Exchange>,
    pub start_result: Result<(), StartFailure>,
    pub start_faulted: bool,
}

/// Why memory that a controller was given cannot be used.
pub open spec fn memory_error(frame: u64, qh: u64, qtd: u64) -> Option<&'static str> {
    match ehci::region_error(frame as int, 4096, 4096) {
        Some(error) => Some(error),
        None => match ehci::region_error(qh as int, 2048, 32) {
            Some(error) => Some(error),
            None => ehci::region_error(qtd as int, 4096, 32),
        },
    }
}

/// The accesses by which the fixed head and the list of frames are filled in and the
/// controller is told of them.
pub open spec fn set_up(op: usize, frame: u64, qh: u64) -> Seq<Exchange> {
    let head = ring::qh_at(qh as u32, QH_COUNT - 1);
    seq![
        port::s32((head + 4) as usize, regs::QH_HEAD),
        port::s32(head as usize, ring::link_of(qh as u32, QH_COUNT - 1)),
        port::s32((head + 16) as usize, regs::QTD_TERMINATE),
        port::s32((head + 20) as usize, regs::QTD_TERMINATE),
        port::s32((head + 24) as usize, regs::QTD_STS_HALT),
        port::flushed(qh as usize),
        port::w32((op + regs::EHCI_ASYNCLISTADDR) as usize, head),
    ] + port::words_stored(
        frame as int,
        Seq::new(FRAME_LIST_SIZE as nat, |i: int| regs::QH_NEXT_TERMINATE),
    ) + seq![
        port::flushed(frame as usize),
        port::w32((op + regs::EHCI_PERIODICLISTBASE) as usize, frame as u32),
        port::w32((op + regs::EHCI_CTRLDSSEGMENT) as usize, 0),
        port::w32((op + regs::EHCI_USBSTS) as usize, regs::EHCI_STS_W1C_MASK),
        port::w32((op + regs::EHCI_USBINTR) as usize, 0),
        port::w32((op + regs::EHCI_USBCMD) as usize, 0x8_0001),
        port::w32((op + regs::EHCI_CONFIGFLAG) as usize, 1),
    ]
}

/// The schedule of a controller that was just started.
pub open spec fn first_schedule(op: usize, params: u32, frame: u64, qh: u64, qtd: u64) -> Schedule {
    Schedule {
        op,
        ports: (params % 16) as usize,
        frame_list: frame,
        qh_base: qh as u32,
        qtd_base: qtd as u32,
        head: (QH_COUNT - 1) as usize,
        qhs: Seq::new((QH_COUNT - 1) as nat, |i: int| i as usize),
        qtds: Seq::new(QTD_COUNT as nat, |i: int| i as usize),
        cached: Seq::empty(),
        linked: Seq::empty(),
        faulted: false,
    }
}

/// Whether a controller was started so. If that fails its memory is given back, but
/// not while the controller may still use it.
pub open spec fn controller_started(
    w: StartRun,
    op: usize,
    trace: Seq<Exchange>,
    result: Result<Schedule, &'static str>,
) -> bool {
    let first = seq![
        port::r32(regs::EHCI_HCSPARAMS, w.params),
        port::buffer_allocated(4096, 4096, w.frame),
    ];
    let second = first.push(port::buffer_allocated(2048, 64, w.qh));
    let third = second.push(port::buffer_allocated(4096, 64, w.qtd));
    let back = seq![
        port::buffer_released(w.frame),
        port::buffer_released(w.qh),
        port::buffer_released(w.qtd),
    ];
    if w.frame == NO_PAGE {
        trace == first && result == Err::<Schedule, &'static str>("EHCI DMA buffer is unavailable")
    } else if w.qh == NO_PAGE {
        &&& trace == second.push(port::buffer_released(w.frame))
        &&& result == Err::<Schedule, &'static str>("EHCI DMA buffer is unavailable")
    } else if w.qtd == NO_PAGE {
        &&& trace == third + seq![port::buffer_released(w.frame), port::buffer_released(w.qh)]
        &&& result == Err::<Schedule, &'static str>("EHCI DMA buffer is unavailable")
    } else if memory_error(w.frame, w.qh, w.qtd) is Some {
        &&& trace == third + back
        &&& result == Err::<Schedule, &'static str>(memory_error(w.frame, w.qh, w.qtd)->0)
    } else {
        &&& ehci::was_reset(w.reset, op, w.reset_trace, w.reset_result)
        &&& match w.reset_result {
            Err(error) => {
                &&& trace == third + w.reset_trace + back
                &&& result == Err::<Schedule, &'static str>(error)
            },
            Ok(_) => {
                let running = third + w.reset_trace + set_up(op, w.frame, w.qh) + w.start_trace;
                &&& ehci::schedule_started(
                    w.start,
                    op,
                    false,
                    w.start_trace,
                    w.start_result,
                    w.start_faulted,
                )
                &&& match w.start_result {
                    Err(failure) => {
                        &&& trace == if failure.halted {
                            running + back
                        } else {
                            running
                        }
                        &&& result == Err::<Schedule, &'static str>(failure.error)
                    },
                    Ok(_) => {
                        &&& trace == running
                        &&& result == Ok::<Schedule, &'static str>(
                            first_schedule(op, w.params, w.frame, w.qh, w.qtd),
                        )
                    },
                }
            },
        }
    }
}

/// The schedule that a start gave.
pub open spec fn schedule_of(result: Result<EhciState, &'static str>) -> Result<
    Schedule,
    &'static str,
> {
    match result {
        Ok(state) => Ok(state@),
        Err(error) => Err(error),
    }
}

/// Why memory that a controller was given cannot be used.
fn check_memory(frame: u64, qh: u64, qtd: u64) -> (result: Option<&'static str>)
    ensures
        result == memory_error(frame, qh, qtd),
{
    match validate_dma_region(frame, 4096, 4096) {
        Ok(_) => {},
        Err(error) => {
            return Some(error);
        },
    }
    match validate_dma_region(qh, 2048, 32) {
        Ok(_) => {},
        Err(error) => {
            return Some(error);
        },
    }
    match validate_dma_region(qtd, 4096, 32) {
        Ok(_) => None,
        Err(error) => Some(error),
    }
}

/// Fills the fixed head and the list of frames in.
fn write_set_up<F: FnMut(Access) -> u64>(
    port: &mut Port<F>,
    op: usize,
    frame: u64,
    qh: u64,
    list: &QhRing,
)
    requires
        old(port).wf(),
        op <= 0xff,
        list.wf(),
        list.base == qh as u32,
        list.head == QH_COUNT - 1,
        list.list@ == Seq::<usize>::empty(),
        frame <= u32::MAX,
        qh <= u32::MAX,
    ensures
        final(port).wf(),
        final(port).performs() == old(port).performs(),
        final(port).log() == old(port).log() + set_up(op, frame, qh),
{
    let ghost start = port.log();
    let head: u32 = list.qh_dma(list.head);
    assert(ring::node(list.head as int, list.list@, 0) == list.head);
    let link: u32 = list.links[list.head];
    port.store32((head + 4) as usize, regs::QH_HEAD);
    port.store32(head as usize, link);
    port.store32((head + 16) as usize, regs::QTD_TERMINATE);
    port.store32((head + 20) as usize, regs::QTD_TERMINATE);
    port.store32((head + 24) as usize, regs::QTD_STS_HALT);
    port.flush(qh as usize);
    port.write32(op + regs::EHCI_ASYNCLISTADDR, head);
    let mut frames: Vec<u32> = Vec::new();
    let mut i: usize = 0;
    while i < FRAME_LIST_SIZE
        invariant
            i <= FRAME_LIST_SIZE,
            frames@ == Seq::new(i as nat, |k: int| regs::QH_NEXT_TERMINATE),
        decreases FRAME_LIST_SIZE - i,
    {
        frames.push(regs::QH_NEXT_TERMINATE);
        i += 1;
        assert(frames@ =~= Seq::new(i as nat, |k: int| regs::QH_NEXT_TERMINATE));
    }
    port.store_words(frame, frames.as_slice());
    port.flush(frame as usize);
    port.write32(op + regs::EHCI_PERIODICLISTBASE, frame as u32);
    port.write32(op + regs::EHCI_CTRLDSSEGMENT, 0);
    port.write32(op + regs::EHCI_USBSTS, regs::EHCI_STS_W1C_MASK);
    port.write32(op + regs::EHCI_USBINTR, 0);
    port.write32(op + regs::EHCI_USBCMD, 0x8_0001);
    port.write32(op + regs::EHCI_CONFIGFLAG, 1);
    assert(frames@ =~= Seq::new(FRAME_LIST_SIZE as nat, |i: int| regs::QH_NEXT_TERMINATE));
    assert(port.log() =~= start + set_up(op, frame, qh));
}

/// Gives the memory of a controller back.
fn release_memory<F: FnMut(Access) -> u64>(port: &mut Port<F>, frame: u64, qh: u64, qtd: u64)
    requires
        old(port).wf(),
    ensures
        final(port).wf(),
        final(port).performs() == old(port).performs(),
        final(port).log() == old(port).log() + seq![
            port::buffer_released(frame),
            port::buffer_released(qh),
            port::buffer_released(qtd),
        ],
{
    let ghost start = port.log();
    port.release_buffer(frame);
    port.release_buffer(qh);
    port.release_buffer(qtd);
    assert(port.log() =~= start + seq![
        port::buffer_released(frame),
        port::buffer_released(qh),
        port::buffer_released(qtd),
    ]);
}

/// Starts a controller and gives its schedule.
#[verifier::rlimit(40)]
pub fn start_controller<F: FnMut(Access) -> u64>(port: &mut Port<F>, op: usize) -> (result: Result<
    EhciState,
    &'static str,
>)
    requires
        old(port).wf(),
        op <= 0xff,
    ensures
        final(port).wf(),
        final(port).performs() == old(port).performs(),
        port::grown(final(port).log(), old(port).log()),
        exists|w: StartRun| #[trigger]
            controller_started(
                w,
                op,
                port::since(final(port).log(), old(port).log()),
                schedule_of(result),
            ),
        result matches Ok(state) ==> state.wf(),
{
    let ghost start = port.log();
    let ghost mut w: StartRun = arbitrary();
    let params: u32 = port.read32(regs::EHCI_HCSPARAMS);
    let frame: u64 = port.allocate_buffer(4096, 4096);
    let ghost first = seq![
        port::r32(regs::EHCI_HCSPARAMS, params),
        port::buffer_allocated(4096, 4096, frame),
    ];
    proof {
        w = StartRun { params, frame, ..w };
        assert(port.log() =~= start + first);
        port::lemma_grown(start, first);
    }
    if frame == NO_PAGE {
        assert(controller_started(w, op, first, schedule_of(Err("EHCI DMA buffer is unavailable"))));
        return Err("EHCI DMA buffer is unavailable");
    }
    let qh: u64 = port.allocate_buffer(2048, 64);
    let ghost second = first.push(port::buffer_allocated(2048, 64, qh));
    proof {
        w = StartRun { qh, ..w };
    }
    if qh == NO_PAGE {
        port.release_buffer(frame);
        proof {
            let trace = second.push(port::buffer_released(frame));
            assert(port.log() =~= start + trace);
            port::lemma_grown(start, trace);
            assert(controller_started(w, op, trace, schedule_of(Err("EHCI DMA buffer is unavailable"))));
        }
        return Err("EHCI DMA buffer is unavailable");
    }
    let qtd: u64 = port.allocate_buffer(4096, 64);
    let ghost third = second.push(port::buffer_allocated(4096, 64, qtd));
    let ghost back = seq![
        port::buffer_released(frame),
        port::buffer_released(qh),
        port::buffer_released(qtd),
    ];
    proof {
        w = StartRun { qtd, ..w };
        assert(port.log() =~= start + third);
    }
    if qtd == NO_PAGE {
        port.release_buffer(frame);
        port.release_buffer(qh);
        proof {
            let trace = third + seq![port::buffer_released(frame), port::buffer_released(qh)];
            assert(port.log() =~= start + trace);
            port::lemma_grown(start, trace);
            assert(controller_started(w, op, trace, schedule_of(Err("EHCI DMA buffer is unavailable"))));
        }
        return Err("EHCI DMA buffer is unavailable");
    }
    if let Some(error) = check_memory(frame, qh, qtd) {
        release_memory(port, frame, qh, qtd);
        proof {
            assert(port.log() =~= start + (third + back));
            port::lemma_grown(start, third + back);
            assert(controller_started(w, op, third + back, schedule_of(Err(error))));
        }
        return Err(error);
    }
    let ghost before_reset = port.log();
    let reset_result = hc_reset(port, op);
    let ghost reset_trace = port::since(port.log(), before_reset);
    proof {
        let reset = choose|reset: ResetRun| #[trigger]
            ehci::was_reset(reset, op, reset_trace, reset_result);
        w = StartRun { reset, reset_trace, reset_result, ..w };
        assert(port.log() =~= start + (third + reset_trace));
    }
    if let Err(error) = reset_result {
        release_memory(port, frame, qh, qtd);
        proof {
            let trace = third + reset_trace + back;
            assert(port.log() =~= start + trace);
            port::lemma_grown(start, trace);
            assert(controller_started(w, op, trace, schedule_of(Err(error))));
        }
        return Err(error);
    }
    let mut qhs = Pool::new(QH_COUNT);
    let head: usize = match qhs.take() {
        Some(head) => head,
        None => {
            assert(false);
            0
        },
    };
    let list = QhRing::new(qh as u32, head);
    write_set_up(port, op, frame, qh, &list);
    let ghost before_start = port.log();
    let mut faulted: bool = false;
    let start_result = start_async(port, op, &mut faulted);
    let ghost start_trace = port::since(port.log(), before_start);
    let ghost running = third + reset_trace + set_up(op, frame, qh) + start_trace;
    proof {
        let begun = choose|begun: ScheduleRun| #[trigger]
            ehci::schedule_started(begun, op, false, start_trace, start_result, faulted);
        w = StartRun { start: begun, start_trace, start_result, start_faulted: faulted, ..w };
        assert(port.log() =~= start + running);
        port::lemma_grown(start, running);
    }
    if let Err(failure) = start_result {
        if failure.halted {
            release_memory(port, frame, qh, qtd);
        }
        proof {
            let trace = if failure.halted {
                running + back
            } else {
                running
            };
            assert(port.log() =~= start + trace);
            port::lemma_grown(start, trace);
            assert(controller_started(w, op, trace, schedule_of(Err(failure.error))));
        }
        return Err(failure.error);
    }
    let state = EhciState {
        op,
        ports: (params % 16) as usize,
        frame_list: frame,
        qtd_base: qtd as u32,
        ring: list,
        qhs,
        qtds: Pool::new(QTD_COUNT),
        cached: Vec::new(),
        faulted,
    };
    proof {
        assert(state@.qhs =~= first_schedule(op, params, frame, qh, qtd).qhs);
        assert(state@.cached =~= Seq::<transfer::CachedQh>::empty());
        assert(state@ == first_schedule(op, params, frame, qh, qtd));
        assert(controller_started(w, op, running, schedule_of(Ok(state))));
    }
    Ok(state)
}

/// Whether a controller was opened so.
pub open spec fn opened<F: FnMut(Access) -> u64>(
    w: StartRun,
    op: usize,
    before: Seq<Exchange>,
    trace: Seq<Exchange>,
    result: Result<EhciHcd<F>, &'static str>,
) -> bool {
    match result {
        Ok(hcd) => {
            &&& hcd.port.log() == before + trace
            &&& controller_started(w, op, trace, Ok(hcd.state@))
        },
        Err(error) => controller_started(w, op, trace, Err(error)),
    }
}

impl<F: FnMut(Access) -> u64> EhciHcd<F> {
    /// Starts a controller whose registers of operation begin at `op`.
    pub fn new(port: Port<F>, op: usize) -> (result: Result<Self, &'static str>)
        requires
            port.wf(),
            op <= 0xff,
        ensures
            result matches Ok(hcd) ==> hcd.wf() && hcd.calls@ == Seq::<Call>::empty()
                && hcd.port.performs() == port.performs(),
            exists|w: StartRun, trace: Seq<Exchange>| #[trigger]
                opened(w, op, port.log(), trace, result) && port::all_answered(
                    port.performs(),
                    trace,
                ),
    {
        let ghost start = port.log();
        let mut port = port;
        let started = start_controller(&mut port, op);
        let ghost trace = port::since(port.log(), start);
        let ghost w = choose|w: StartRun| #[trigger]
            controller_started(w, op, trace, schedule_of(started));
        assert(controller_started(w, op, trace, schedule_of(started)));
        proof {
            port.growth_is_answered(start);
        }
        let state: EhciState = match started {
            Ok(state) => state,
            Err(error) => {
                let result: Result<Self, &'static str> = Err(error);
                assert(opened(w, op, start, trace, result));
                return result;
            },
        };
        let hcd = EhciHcd { port, state, calls: Ghost(Seq::empty()) };
        let result: Result<Self, &'static str> = Ok(hcd);
        assert(opened(w, op, start, trace, result));
        result
    }
}

/// How a request was made.
pub ghost struct ControlRun {
    pub setup: PieceRun,
    pub setup_trace: Seq<Exchange>,
    pub setup_result: Result<(usize, TransferDma), &'static str>,
    pub first: Schedule,
    pub data: PieceRun,
    pub data_trace: Seq<Exchange>,
    pub data_result: Result<(usize, TransferDma), &'static str>,
    pub second: Schedule,
    pub status_trace: Seq<Exchange>,
    pub status_result: Result<usize, &'static str>,
    pub third: Schedule,
    pub transfer: TransferRun,
    pub transfer_trace: Seq<Exchange>,
}

/// The direction of data.
pub open spec fn data_pid(data_in: bool) -> u32 {
    if data_in {
        regs::QTD_PID_IN
    } else {
        regs::QTD_PID_OUT
    }
}

/// The direction in which a request is confirmed: against that of its data, and in
/// without data.
pub open spec fn status_pid(empty: bool, data_in: bool) -> u32 {
    if empty || !data_in {
        regs::QTD_PID_IN
    } else {
        regs::QTD_PID_OUT
    }
}

/// Whether a transfer was refused by a faulted controller.
pub open spec fn refused(
    before: Schedule,
    after: Schedule,
    data: Seq<u8>,
    data_after: Seq<u8>,
    trace: Seq<Exchange>,
    result: Result<usize, &'static str>,
) -> bool {
    &&& after == before
    &&& data_after == data
    &&& trace == Seq::<Exchange>::empty()
    &&& result == Err::<usize, &'static str>("EHCI controller is faulted")
}

/// The transfers and mapped payloads of a request.
pub open spec fn control_qtds(w: ControlRun, empty: bool) -> Seq<usize> {
    if empty {
        seq![w.setup_result->Ok_0.0, w.status_result->Ok_0]
    } else {
        seq![w.setup_result->Ok_0.0, w.data_result->Ok_0.0, w.status_result->Ok_0]
    }
}

pub open spec fn control_maps(w: ControlRun, empty: bool) -> Seq<TransferDma> {
    if empty {
        seq![w.setup_result->Ok_0.1]
    } else {
        seq![w.setup_result->Ok_0.1, w.data_result->Ok_0.1]
    }
}

/// Whether a request was made so: the request itself, its data if there is any, and
/// its confirmation, one after the other.
pub open spec fn control_done(
    w: ControlRun,
    before: Schedule,
    after: Schedule,
    address: u8,
    setup: UsbSetup,
    data: Seq<u8>,
    data_in: bool,
    data_after: Seq<u8>,
    trace: Seq<Exchange>,
    result: Result<usize, &'static str>,
) -> bool {
    let empty = data.len() == 0;
    if before.faulted {
        refused(before, after, data, data_after, trace, result)
    } else {
        &&& transfer::piece_built(
            w.setup,
            before,
            w.first,
            setup.bytes(),
            0,
            false,
            regs::QTD_PID_SETUP,
            false,
            false,
            w.setup_trace,
            w.setup_result,
        )
        &&& if w.setup_result is Err {
            &&& after == w.first
            &&& data_after == data
            &&& trace == w.setup_trace
            &&& result == Err::<usize, &'static str>(w.setup_result->Err_0)
        } else {
            &&& if empty {
                w.second == w.first && w.data_trace == Seq::<Exchange>::empty()
            } else {
                transfer::piece_built(
                    w.data,
                    w.first,
                    w.second,
                    data,
                    0,
                    data_in,
                    data_pid(data_in),
                    true,
                    false,
                    w.data_trace,
                    w.data_result,
                )
            }
            &&& if !empty && w.data_result is Err {
                &&& after == w.second
                &&& data_after == data
                &&& trace == w.setup_trace + w.data_trace + transaction::maps_released(
                    control_maps(w, true),
                )
                &&& result == Err::<usize, &'static str>(w.data_result->Err_0)
            } else {
                &&& transfer::qtd_built(
                    w.second,
                    w.third,
                    None,
                    0,
                    status_pid(empty, data_in),
                    true,
                    true,
                    w.status_trace,
                    w.status_result,
                )
                &&& if w.status_result is Err {
                    &&& after == w.third
                    &&& data_after == data
                    &&& trace == w.setup_trace + w.data_trace + w.status_trace
                        + transaction::maps_released(control_maps(w, empty))
                    &&& result == Err::<usize, &'static str>(w.status_result->Err_0)
                } else {
                    &&& transaction::transferred(
                        w.transfer,
                        w.third,
                        after,
                        Request { address, ep: 0, data_in, control: true },
                        control_qtds(w, empty),
                        control_maps(w, empty),
                        if empty {
                            w.status_result->Ok_0
                        } else {
                            w.data_result->Ok_0.0
                        },
                        data,
                        data_after,
                        w.transfer_trace,
                        result,
                    )
                    &&& trace == w.setup_trace + w.data_trace + w.status_trace + w.transfer_trace
                }
            }
        }
    }
}

proof fn lemma_one_more(before: EhciState, after: EhciState, qtds: Seq<usize>, index: usize)
    requires
        before.sound(),
        before.loose_qtds(qtds),
        before.qtds.free@.len() > 0,
        index == before.qtds.free@.last(),
        after.qtds.free@ == before.qtds.free@.drop_last(),
        index < QTD_COUNT,
        !after.qtds.is_free(index),
    ensures
        after.loose_qtds(qtds.push(index)),
{
    let more = qtds.push(index);
    let free = before.qtds.free@;
    assert(free[free.len() - 1] == index);
    assert(before.qtds.is_free(index));
    assert forall|i: int| 0 <= i < more.len() implies (#[trigger] more[i]) < QTD_COUNT
        && !after.qtds.is_free(more[i]) by {
        if i < qtds.len() {
            assert(more[i] == qtds[i]);
            if after.qtds.is_free(qtds[i]) {
                let k = choose|k: int|
                    0 <= k < after.qtds.free@.len() && after.qtds.free@[k] == qtds[i];
                assert(free[k] == qtds[i]);
                assert(before.qtds.is_free(qtds[i]));
            }
        }
    }
    assert forall|i: int, j: int| 0 <= i < more.len() && 0 <= j < more.len() && i != j implies more[i]
        != more[j] by {
        if i < qtds.len() {
            assert(more[i] == qtds[i]);
        }
        if j < qtds.len() {
            assert(more[j] == qtds[j]);
        }
    }
}

/// Gives mapped payloads back.
fn release_maps<F: FnMut(Access) -> u64>(port: &mut Port<F>, maps: &Vec<TransferDma>)
    requires
        old(port).wf(),
    ensures
        final(port).wf(),
        final(port).performs() == old(port).performs(),
        final(port).log() == old(port).log() + transaction::maps_released(maps@),
{
    let ghost start = port.log();
    let mut k: usize = 0;
    assert(start + transaction::maps_released(maps@.take(0)) =~= start);
    while k < maps.len()
        invariant
            k <= maps@.len(),
            port.wf(),
            port.performs() == old(port).performs(),
            port.log() == start + transaction::maps_released(maps@.take(k as int)),
        decreases maps@.len() - k,
    {
        port.release_buffer(maps[k].dma);
        assert(port.log() =~= start + transaction::maps_released(maps@.take(k + 1)));
        k += 1;
    }
    assert(maps@.take(k as int) =~= maps@);
}

/// Makes a request.
#[verifier::rlimit(40)]
fn run_control<F: FnMut(Access) -> u64>(
    port: &mut Port<F>,
    state: &mut EhciState,
    address: u8,
    setup: UsbSetup,
    data: &mut Vec<u8>,
    data_in: bool,
) -> (result: Result<usize, &'static str>)
    requires
        old(port).wf(),
        old(state).wf(),
    ensures
        final(state).ports == old(state).ports,
        final(port).wf(),
        final(port).performs() == old(port).performs(),
        final(state).wf(),
        final(data)@.len() == old(data)@.len(),
        port::grown(final(port).log(), old(port).log()),
        exists|w: ControlRun| #[trigger]
            control_done(
                w,
                old(state)@,
                final(state)@,
                address,
                setup,
                old(data)@,
                data_in,
                final(data)@,
                port::since(final(port).log(), old(port).log()),
                result,
            ),
{
    let ghost start = port.log();
    let ghost before = state@;
    let ghost given = data@;
    let ghost mut w: ControlRun = arbitrary();
    if state.faulted {
        proof {
            assert(start + Seq::<Exchange>::empty() =~= start);
            port::lemma_grown(start, Seq::empty());
            assert(control_done(
                w,
                before,
                state@,
                address,
                setup,
                given,
                data_in,
                data@,
                Seq::empty(),
                Err("EHCI controller is faulted"),
            ));
        }
        return Err("EHCI controller is faulted");
    }
    let mut qtds: Vec<usize> = Vec::new();
    let mut maps: Vec<TransferDma> = Vec::new();
    let bytes = setup.to_bytes();
    let ghost state0 = *state;
    let setup_result = state.build_mapped_qtd(
        port,
        &bytes,
        0,
        false,
        regs::QTD_PID_SETUP,
        false,
        false,
    );
    let ghost setup_trace = port::since(port.log(), start);
    proof {
        let run = choose|run: PieceRun| #[trigger]
            transfer::piece_built(
                run,
                before,
                state@,
                setup.bytes(),
                0,
                false,
                regs::QTD_PID_SETUP,
                false,
                false,
                setup_trace,
                setup_result,
            );
        w = ControlRun { setup: run, setup_trace, setup_result, first: state@, ..w };
    }
    match setup_result {
        Ok(piece) => {
            qtds.push(piece.0);
            maps.push(piece.1);
            proof {
                lemma_one_more(state0, *state, Seq::empty(), piece.0);
                assert(qtds@ =~= Seq::empty().push(piece.0));
                assert(maps@ =~= control_maps(w, true));
            }
        },
        Err(error) => {
            assert(control_done(
                w,
                before,
                state@,
                address,
                setup,
                given,
                data_in,
                data@,
                setup_trace,
                Err(error),
            ));
            return Err(error);
        },
    }
    let ghost empty = given.len() == 0;
    let mut data_qtd: Option<usize> = None;
    let ghost before_data = port.log();
    let ghost state1 = *state;
    if data.len() != 0 {
        let pid: u32 = if data_in {
            regs::QTD_PID_IN
        } else {
            regs::QTD_PID_OUT
        };
        let data_result = state.build_mapped_qtd(port, data, 0, data_in, pid, true, false);
        let ghost data_trace = port::since(port.log(), before_data);
        proof {
            let run = choose|run: PieceRun| #[trigger]
                transfer::piece_built(
                    run,
                    w.first,
                    state@,
                    given,
                    0,
                    data_in,
                    pid,
                    true,
                    false,
                    data_trace,
                    data_result,
                );
            w = ControlRun { data: run, data_trace, data_result, second: state@, ..w };
        }
        match data_result {
            Ok(piece) => {
                qtds.push(piece.0);
                maps.push(piece.1);
                data_qtd = Some(piece.0);
                proof {
                    lemma_one_more(state1, *state, seq![w.setup_result->Ok_0.0], piece.0);
                    assert(qtds@ =~= seq![w.setup_result->Ok_0.0].push(piece.0));
                    assert(maps@ =~= control_maps(w, false));
                }
            },
            Err(error) => {
                release_maps(port, &maps);
                proof {
                    let trace = setup_trace + data_trace + transaction::maps_released(maps@);
                    assert(port.log() =~= start + trace);
                    port::lemma_grown(start, trace);
                    assert(control_done(
                        w,
                        before,
                        state@,
                        address,
                        setup,
                        given,
                        data_in,
                        data@,
                        trace,
                        Err(error),
                    ));
                }
                return Err(error);
            },
        }
    } else {
        proof {
            w = ControlRun { second: state@, data_trace: Seq::empty(), ..w };
        }
    }
    let pid: u32 = if data.len() == 0 || !data_in {
        regs::QTD_PID_IN
    } else {
        regs::QTD_PID_OUT
    };
    let ghost before_status = port.log();
    let ghost state2 = *state;
    let ghost qtds2 = qtds@;
    assert(before_status =~= start + (setup_trace + w.data_trace));
    let status_result = state.build_qtd(port, None, 0, pid, true, true);
    let ghost status_trace = port::since(port.log(), before_status);
    let ghost built = setup_trace + w.data_trace + status_trace;
    proof {
        w = ControlRun { status_trace, status_result, third: state@, ..w };
        assert(port.log() =~= start + built);
        assert(maps@ =~= control_maps(w, empty));
    }
    let status: usize = match status_result {
        Ok(index) => index,
        Err(error) => {
            release_maps(port, &maps);
            proof {
                let trace = built + transaction::maps_released(maps@);
                assert(port.log() =~= start + trace);
                port::lemma_grown(start, trace);
                assert(control_done(
                    w,
                    before,
                    state@,
                    address,
                    setup,
                    given,
                    data_in,
                    data@,
                    trace,
                    Err(error),
                ));
            }
            return Err(error);
        },
    };
    qtds.push(status);
    proof {
        lemma_one_more(state2, *state, qtds2, status);
        assert(qtds@ =~= control_qtds(w, empty));
    }
    let last: usize = match data_qtd {
        Some(index) => index,
        None => status,
    };
    let request = Request { address, ep: 0, data_in, control: true };
    let ghost before_transfer = port.log();
    let result = state.run_transfer(port, request, &qtds, &maps, last, data);
    proof {
        let transfer_trace = port::since(port.log(), before_transfer);
        let run = choose|run: TransferRun| #[trigger]
            transaction::transferred(
                run,
                w.third,
                state@,
                request,
                qtds@,
                maps@,
                last,
                given,
                data@,
                transfer_trace,
                result,
            );
        w = ControlRun { transfer: run, transfer_trace, ..w };
        let trace = built + transfer_trace;
        assert(port.log() =~= start + trace);
        port::lemma_grown(start, trace);
        assert(control_done(
            w,
            before,
            state@,
            address,
            setup,
            given,
            data_in,
            data@,
            trace,
            result,
        ));
    }
    result
}

/// A part of the data of a bulk transfer.
pub open spec fn chunk_of(data: Seq<u8>, i: int) -> Seq<u8> {
    let from = BULK_CHUNK * i;
    let to = if from + BULK_CHUNK < data.len() {
        from + BULK_CHUNK
    } else {
        data.len() as int
    };
    data.subrange(from, to)
}

/// How many parts a bulk transfer has.
pub open spec fn chunk_count(len: int) -> int {
    (len + BULK_CHUNK - 1) / (BULK_CHUNK as int)
}

/// All accesses one after the other.
pub open spec fn joined(traces: Seq<Seq<Exchange>>) -> Seq<Exchange>
    decreases traces.len(),
{
    if traces.len() == 0 {
        Seq::empty()
    } else {
        joined(traces.drop_last()) + traces.last()
    }
}

/// How the parts of a bulk transfer were made.
pub ghost struct PartsRun {
    /// The schedule before each part, and behind the last one.
    pub states: Seq<Schedule>,
    pub runs: Seq<PieceRun>,
    pub traces: Seq<Seq<Exchange>>,
    pub qtds: Seq<usize>,
    pub maps: Seq<TransferDma>,
}

/// Whether a part was made so.
pub open spec fn part_built(w: PartsRun, i: int, data: Seq<u8>, data_in: bool) -> bool {
    transfer::piece_built(
        w.runs[i],
        w.states[i],
        w.states[i + 1],
        chunk_of(data, i),
        (BULK_CHUNK * i) as usize,
        data_in,
        data_pid(data_in),
        false,
        false,
        w.traces[i],
        Ok((w.qtds[i], w.maps[i])),
    )
}

/// Whether the first parts were made so.
pub open spec fn parts_built(w: PartsRun, n: int, data: Seq<u8>, data_in: bool) -> bool {
    &&& w.states.len() == n + 1
    &&& w.runs.len() == n
    &&& w.traces.len() == n
    &&& w.qtds.len() == n
    &&& w.maps.len() == n
    &&& forall|i: int| 0 <= i < n ==> #[trigger] part_built(w, i, data, data_in)
}

/// How a transfer of data was made.
pub ghost struct DataRun {
    pub parts: PartsRun,
    /// The part that failed.
    pub failed: PieceRun,
    pub failed_trace: Seq<Exchange>,
    pub error: &'static str,
    /// The transfer without data.
    pub zero_trace: Seq<Exchange>,
    pub zero_result: Result<usize, &'static str>,
    pub built: Schedule,
    pub transfer: TransferRun,
    pub transfer_trace: Seq<Exchange>,
}

/// Whether a transfer without data was made so.
pub open spec fn zero_done(
    w: DataRun,
    before: Schedule,
    after: Schedule,
    request: Request,
    data: Seq<u8>,
    data_after: Seq<u8>,
    trace: Seq<Exchange>,
    result: Result<usize, &'static str>,
) -> bool {
    &&& transfer::qtd_built(
        before,
        w.built,
        None,
        0,
        data_pid(request.data_in),
        false,
        true,
        w.zero_trace,
        w.zero_result,
    )
    &&& match w.zero_result {
        Err(error) => {
            &&& after == w.built
            &&& data_after == data
            &&& trace == w.zero_trace
            &&& result == Err::<usize, &'static str>(error)
        },
        Ok(qtd) => {
            &&& transaction::transferred(
                w.transfer,
                w.built,
                after,
                request,
                seq![qtd],
                Seq::empty(),
                qtd,
                data,
                data_after,
                w.transfer_trace,
                result,
            )
            &&& trace == w.zero_trace + w.transfer_trace
        },
    }
}

/// Whether a bulk transfer was made so, in parts of [`BULK_CHUNK`] bytes. If a part
/// cannot be made the payloads are unmapped again.
pub open spec fn bulk_done(
    w: DataRun,
    before: Schedule,
    after: Schedule,
    request: Request,
    data: Seq<u8>,
    data_after: Seq<u8>,
    trace: Seq<Exchange>,
    result: Result<usize, &'static str>,
) -> bool {
    let n = w.parts.qtds.len() as int;
    let count = chunk_count(data.len() as int);
    if before.faulted {
        refused(before, after, data, data_after, trace, result)
    } else if data.len() == 0 {
        zero_done(w, before, after, request, data, data_after, trace, result)
    } else {
        &&& n <= count
        &&& w.parts.states[0] == before
        &&& parts_built(w.parts, n, data, request.data_in)
        &&& if n < count {
            &&& transfer::piece_built(
                w.failed,
                w.parts.states[n],
                after,
                chunk_of(data, n),
                (BULK_CHUNK * n) as usize,
                request.data_in,
                data_pid(request.data_in),
                false,
                false,
                w.failed_trace,
                Err(w.error),
            )
            &&& data_after == data
            &&& trace == joined(w.parts.traces) + w.failed_trace + transaction::maps_released(
                w.parts.maps,
            )
            &&& result == Err::<usize, &'static str>(w.error)
        } else {
            &&& transaction::transferred(
                w.transfer,
                w.parts.states[n],
                after,
                request,
                w.parts.qtds,
                w.parts.maps,
                w.parts.qtds.last(),
                data,
                data_after,
                w.transfer_trace,
                result,
            )
            &&& trace == joined(w.parts.traces) + w.transfer_trace
        }
    }
}

/// Whether an interrupt transfer was made so, in one part.
pub open spec fn interrupt_done(
    w: DataRun,
    before: Schedule,
    after: Schedule,
    request: Request,
    data: Seq<u8>,
    data_after: Seq<u8>,
    trace: Seq<Exchange>,
    result: Result<usize, &'static str>,
) -> bool {
    if before.faulted {
        refused(before, after, data, data_after, trace, result)
    } else if data.len() == 0 {
        zero_done(w, before, after, request, data, data_after, trace, result)
    } else if w.parts.qtds.len() == 0 {
        &&& transfer::piece_built(
            w.failed,
            before,
            after,
            data,
            0,
            request.data_in,
            data_pid(request.data_in),
            false,
            true,
            trace,
            Err(w.error),
        )
        &&& data_after == data
        &&& result == Err::<usize, &'static str>(w.error)
    } else {
        let qtd = w.parts.qtds[0];
        let mapping = w.parts.maps[0];
        &&& transfer::piece_built(
            w.parts.runs[0],
            before,
            w.built,
            data,
            0,
            request.data_in,
            data_pid(request.data_in),
            false,
            true,
            w.parts.traces[0],
            Ok((qtd, mapping)),
        )
        &&& transaction::transferred(
            w.transfer,
            w.built,
            after,
            request,
            seq![qtd],
            seq![mapping],
            qtd,
            data,
            data_after,
            w.transfer_trace,
            result,
        )
        &&& trace == w.parts.traces[0] + w.transfer_trace
    }
}

/// Makes a transfer without data.
fn run_zero<F: FnMut(Access) -> u64>(
    port: &mut Port<F>,
    state: &mut EhciState,
    request: Request,
    data: &mut Vec<u8>,
) -> (result: Result<usize, &'static str>)
    requires
        old(port).wf(),
        old(state).wf(),
        !old(state).faulted,
    ensures
        final(state).ports == old(state).ports,
        final(port).wf(),
        final(port).performs() == old(port).performs(),
        final(state).wf(),
        final(data)@.len() == old(data)@.len(),
        port::grown(final(port).log(), old(port).log()),
        exists|w: DataRun| #[trigger]
            zero_done(
                w,
                old(state)@,
                final(state)@,
                request,
                old(data)@,
                final(data)@,
                port::since(final(port).log(), old(port).log()),
                result,
            ),
{
    let ghost start = port.log();
    let ghost before = state@;
    let ghost before_state = *state;
    let ghost given = data@;
    let ghost mut w: DataRun = arbitrary();
    let pid: u32 = if request.data_in {
        regs::QTD_PID_IN
    } else {
        regs::QTD_PID_OUT
    };
    let zero_result = state.build_qtd(port, None, 0, pid, false, true);
    let ghost zero_trace = port::since(port.log(), start);
    proof {
        w = DataRun { zero_trace, zero_result, built: state@, ..w };
    }
    let qtd: usize = match zero_result {
        Ok(qtd) => qtd,
        Err(error) => {
            assert(zero_done(w, before, state@, request, given, data@, zero_trace, Err(error)));
            return Err(error);
        },
    };
    let mut qtds: Vec<usize> = Vec::new();
    qtds.push(qtd);
    let maps: Vec<TransferDma> = Vec::new();
    proof {
        lemma_one_more(before_state, *state, Seq::empty(), qtd);
        assert(qtds@ =~= Seq::empty().push(qtd));
        assert(qtds@ =~= seq![qtd]);
        assert(maps@ =~= Seq::<TransferDma>::empty());
    }
    let ghost middle = port.log();
    let result = state.run_transfer(port, request, &qtds, &maps, qtd, data);
    proof {
        let transfer_trace = port::since(port.log(), middle);
        let run = choose|run: TransferRun| #[trigger]
            transaction::transferred(
                run,
                w.built,
                state@,
                request,
                qtds@,
                maps@,
                qtd,
                given,
                data@,
                transfer_trace,
                result,
            );
        w = DataRun { transfer: run, transfer_trace, ..w };
        let trace = zero_trace + transfer_trace;
        assert(port.log() =~= start + trace);
        port::lemma_grown(start, trace);
        assert(zero_done(w, before, state@, request, given, data@, trace, result));
    }
    result
}

/// Makes an interrupt transfer.
fn run_interrupt<F: FnMut(Access) -> u64>(
    port: &mut Port<F>,
    state: &mut EhciState,
    request: Request,
    data: &mut Vec<u8>,
) -> (result: Result<usize, &'static str>)
    requires
        old(port).wf(),
        old(state).wf(),
    ensures
        final(state).ports == old(state).ports,
        final(port).wf(),
        final(port).performs() == old(port).performs(),
        final(state).wf(),
        final(data)@.len() == old(data)@.len(),
        port::grown(final(port).log(), old(port).log()),
        exists|w: DataRun| #[trigger]
            interrupt_done(
                w,
                old(state)@,
                final(state)@,
                request,
                old(data)@,
                final(data)@,
                port::since(final(port).log(), old(port).log()),
                result,
            ),
{
    let ghost start = port.log();
    let ghost before = state@;
    let ghost before_state = *state;
    let ghost given = data@;
    let ghost mut w: DataRun = arbitrary();
    if state.faulted {
        proof {
            assert(start + Seq::<Exchange>::empty() =~= start);
            port::lemma_grown(start, Seq::empty());
            assert(interrupt_done(
                w,
                before,
                state@,
                request,
                given,
                data@,
                Seq::empty(),
                Err("EHCI controller is faulted"),
            ));
        }
        return Err("EHCI controller is faulted");
    }
    if data.len() == 0 {
        let result = run_zero(port, state, request, data);
        proof {
            let trace = port::since(port.log(), start);
            let run = choose|run: DataRun| #[trigger]
                zero_done(run, before, state@, request, given, data@, trace, result);
            assert(interrupt_done(run, before, state@, request, given, data@, trace, result));
        }
        return result;
    }
    let pid: u32 = if request.data_in {
        regs::QTD_PID_IN
    } else {
        regs::QTD_PID_OUT
    };
    let built = state.build_mapped_qtd(port, data, 0, request.data_in, pid, false, true);
    let ghost built_trace = port::since(port.log(), start);
    let ghost run = choose|run: PieceRun| #[trigger]
        transfer::piece_built(
            run,
            before,
            state@,
            given,
            0,
            request.data_in,
            pid,
            false,
            true,
            built_trace,
            built,
        );
    let (qtd, mapping) = match built {
        Ok(piece) => piece,
        Err(error) => {
            proof {
                w = DataRun {
                    parts: PartsRun { qtds: Seq::empty(), ..w.parts },
                    failed: run,
                    error,
                    ..w
                };
                assert(interrupt_done(
                    w,
                    before,
                    state@,
                    request,
                    given,
                    data@,
                    built_trace,
                    Err(error),
                ));
            }
            return Err(error);
        },
    };
    let mut qtds: Vec<usize> = Vec::new();
    qtds.push(qtd);
    let mut maps: Vec<TransferDma> = Vec::new();
    maps.push(mapping);
    proof {
        lemma_one_more(before_state, *state, Seq::empty(), qtd);
        assert(qtds@ =~= Seq::empty().push(qtd));
        assert(qtds@ =~= seq![qtd]);
        assert(maps@ =~= seq![mapping]);
        w = DataRun {
            parts: PartsRun {
                qtds: qtds@,
                maps: maps@,
                runs: seq![run],
                traces: seq![built_trace],
                ..w.parts
            },
            built: state@,
            ..w
        };
    }
    let ghost middle = port.log();
    let result = state.run_transfer(port, request, &qtds, &maps, qtd, data);
    proof {
        let transfer_trace = port::since(port.log(), middle);
        let carried = choose|carried: TransferRun| #[trigger]
            transaction::transferred(
                carried,
                w.built,
                state@,
                request,
                qtds@,
                maps@,
                qtd,
                given,
                data@,
                transfer_trace,
                result,
            );
        w = DataRun { transfer: carried, transfer_trace, ..w };
        let trace = built_trace + transfer_trace;
        assert(port.log() =~= start + trace);
        port::lemma_grown(start, trace);
        assert(interrupt_done(w, before, state@, request, given, data@, trace, result));
    }
    result
}

proof fn lemma_part_added(
    earlier: PartsRun,
    w: PartsRun,
    n: int,
    data: Seq<u8>,
    data_in: bool,
    run: PieceRun,
    after: Schedule,
    trace: Seq<Exchange>,
    qtd: usize,
    mapping: TransferDma,
)
    requires
        n >= 0,
        parts_built(earlier, n, data, data_in),
        w == (PartsRun {
            states: earlier.states.push(after),
            runs: earlier.runs.push(run),
            traces: earlier.traces.push(trace),
            qtds: earlier.qtds.push(qtd),
            maps: earlier.maps.push(mapping),
        }),
        transfer::piece_built(
            run,
            earlier.states[n],
            after,
            chunk_of(data, n),
            (BULK_CHUNK * n) as usize,
            data_in,
            data_pid(data_in),
            false,
            false,
            trace,
            Ok((qtd, mapping)),
        ),
    ensures
        parts_built(w, n + 1, data, data_in),
        joined(w.traces) == joined(earlier.traces) + trace,
{
    assert(w.traces.drop_last() =~= earlier.traces);
    assert forall|i: int| 0 <= i < n + 1 implies #[trigger] part_built(w, i, data, data_in) by {
        if i < n {
            assert(part_built(earlier, i, data, data_in));
            assert(w.runs[i] == earlier.runs[i]);
            assert(w.states[i] == earlier.states[i]);
            assert(w.states[i + 1] == earlier.states[i + 1]);
            assert(w.traces[i] == earlier.traces[i]);
            assert(w.qtds[i] == earlier.qtds[i]);
            assert(w.maps[i] == earlier.maps[i]);
        }
    }
}

/// Makes a bulk transfer.
#[verifier::rlimit(40)]
fn run_bulk<F: FnMut(Access) -> u64>(
    port: &mut Port<F>,
    state: &mut EhciState,
    request: Request,
    data: &mut Vec<u8>,
) -> (result: Result<usize, &'static str>)
    requires
        old(port).wf(),
        old(state).wf(),
    ensures
        final(state).ports == old(state).ports,
        final(port).wf(),
        final(port).performs() == old(port).performs(),
        final(state).wf(),
        final(data)@.len() == old(data)@.len(),
        port::grown(final(port).log(), old(port).log()),
        exists|w: DataRun| #[trigger]
            bulk_done(
                w,
                old(state)@,
                final(state)@,
                request,
                old(data)@,
                final(data)@,
                port::since(final(port).log(), old(port).log()),
                result,
            ),
{
    let ghost start = port.log();
    let ghost before = state@;
    let ghost given = data@;
    let ghost mut w: DataRun = arbitrary();
    if state.faulted {
        proof {
            assert(start + Seq::<Exchange>::empty() =~= start);
            port::lemma_grown(start, Seq::empty());
            assert(bulk_done(
                w,
                before,
                state@,
                request,
                given,
                data@,
                Seq::empty(),
                Err("EHCI controller is faulted"),
            ));
        }
        return Err("EHCI controller is faulted");
    }
    if data.len() == 0 {
        let result = run_zero(port, state, request, data);
        proof {
            let trace = port::since(port.log(), start);
            let run = choose|run: DataRun| #[trigger]
                zero_done(run, before, state@, request, given, data@, trace, result);
            assert(bulk_done(run, before, state@, request, given, data@, trace, result));
        }
        return result;
    }
    let pid: u32 = if request.data_in {
        regs::QTD_PID_IN
    } else {
        regs::QTD_PID_OUT
    };
    let mut qtds: Vec<usize> = Vec::new();
    let mut maps: Vec<TransferDma> = Vec::new();
    let ghost mut parts = PartsRun {
        states: seq![before],
        runs: Seq::empty(),
        traces: Seq::empty(),
        qtds: Seq::empty(),
        maps: Seq::empty(),
    };
    let ghost mut n: int = 0;
    let mut offset: usize = 0;
    assert(start + joined(parts.traces) =~= start);
    while offset < data.len()
        invariant
            port.wf(),
            port.performs() == old(port).performs(),
            state.wf(),
            !state.faulted,
            !before.faulted,
            state.ports == old(state).ports,
            data@ == given,
            start == old(port).log(),
            before == old(state)@,
            given == old(data)@,
            given.len() > 0,
            pid == data_pid(request.data_in),
            0 <= n <= chunk_count(given.len() as int),
            offset == if n < chunk_count(given.len() as int) {
                BULK_CHUNK * n
            } else {
                given.len() as int
            },
            parts_built(parts, n, given, request.data_in),
            parts.states[0] == before,
            parts.states[n] == state@,
            parts.qtds == qtds@,
            parts.maps == maps@,
            state.loose_qtds(qtds@),
            transaction::maps_fit(maps@, given.len() as int),
            port.log() == start + joined(parts.traces),
        decreases data@.len() - offset,
    {
        let left: usize = data.len() - offset;
        let chunk: usize = if left < BULK_CHUNK {
            left
        } else {
            BULK_CHUNK
        };
        let mut bytes: Vec<u8> = Vec::new();
        push_range(&mut bytes, data.as_slice(), offset, offset + chunk);
        assert(bytes@ =~= chunk_of(given, n));
        let ghost log_before = port.log();
        let ghost state_before = *state;
        let built = state.build_mapped_qtd(
            port,
            &bytes,
            offset,
            request.data_in,
            pid,
            false,
            false,
        );
        let ghost trace = port::since(port.log(), log_before);
        let ghost run = choose|run: PieceRun| #[trigger]
            transfer::piece_built(
                run,
                parts.states[n],
                state@,
                bytes@,
                offset,
                request.data_in,
                pid,
                false,
                false,
                trace,
                built,
            );
        match built {
            Ok(piece) => {
                let ghost qtds_before = qtds@;
                let ghost maps_before = maps@;
                qtds.push(piece.0);
                maps.push(piece.1);
                proof {
                    let earlier = parts;
                    parts = PartsRun {
                        states: earlier.states.push(state@),
                        runs: earlier.runs.push(run),
                        traces: earlier.traces.push(trace),
                        qtds: earlier.qtds.push(piece.0),
                        maps: earlier.maps.push(piece.1),
                    };
                    lemma_part_added(
                        earlier,
                        parts,
                        n,
                        given,
                        request.data_in,
                        run,
                        state@,
                        trace,
                        piece.0,
                        piece.1,
                    );
                    lemma_one_more(state_before, *state, qtds_before, piece.0);
                    assert(port.log() =~= start + joined(parts.traces));
                    assert(parts.states[0] == before);
                    assert forall|i: int|
                        0 <= i < maps@.len() && (#[trigger] maps@[i]).from_device implies maps@[i].offset
                        + maps@[i].len <= given.len() by {
                        if i < maps_before.len() {
                            assert(maps@[i] == maps_before[i]);
                        }
                    }
                    n = n + 1;
                }
                offset = offset + chunk;
            },
            Err(error) => {
                release_maps(port, &maps);
                proof {
                    w = DataRun { parts, failed: run, failed_trace: trace, error, ..w };
                    let whole = joined(parts.traces) + trace + transaction::maps_released(maps@);
                    assert(port.log() =~= start + whole);
                    port::lemma_grown(start, whole);
                    assert(bulk_done(
                        w,
                        before,
                        state@,
                        request,
                        given,
                        data@,
                        whole,
                        Err(error),
                    ));
                }
                return Err(error);
            },
        }
    }
    let ghost middle = port.log();
    let ghost built = state@;
    let last: usize = qtds[qtds.len() - 1];
    let result = state.run_transfer(port, request, &qtds, &maps, last, data);
    proof {
        let transfer_trace = port::since(port.log(), middle);
        let carried = choose|carried: TransferRun| #[trigger]
            transaction::transferred(
                carried,
                built,
                state@,
                request,
                qtds@,
                maps@,
                last,
                given,
                data@,
                transfer_trace,
                result,
            );
        w = DataRun { parts, transfer: carried, transfer_trace, ..w };
        let trace = joined(parts.traces) + transfer_trace;
        assert(port.log() =~= start + trace);
        port::lemma_grown(start, trace);
        assert(bulk_done(w, before, state@, request, given, data@, trace, result));
    }
    result
}

impl<F: FnMut(Access) -> u64> UsbHcd for EhciHcd<F> {
    open spec fn wf(&self) -> bool {
        self.port.wf() && self.state.wf()
    }

    open spec fn calls(&self) -> Seq<Call> {
        self.calls@
    }

    open spec fn ports(&self) -> usize {
        self.state.ports
    }

    open spec fn label(&self) -> Seq<char> {
        "ehci"@
    }

    fn name(&self) -> (name: &'static str) {
        "ehci"
    }

    fn port_count(&self) -> (count: usize) {
        self.state.ports
    }

    fn shutdown(&mut self) -> (result: Result<(), &'static str>)
        ensures
            final(self).port.performs() == old(self).port.performs(),
            port::grown(final(self).port.log(), old(self).port.log()),
            exists|w: HaltRun| #[trigger]
                was_shut_down(
                    w,
                    old(self).state@,
                    final(self).state@,
                    port::since(final(self).port.log(), old(self).port.log()),
                    result,
                ),
    {
        let ghost start = self.port.log();
        let ghost before = self.state@;
        let halted = halt_controller(&mut self.port, self.state.op);
        let ghost trace = port::since(self.port.log(), start);
        let ghost w = choose|w: HaltRun| #[trigger]
            ehci::was_halted(w, before.op, trace, halted);
        if halted.is_ok() {
            self.state.faulted = true;
            self.port.write32(self.state.op + regs::EHCI_USBSTS, regs::EHCI_STS_W1C_MASK);
            proof {
                let whole = trace.push(
                    port::w32(
                        (before.op + regs::EHCI_USBSTS) as usize,
                        regs::EHCI_STS_W1C_MASK,
                    ),
                );
                assert(self.port.log() =~= start + whole);
                assert(whole.drop_last() =~= trace);
                port::lemma_grown(start, whole);
                assert(was_shut_down(w, before, self.state@, whole, halted));
            }
        } else {
            assert(was_shut_down(w, before, self.state@, trace, halted));
        }
        self.calls = Ghost(self.calls@.push(Call::Shutdown { shutdown_result: halted }));
        assert(was_shut_down(
            w,
            old(self).state@,
            self.state@,
            port::since(self.port.log(), old(self).port.log()),
            halted,
        ));
        halted
    }

    fn port_power_on(&mut self, port: usize) -> (result: Result<(), &'static str>)
        ensures
            final(self).port.performs() == old(self).port.performs(),
            result is Ok,
            final(self).state == old(self).state,
            exists|status: u32|
                final(self).port.log() == old(self).port.log() + seq![
                    #[trigger] port::r32(ehci::portsc(old(self).state.op, port as int), status),
                    port::w32(
                        ehci::portsc(old(self).state.op, port as int),
                        (status & 0xffff_ffd5) | regs::EHCI_PORTSC_PP
                            | regs::EHCI_PORTSC_WKCNNT_E,
                    ),
                ],
    {
        power_port(&mut self.port, self.state.op, port);
        self.calls = Ghost(self.calls@.push(Call::PowerOn { on_port: port, power_result: Ok(()) }));
        Ok(())
    }

    fn port_reset(&mut self, port: usize) -> (result: Result<u8, &'static str>)
        ensures
            final(self).port.performs() == old(self).port.performs(),
            final(self).state == old(self).state,
            port::grown(final(self).port.log(), old(self).port.log()),
            exists|w: PortResetRun| #[trigger]
                ehci::port_was_reset(
                    w,
                    old(self).state.op,
                    port as int,
                    port::since(final(self).port.log(), old(self).port.log()),
                    result,
                ),
    {
        let result = reset_port(&mut self.port, self.state.op, port);
        self.calls = Ghost(
            self.calls@.push(Call::Reset { reset_port: port, reset_result: result }),
        );
        result
    }

    fn port_connected(&mut self, port: usize) -> (connected: bool)
        ensures
            final(self).port.performs() == old(self).port.performs(),
            final(self).state == old(self).state,
            exists|status: u32|
                final(self).port.log() == old(self).port.log().push(
                    #[trigger] port::r32(ehci::portsc(old(self).state.op, port as int), status),
                ) && connected == (status % 2 == 1 && status / regs::EHCI_PORTSC_PORT_OWNER % 2
                    == 0),
    {
        let connected: bool = port_has_device(&mut self.port, self.state.op, port);
        self.calls = Ghost(
            self.calls@.push(Call::Connected { seen_port: port, seen: connected }),
        );
        connected
    }

    fn control_transfer(
        &mut self,
        dev_addr: u8,
        setup: UsbSetup,
        data: &mut Vec<u8>,
        data_in: bool,
    ) -> (result: Result<usize, &'static str>)
        ensures
            final(self).port.performs() == old(self).port.performs(),
            port::grown(final(self).port.log(), old(self).port.log()),
            exists|w: ControlRun| #[trigger]
                control_done(
                    w,
                    old(self).state@,
                    final(self).state@,
                    dev_addr,
                    setup,
                    old(data)@,
                    data_in,
                    final(data)@,
                    port::since(final(self).port.log(), old(self).port.log()),
                    result,
                ),
    {
        let ghost start = self.port.log();
        let ghost before = self.state@;
        let result = run_control(
            &mut self.port,
            &mut self.state,
            dev_addr,
            setup,
            data,
            data_in,
        );
        self.calls = Ghost(
            self.calls@.push(
                Call::Control {
                    address: dev_addr,
                    setup,
                    data: old(data)@,
                    data_in,
                    result,
                    after: data@,
                },
            ),
        );
        let ghost trace = port::since(self.port.log(), start);
        let ghost w = choose|w: ControlRun| #[trigger]
            control_done(
                w,
                before,
                self.state@,
                dev_addr,
                setup,
                old(data)@,
                data_in,
                data@,
                trace,
                result,
            );
        assert(control_done(
            w,
            old(self).state@,
            self.state@,
            dev_addr,
            setup,
            old(data)@,
            data_in,
            data@,
            port::since(self.port.log(), old(self).port.log()),
            result,
        ));
        result
    }

    fn bulk_transfer(&mut self, dev_addr: u8, ep: u8, data: &mut Vec<u8>, data_in: bool) -> (result:
        Result<usize, &'static str>)
        ensures
            final(self).port.performs() == old(self).port.performs(),
            port::grown(final(self).port.log(), old(self).port.log()),
            exists|w: DataRun| #[trigger]
                bulk_done(
                    w,
                    old(self).state@,
                    final(self).state@,
                    endpoint_request(dev_addr, ep, data_in),
                    old(data)@,
                    final(data)@,
                    port::since(final(self).port.log(), old(self).port.log()),
                    result,
                ),
    {
        let ghost start = self.port.log();
        let ghost before = self.state@;
        let request = Request { address: dev_addr, ep: ep % 16, data_in, control: false };
        assert(request == endpoint_request(dev_addr, ep, data_in));
        let result = run_bulk(&mut self.port, &mut self.state, request, data);
        proof {
            let trace = port::since(self.port.log(), start);
            let w = choose|w: DataRun| #[trigger]
                bulk_done(w, before, self.state@, request, old(data)@, data@, trace, result);
            assert(bulk_done(w, before, self.state@, request, old(data)@, data@, trace, result));
        }
        self.calls = Ghost(
            self.calls@.push(
                Call::Bulk {
                    bulk_address: dev_addr,
                    bulk_ep: ep,
                    bulk_data: old(data)@,
                    bulk_in: data_in,
                    bulk_result: result,
                    bulk_after: data@,
                },
            ),
        );
        result
    }

    fn interrupt_transfer(
        &mut self,
        dev_addr: u8,
        ep: u8,
        data: &mut Vec<u8>,
        data_in: bool,
    ) -> (result: Result<usize, &'static str>)
        ensures
            final(self).port.performs() == old(self).port.performs(),
            port::grown(final(self).port.log(), old(self).port.log()),
            exists|w: DataRun| #[trigger]
                interrupt_done(
                    w,
                    old(self).state@,
                    final(self).state@,
                    endpoint_request(dev_addr, ep, data_in),
                    old(data)@,
                    final(data)@,
                    port::since(final(self).port.log(), old(self).port.log()),
                    result,
                ),
    {
        let ghost start = self.port.log();
        let ghost before = self.state@;
        let request = Request { address: dev_addr, ep: ep % 16, data_in, control: false };
        assert(request == endpoint_request(dev_addr, ep, data_in));
        let result = run_interrupt(&mut self.port, &mut self.state, request, data);
        proof {
            let trace = port::since(self.port.log(), start);
            let w = choose|w: DataRun| #[trigger]
                interrupt_done(w, before, self.state@, request, old(data)@, data@, trace, result);
            assert(interrupt_done(w, before, self.state@, request, old(data)@, data@, trace, result));
        }
        self.calls = Ghost(
            self.calls@.push(
                Call::Interrupt {
                    int_address: dev_addr,
                    int_ep: ep,
                    int_data: old(data)@,
                    int_in: data_in,
                    int_result: result,
                    int_after: data@,
                },
            ),
        );
        result
    }

    fn wait(&mut self, duration_ns: u64)
        ensures
            final(self).port.performs() == old(self).port.performs(),
            final(self).state == old(self).state,
            final(self).port.log() == old(self).port.log().push(port::wait(duration_ns)),
    {
        self.port.delay(duration_ns);
        self.calls = Ghost(self.calls@.push(Call::Wait { duration_ns }));
    }
}

/// A request to an endpoint other than the control endpoint.
pub open spec fn endpoint_request(address: u8, ep: u8, data_in: bool) -> Request {
    Request { address, ep: ep % 16, data_in, control: false }
}

/// Whether a controller was stopped for good so.
pub open spec fn was_shut_down(
    w: HaltRun,
    before: Schedule,
    after: Schedule,
    trace: Seq<Exchange>,
    result: Result<(), &'static str>,
) -> bool {
    if result is Ok {
        let halt_trace = trace.drop_last();
        &&& ehci::was_halted(w, before.op, halt_trace, result)
        &&& trace == halt_trace.push(
            port::w32((before.op + regs::EHCI_USBSTS) as usize, regs::EHCI_STS_W1C_MASK),
        )
        &&& after == (Schedule { faulted: true, ..before })
    } else {
        ehci::was_halted(w, before.op, trace, result) && after == before
    }
}

} // verus!
