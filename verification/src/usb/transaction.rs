//! One transfer after the other through the schedule of the high-speed controller.

use vstd::prelude::*;
use crate::port;
use crate::port::{Access, Exchange, Port};
use crate::usb::ehci;
use crate::usb::ehci::{AsyncStopState, ScheduleRun, StartFailure, start_async, stop_async};
use crate::usb::regs;
use crate::usb::regs::EhciQhHw;
use crate::usb::ring;
use crate::usb::ring::QH_COUNT;
use crate::usb::transfer;
use crate::usb::transfer::{
    CachedQh, EhciState, QTD_COUNT, Request, Schedule, TransferDma,
};

verus! {

/// How long a transfer may take.
pub const TRANSFER_TIMEOUT_NS: u64 = 2_000_000_000;

/// The pause between two looks at a transfer.
pub const TRANSFER_POLL_NS: u64 = 5_000;

/// Whether an endpoint's head is the entry.
pub open spec fn is_for(entry: CachedQh, request: Request) -> bool {
    entry.address == request.address && entry.ep == request.ep && entry.data_in == request.data_in
}

/// Whether `at` is the first entry for an endpoint.
pub open spec fn first_for(cached: Seq<CachedQh>, request: Request, at: int) -> bool {
    &&& 0 <= at < cached.len()
    &&& is_for(cached[at], request)
    &&& forall|i: int| 0 <= i < at ==> !is_for(#[trigger] cached[i], request)
}

pub open spec fn none_for(cached: Seq<CachedQh>, request: Request) -> bool {
    forall|i: int| 0 <= i < cached.len() ==> !is_for(#[trigger] cached[i], request)
}

/// Whether a head was chosen so: a control transfer takes a free one, the others
/// the one that their endpoint keeps, or a free one that it keeps from then on.
pub open spec fn qh_chosen(
    before: Schedule,
    after: Schedule,
    request: Request,
    result: Option<usize>,
) -> bool {
    let fresh = Schedule { qhs: before.qhs.drop_last(), ..before };
    ||| {
        &&& !request.control
        &&& after == before
        &&& exists|at: int| #[trigger]
            first_for(before.cached, request, at) && result == Some(before.cached[at].qh)
    }
    ||| {
        &&& request.control || none_for(before.cached, request)
        &&& if before.qhs.len() == 0 {
            result == None::<usize> && after == before
        } else {
            &&& result == Some(before.qhs.last())
            &&& after == if request.control {
                fresh
            } else {
                Schedule {
                    cached: before.cached.push(
                        CachedQh {
                            address: request.address,
                            ep: request.ep,
                            data_in: request.data_in,
                            qh: before.qhs.last(),
                        },
                    ),
                    ..fresh
                }
            }
        }
    }
}

/// The head of a transfer. A control transfer takes the sequence bit from its parts;
/// the other endpoints go on with the bit that the controller left.
pub open spec fn qh_of(request: Request, first_qtd: u32, left: u32) -> EhciQhHw {
    EhciQhHw {
        info1: (request.address % 128 + (request.ep % 16) * 0x100 + regs::QH_HIGH_SPEED + (
        if request.control {
            0x40_0000int + regs::QH_TOGGLE_CTL
        } else {
            0x200_0000
        }) + 0x8000_0000) as u32,
        info2: 0x4000_0000,
        qtd_next: first_qtd,
        qtd_alt_next: regs::QTD_TERMINATE,
        token: if request.control {
            0
        } else {
            (left / 0x8000_0000 * 0x8000_0000) as u32
        },
        ..EhciQhHw::zero()
    }
}

/// The accesses by which a head is filled in.
pub open spec fn qh_filled(
    qh_base: u32,
    qh: usize,
    request: Request,
    first_qtd: u32,
    left: u32,
) -> Seq<Exchange> {
    let at = ring::qh_at(qh_base, qh as int);
    (if request.control {
        Seq::empty()
    } else {
        seq![port::l32((at + 24) as usize, left)]
    }) + port::words_stored(at as int, qh_of(request, first_qtd, left).words())
}

/// The accesses by which the first transfers are linked to the ones behind them.
pub open spec fn chain_links(qtd_base: u32, qtds: Seq<usize>, count: int) -> Seq<Exchange> {
    Seq::new(
        count as nat,
        |i: int|
            port::s32(
                transfer::qtd_at(qtd_base, qtds[i] as int) as usize,
                transfer::qtd_at(qtd_base, qtds[i + 1] as int),
            ),
    )
}

/// The accesses by which transfers are chained; the last one reports its end.
pub open spec fn chained(qtd_base: u32, qtds: Seq<usize>, token: u32) -> Seq<Exchange> {
    let at = (transfer::qtd_at(qtd_base, qtds.last() as int) + 8) as usize;
    chain_links(qtd_base, qtds, qtds.len() - 1) + seq![
        port::l32(at, token),
        port::s32(at, token | regs::QTD_IOC),
    ]
}

/// The accesses by which mapped payloads are made visible to the controller.
pub open spec fn maps_flushed(maps: Seq<TransferDma>) -> Seq<Exchange> {
    Seq::new(maps.len(), |i: int| port::flushed(maps[i].dma as usize))
}

/// The accesses by which mapped payloads are given back.
pub open spec fn maps_released(maps: Seq<TransferDma>) -> Seq<Exchange> {
    Seq::new(maps.len(), |i: int| port::buffer_released(maps[i].dma))
}

/// The accesses by which a head comes into the schedule.
pub open spec fn entered(before: Schedule, qh: usize, maps: Seq<TransferDma>) -> Seq<Exchange> {
    seq![
        port::s32(
            ring::qh_at(before.qh_base, before.head as int) as usize,
            ring::link_of(before.qh_base, qh as int),
        ),
        port::s32(
            ring::qh_at(before.qh_base, qh as int) as usize,
            ring::link_of(before.qh_base, before.head as int),
        ),
        port::fence(),
    ] + maps_flushed(maps) + seq![
        port::flushed(before.qtd_base as usize),
        port::flushed(before.qh_base as usize),
    ]
}

/// The accesses by which the only head leaves the schedule.
pub open spec fn left_ring(before: Schedule) -> Seq<Exchange> {
    seq![
        port::refreshed(before.qh_base as usize),
        port::s32(
            ring::qh_at(before.qh_base, before.head as int) as usize,
            ring::link_of(before.qh_base, before.head as int),
        ),
        port::fence(),
        port::flushed(before.qh_base as usize),
    ]
}

/// What became of a transfer that was to enter the schedule.
#[derive(Clone, Copy, PartialEq, Eq, Debug)]
pub enum Submission {
    /// The controller works on it.
    Linked(usize),
    /// It never entered the schedule.
    Refused(&'static str),
    /// The schedule did not start, and it was taken out again.
    Withdrawn(usize, &'static str),
    /// The schedule did not start and the controller did not halt: it still has it.
    Kept(&'static str),
}

/// How a transfer entered the schedule.
pub ghost struct SubmitRun {
    pub chosen: Schedule,
    pub qh: Option<usize>,
    pub left: u32,
    pub token: u32,
    pub stop: ScheduleRun,
    pub stop_trace: Seq<Exchange>,
    pub stopped: Result<AsyncStopState, &'static str>,
    pub stop_faulted: bool,
    pub start: ScheduleRun,
    pub start_trace: Seq<Exchange>,
    pub started: Result<(), StartFailure>,
    pub start_faulted: bool,
}

/// The accesses by which a transfer is prepared outside the schedule.
pub open spec fn prepared(
    w: SubmitRun,
    before: Schedule,
    request: Request,
    qh: usize,
    qtds: Seq<usize>,
) -> Seq<Exchange> {
    let first = transfer::qtd_at(before.qtd_base, qtds[0] as int);
    qh_filled(before.qh_base, qh, request, first, w.left) + chained(
        before.qtd_base,
        qtds,
        w.token,
    )
}

/// Whether a transfer entered the schedule so. The schedule is stopped while its
/// heads change.
pub open spec fn submitted(
    w: SubmitRun,
    before: Schedule,
    after: Schedule,
    request: Request,
    qtds: Seq<usize>,
    maps: Seq<TransferDma>,
    trace: Seq<Exchange>,
    result: Submission,
) -> bool {
    if qtds.len() == 0 {
        &&& after == before
        &&& trace == Seq::<Exchange>::empty()
        &&& result == Submission::Refused("empty qtd chain")
    } else {
        &&& qh_chosen(before, w.chosen, request, w.qh)
        &&& match w.qh {
            None => {
                &&& after == (Schedule { qtds: before.qtds + qtds, ..before })
                &&& trace == Seq::<Exchange>::empty()
                &&& result == Submission::Refused("EHCI QH pool exhausted")
            },
            Some(qh) => {
                let ready = prepared(w, before, request, qh, qtds);
                let refused = Schedule {
                    qtds: w.chosen.qtds + qtds,
                    faulted: w.stop_faulted,
                    ..w.chosen
                };
                &&& ehci::schedule_stopped(
                    w.stop,
                    before.op,
                    before.faulted,
                    w.stop_trace,
                    w.stopped,
                    w.stop_faulted,
                )
                &&& match w.stopped {
                    Err(error) => {
                        &&& after == refused
                        &&& trace == ready + w.stop_trace
                        &&& result == Submission::Refused(error)
                    },
                    Ok(AsyncStopState::ControllerHalted) => {
                        &&& after == refused
                        &&& trace == ready + w.stop_trace
                        &&& result == Submission::Refused("EHCI controller is halted")
                    },
                    Ok(AsyncStopState::ScheduleStopped) => {
                        let linking = ready + w.stop_trace + entered(before, qh, maps);
                        &&& ehci::schedule_started(
                            w.start,
                            before.op,
                            w.stop_faulted,
                            w.start_trace,
                            w.started,
                            w.start_faulted,
                        )
                        &&& match w.started {
                            Ok(_) => {
                                &&& after == (Schedule {
                                    linked: seq![qh],
                                    faulted: w.start_faulted,
                                    ..w.chosen
                                })
                                &&& trace == linking + w.start_trace
                                &&& result == Submission::Linked(qh)
                            },
                            Err(failure) => if failure.halted {
                                &&& after == (Schedule { faulted: w.start_faulted, ..w.chosen })
                                &&& trace == linking + w.start_trace + left_ring(before)
                                &&& result == Submission::Withdrawn(qh, failure.error)
                            } else {
                                &&& after == (Schedule {
                                    linked: seq![qh],
                                    faulted: w.start_faulted,
                                    ..w.chosen
                                })
                                &&& trace == linking + w.start_trace
                                &&& result == Submission::Kept(failure.error)
                            },
                        }
                    },
                }
            },
        }
    }
}

proof fn lemma_out_of(list: Seq<usize>, qh: usize, at: int)
    requires
        list == seq![qh],
        0 <= at < list.len(),
    ensures
        list.remove(at) == Seq::<usize>::empty(),
        at == 0,
{
    assert(list.remove(0) =~= Seq::<usize>::empty());
}

impl EhciState {
    /// Finds the head that an endpoint keeps.
    fn find_cached(&self, request: Request) -> (result: Option<usize>)
        requires
            self.sound(),
        ensures
            match result {
                Some(qh) => exists|at: int| #[trigger]
                    first_for(self.cached@, request, at) && qh == self.cached@[at].qh,
                None => none_for(self.cached@, request),
            },
    {
        let mut i: usize = 0;
        while i < self.cached.len()
            invariant
                i <= self.cached@.len(),
                forall|k: int| 0 <= k < i ==> !is_for(#[trigger] self.cached@[k], request),
            decreases self.cached@.len() - i,
        {
            let entry = self.cached[i];
            if entry.address == request.address && entry.ep == request.ep && entry.data_in
                == request.data_in {
                assert(first_for(self.cached@, request, i as int));
                return Some(entry.qh);
            }
            i += 1;
        }
        None
    }

    /// Chooses the head of a transfer.
    fn choose_qh(&mut self, request: Request) -> (result: Option<usize>)
        requires
            old(self).sound(),
        ensures
            final(self).sound(),
            final(self).ring == old(self).ring,
            final(self).qtds == old(self).qtds,
            qh_chosen(old(self)@, final(self)@, request, result),
            result matches Some(qh) ==> qh < QH_COUNT && qh != old(self).ring.head && (
            request.control ==> final(self).loose_qh(qh)),
    {
        if !request.control {
            match self.find_cached(request) {
                Some(qh) => {
                    proof {
                        let at = choose|at: int| #[trigger]
                            first_for(self.cached@, request, at) && qh == self.cached@[at].qh;
                        assert(self.cached@[at].qh == qh);
                    }
                    return Some(qh);
                },
                None => {},
            }
        }
        let ghost before = *self;
        match self.qhs.take() {
            Some(qh) => {
                proof {
                    assert forall|i: int| 0 <= i < self.cached@.len() implies (
                    #[trigger] self.cached@[i]).qh != qh && !self.qhs.is_free(
                        self.cached@[i].qh,
                    ) by {
                        assert(!before.qhs.is_free(before.cached@[i].qh));
                        if self.qhs.is_free(self.cached@[i].qh) {
                            let k = choose|k: int|
                                0 <= k < self.qhs.free@.len() && self.qhs.free@[k]
                                    == self.cached@[i].qh;
                            assert(before.qhs.free@[k] == self.cached@[i].qh);
                            assert(before.qhs.is_free(self.cached@[i].qh));
                        }
                    }
                    if self.qhs.is_free(self.ring.head) {
                        let k = choose|k: int|
                            0 <= k < self.qhs.free@.len() && self.qhs.free@[k] == self.ring.head;
                        assert(before.qhs.free@[k] == self.ring.head);
                        assert(before.qhs.is_free(self.ring.head));
                    }
                }
                if !request.control {
                    let entry = CachedQh {
                        address: request.address,
                        ep: request.ep,
                        data_in: request.data_in,
                        qh,
                    };
                    let ghost kept = self.cached@;
                    self.cached.push(entry);
                    assert forall|i: int| 0 <= i < self.cached@.len() implies (
                    #[trigger] self.cached@[i]).qh < QH_COUNT && self.cached@[i].qh
                        != self.ring.head && !self.qhs.is_free(self.cached@[i].qh) by {
                        if i < kept.len() {
                            assert(self.cached@[i] == kept[i]);
                        }
                    }
                }
                Some(qh)
            },
            None => None,
        }
    }

    /// Fills in the head of a transfer.
    fn fill_qh<F: FnMut(Access) -> u64>(
        &self,
        port: &mut Port<F>,
        qh: usize,
        request: Request,
        first: u32,
    ) -> (left: Ghost<u32>)
        requires
            self.sound(),
            old(port).wf(),
            qh < QH_COUNT,
        ensures
            final(port).wf(),
            final(port).performs() == old(port).performs(),
            final(port).log() == old(port).log() + qh_filled(
                self.ring.base,
                qh,
                request,
                first,
                left@,
            ),
    {
        let ghost start = port.log();
        let at: u32 = self.ring.qh_dma(qh);
        let mut head = EhciQhHw::default();
        let mut left: u32 = 0;
        if !request.control {
            left = port.load32((at + 24) as usize);
            head.token = left / 0x8000_0000 * 0x8000_0000;
        }
        let mut info: u32 = (request.address % 128) as u32 + ((request.ep % 16) as u32) * 0x100
            + regs::QH_HIGH_SPEED + 0x8000_0000;
        if request.control {
            info = info + 0x40_0000 + regs::QH_TOGGLE_CTL;
        } else {
            info = info + 0x200_0000;
        }
        head.info1 = info;
        head.info2 = 0x4000_0000;
        head.qtd_next = first;
        head.qtd_alt_next = regs::QTD_TERMINATE;
        let words: [u32; 12] = [
            head.next,
            head.info1,
            head.info2,
            head.current,
            head.qtd_next,
            head.qtd_alt_next,
            head.token,
            head.buf0,
            head.buf1,
            head.buf2,
            head.buf3,
            head.buf4,
        ];
        port.store_words(at as u64, &words);
        proof {
            assert(words@ =~= head.words());
            assert(head == qh_of(request, first, left));
            assert(port.log() =~= start + qh_filled(self.ring.base, qh, request, first, left));
        }
        Ghost(left)
    }

    /// Chains transfers.
    fn chain<F: FnMut(Access) -> u64>(&self, port: &mut Port<F>, qtds: &Vec<usize>) -> (token:
        Ghost<u32>)
        requires
            self.sound(),
            old(port).wf(),
            qtds@.len() > 0,
            forall|i: int| 0 <= i < qtds@.len() ==> (#[trigger] qtds@[i]) < QTD_COUNT,
        ensures
            final(port).wf(),
            final(port).performs() == old(port).performs(),
            final(port).log() == old(port).log() + chained(self.qtd_base, qtds@, token@),
    {
        let ghost start = port.log();
        let mut i: usize = 0;
        assert(start + chain_links(self.qtd_base, qtds@, 0) =~= start);
        while i < qtds.len() - 1
            invariant
                self.sound(),
                port.wf(),
                port.performs() == old(port).performs(),
                i < qtds@.len(),
                forall|i: int| 0 <= i < qtds@.len() ==> (#[trigger] qtds@[i]) < QTD_COUNT,
                port.log() == start + chain_links(self.qtd_base, qtds@, i as int),
            decreases qtds@.len() - i,
        {
            let at: u32 = self.qtd_dma(qtds[i]);
            let next: u32 = self.qtd_dma(qtds[i + 1]);
            port.store32(at as usize, next);
            assert(port.log() =~= start + chain_links(self.qtd_base, qtds@, i + 1));
            i += 1;
        }
        let last: u32 = self.qtd_dma(qtds[qtds.len() - 1]);
        let token: u32 = port.load32((last + 8) as usize);
        port.store32((last + 8) as usize, token | regs::QTD_IOC);
        assert(port.log() =~= start + chained(self.qtd_base, qtds@, token));
        Ghost(token)
    }

    /// Takes the only head out of the schedule.
    fn leave_ring<F: FnMut(Access) -> u64>(&mut self, port: &mut Port<F>, qh: usize)
        requires
            old(self).sound(),
            old(port).wf(),
            qh < QH_COUNT,
            old(self).ring.list@ == seq![qh],
        ensures
            final(self).sound(),
            final(port).wf(),
            final(port).performs() == old(port).performs(),
            final(self)@ == (Schedule { linked: Seq::empty(), ..old(self)@ }),
            final(self).qhs == old(self).qhs,
            final(self).qtds == old(self).qtds,
            final(self).cached == old(self).cached,
            final(port).log() == old(port).log() + left_ring(old(self)@),
    {
        let ghost start = port.log();
        let ghost head = self.ring.head as int;
        let ghost list = self.ring.list@;
        port.refresh(self.ring.base as usize);
        proof {
            assert(ring::node(head, list, 1) == qh);
            assert(self.ring.links@[ring::node(head, list, 1)] == ring::link_of(
                self.ring.base,
                head,
            ));
            assert(list[0] == qh);
            assert(list.contains(qh));
        }
        match self.ring.unlink(qh) {
            Some(before) => {
                proof {
                    let at = choose|at: int|
                        0 <= at < list.len() && #[trigger] list[at] == qh && self.ring.list@
                            == list.remove(at) && before == ring::node(head, list, at);
                    lemma_out_of(list, qh, at);
                }
                let address: u32 = self.ring.qh_dma(before);
                let link: u32 = self.ring.links[before];
                port.store32(address as usize, link);
            },
            None => {},
        }
        port.barrier();
        port.flush(self.ring.base as usize);
        assert(port.log() =~= start + left_ring(old(self)@));
    }

    /// Puts a head into the schedule.
    fn enter_ring<F: FnMut(Access) -> u64>(
        &mut self,
        port: &mut Port<F>,
        qh: usize,
        maps: &Vec<TransferDma>,
    )
        requires
            old(self).sound(),
            old(port).wf(),
            qh < QH_COUNT,
            qh != old(self).ring.head,
            old(self).ring.list@ == Seq::<usize>::empty(),
        ensures
            final(self).sound(),
            final(port).wf(),
            final(port).performs() == old(port).performs(),
            final(self)@ == (Schedule { linked: seq![qh], ..old(self)@ }),
            final(self).qhs == old(self).qhs,
            final(self).qtds == old(self).qtds,
            final(self).cached == old(self).cached,
            final(port).log() == old(port).log() + entered(old(self)@, qh, maps@),
    {
        let ghost start = port.log();
        let ghost head = self.ring.head as int;
        proof {
            assert(ring::node(head, self.ring.list@, 0) == head);
        }
        self.ring.link(qh);
        assert(self.ring.list@ =~= seq![qh]);
        let head_at: u32 = self.ring.qh_dma(self.ring.head);
        let qh_address: u32 = self.ring.qh_dma(qh);
        let head_link: u32 = self.ring.links[self.ring.head];
        let qh_link: u32 = self.ring.links[qh];
        port.store32(head_at as usize, head_link);
        port.store32(qh_address as usize, qh_link);
        port.barrier();
        let ghost linked = port.log();
        let mut i: usize = 0;
        assert(linked + maps_flushed(maps@.take(0)) =~= linked);
        while i < maps.len()
            invariant
                i <= maps@.len(),
                port.wf(),
                port.performs() == old(port).performs(),
                port.log() == linked + maps_flushed(maps@.take(i as int)),
            decreases maps@.len() - i,
        {
            port.flush(maps[i].dma as usize);
            assert(port.log() =~= linked + maps_flushed(maps@.take(i + 1)));
            i += 1;
        }
        assert(maps@.take(i as int) =~= maps@);
        port.flush(self.qtd_base as usize);
        port.flush(self.ring.base as usize);
        assert(port.log() =~= start + entered(old(self)@, qh, maps@));
    }

    /// Lets a chain of transfers enter the schedule.
    pub fn submit_linked<F: FnMut(Access) -> u64>(
        &mut self,
        port: &mut Port<F>,
        request: Request,
        qtds: &Vec<usize>,
        maps: &Vec<TransferDma>,
    ) -> (result: Submission)
        requires
            old(self).wf(),
            !old(self).faulted,
            old(port).wf(),
            old(self).loose_qtds(qtds@),
        ensures
            final(self).ports == old(self).ports,
            final(self).sound(),
            final(port).wf(),
            final(port).performs() == old(port).performs(),
            port::grown(final(port).log(), old(port).log()),
            exists|w: SubmitRun| #[trigger]
                submitted(
                    w,
                    old(self)@,
                    final(self)@,
                    request,
                    qtds@,
                    maps@,
                    port::since(final(port).log(), old(port).log()),
                    result,
                ),
            match result {
                Submission::Linked(qh) => {
                    &&& !final(self).faulted
                    &&& final(self).ring.list@ == seq![qh]
                    &&& qh < QH_COUNT
                    &&& final(self).loose_qtds(qtds@)
                    &&& request.control ==> final(self).loose_qh(qh)
                },
                Submission::Refused(_) => final(self).wf(),
                Submission::Withdrawn(qh, _) => {
                    &&& final(self).wf()
                    &&& final(self).loose_qtds(qtds@)
                    &&& request.control ==> final(self).loose_qh(qh)
                },
                Submission::Kept(_) => final(self).wf() && final(self).faulted,
            },
    {
        let ghost start = port.log();
        let ghost before = self@;
        let ghost mut w: SubmitRun = arbitrary();
        if qtds.len() == 0 {
            proof {
                assert(start + Seq::<Exchange>::empty() =~= start);
                port::lemma_grown(start, Seq::empty());
                assert(submitted(
                    w,
                    before,
                    self@,
                    request,
                    qtds@,
                    maps@,
                    Seq::empty(),
                    Submission::Refused("empty qtd chain"),
                ));
            }
            return Submission::Refused("empty qtd chain");
        }
        let chosen = self.choose_qh(request);
        proof {
            w = SubmitRun { chosen: self@, qh: chosen, ..w };
        }
        let qh: usize = match chosen {
            Some(qh) => qh,
            None => {
                self.qtds.give_all(qtds);
                proof {
                    assert(start + Seq::<Exchange>::empty() =~= start);
                    port::lemma_grown(start, Seq::empty());
                    assert(submitted(
                        w,
                        before,
                        self@,
                        request,
                        qtds@,
                        maps@,
                        Seq::empty(),
                        Submission::Refused("EHCI QH pool exhausted"),
                    ));
                }
                return Submission::Refused("EHCI QH pool exhausted");
            },
        };
        let first: u32 = self.qtd_dma(qtds[0]);
        let left = self.fill_qh(port, qh, request, first);
        let token = self.chain(port, qtds);
        let ghost prepared = qh_filled(before.qh_base, qh, request, first, left@) + chained(
            before.qtd_base,
            qtds@,
            token@,
        );
        proof {
            w = SubmitRun { left: left@, token: token@, ..w };
            assert(port.log() =~= start + prepared);
        }
        let ghost before_stop = port.log();
        let stopped = stop_async(port, self.op, &mut self.faulted);
        let ghost stop_trace = port::since(port.log(), before_stop);
        proof {
            let stop = choose|stop: ScheduleRun| #[trigger]
                ehci::schedule_stopped(
                    stop,
                    before.op,
                    before.faulted,
                    stop_trace,
                    stopped,
                    self.faulted,
                );
            w = SubmitRun { stop, stop_trace, stopped, stop_faulted: self.faulted, ..w };
            assert(port.log() =~= start + (prepared + stop_trace));
            port::lemma_grown(start, prepared + stop_trace);
        }
        let refusal: Option<&'static str> = match stopped {
            Err(error) => Some(error),
            Ok(AsyncStopState::ControllerHalted) => Some("EHCI controller is halted"),
            Ok(AsyncStopState::ScheduleStopped) => None,
        };
        if let Some(error) = refusal {
            self.qtds.give_all(qtds);
            assert(submitted(
                w,
                before,
                self@,
                request,
                qtds@,
                maps@,
                prepared + stop_trace,
                Submission::Refused(error),
            ));
            return Submission::Refused(error);
        }
        self.enter_ring(port, qh, maps);
        let ghost linking = prepared + stop_trace + entered(before, qh, maps@);
        assert(port.log() =~= start + linking);
        let ghost before_start = port.log();
        let started = start_async(port, self.op, &mut self.faulted);
        let ghost start_trace = port::since(port.log(), before_start);
        proof {
            let begun = choose|begun: ScheduleRun| #[trigger]
                ehci::schedule_started(
                    begun,
                    before.op,
                    w.stop_faulted,
                    start_trace,
                    started,
                    self.faulted,
                );
            w = SubmitRun {
                start: begun,
                start_trace,
                started,
                start_faulted: self.faulted,
                ..w
            };
            assert(port.log() =~= start + (linking + start_trace));
            port::lemma_grown(start, linking + start_trace);
        }
        match started {
            Ok(_) => {
                assert(submitted(
                    w,
                    before,
                    self@,
                    request,
                    qtds@,
                    maps@,
                    linking + start_trace,
                    Submission::Linked(qh),
                ));
                Submission::Linked(qh)
            },
            Err(failure) => {
                if !failure.halted {
                    assert(submitted(
                        w,
                        before,
                        self@,
                        request,
                        qtds@,
                        maps@,
                        linking + start_trace,
                        Submission::Kept(failure.error),
                    ));
                    return Submission::Kept(failure.error);
                }
                let error: &'static str = failure.error;
                self.leave_ring(port, qh);
                proof {
                    let trace = linking + start_trace + left_ring(before);
                    assert(port.log() =~= start + trace);
                    port::lemma_grown(start, trace);
                    assert(self@.linked =~= w.chosen.linked);
                    assert(submitted(
                        w,
                        before,
                        self@,
                        request,
                        qtds@,
                        maps@,
                        trace,
                        Submission::Withdrawn(qh, error),
                    ));
                }
                Submission::Withdrawn(qh, error)
            },
        }
    }
}

/// How a transfer left the schedule.
pub ghost struct WithdrawRun {
    pub stop: ScheduleRun,
    pub stop_trace: Seq<Exchange>,
    pub stopped: Result<AsyncStopState, &'static str>,
    pub stop_faulted: bool,
    pub start: ScheduleRun,
    pub start_trace: Seq<Exchange>,
}

/// Whether the only transfer left the schedule so. The schedule goes on without it
/// if the controller still runs. A controller that does not stop keeps the transfer
/// and counts as faulted.
pub open spec fn withdrawn(
    w: WithdrawRun,
    before: Schedule,
    after: Schedule,
    trace: Seq<Exchange>,
    state: Result<AsyncStopState, &'static str>,
    restarted: Result<(), StartFailure>,
) -> bool {
    let out = w.stop_trace + left_ring(before);
    &&& ehci::schedule_stopped(
        w.stop,
        before.op,
        before.faulted,
        w.stop_trace,
        w.stopped,
        w.stop_faulted,
    )
    &&& state == w.stopped
    &&& match w.stopped {
        Err(error) => {
            &&& after == (Schedule { faulted: true, ..before })
            &&& trace == w.stop_trace
            &&& restarted == Ok::<(), StartFailure>(())
        },
        Ok(AsyncStopState::ControllerHalted) => {
            &&& after == (Schedule { linked: Seq::empty(), faulted: w.stop_faulted, ..before })
            &&& trace == out
            &&& restarted == Ok::<(), StartFailure>(())
        },
        Ok(AsyncStopState::ScheduleStopped) => {
            &&& ehci::schedule_started(
                w.start,
                before.op,
                w.stop_faulted,
                w.start_trace,
                restarted,
                after.faulted,
            )
            &&& after == (Schedule { linked: Seq::empty(), faulted: after.faulted, ..before })
            &&& trace == out + w.start_trace
        },
    }
}

/// What the controller left in mapped payloads is made visible and read.
pub open spec fn maps_read(
    maps: Seq<TransferDma>,
    loads: Seq<Seq<u8>>,
    successful: bool,
) -> Seq<Exchange>
    decreases maps.len(),
{
    if maps.len() == 0 {
        Seq::empty()
    } else {
        maps_read(maps.drop_last(), loads.drop_last(), successful) + seq![
            port::refreshed(maps.last().dma as usize),
        ] + (if maps.last().copied(successful) {
            port::bytes_loaded(maps.last().dma as int, loads.last())
        } else {
            Seq::empty()
        })
    }
}

/// Data with some bytes replaced from an offset on.
pub open spec fn patched(data: Seq<u8>, offset: int, bytes: Seq<u8>) -> Seq<u8> {
    Seq::new(
        data.len(),
        |i: int|
            if offset <= i < offset + bytes.len() {
                bytes[i - offset]
            } else {
                data[i]
            },
    )
}

/// The data with what was read from mapped payloads.
pub open spec fn data_read(
    maps: Seq<TransferDma>,
    loads: Seq<Seq<u8>>,
    successful: bool,
    data: Seq<u8>,
) -> Seq<u8>
    decreases maps.len(),
{
    if maps.len() == 0 {
        data
    } else {
        let earlier = data_read(maps.drop_last(), loads.drop_last(), successful, data);
        if maps.last().copied(successful) {
            patched(earlier, maps.last().offset as int, loads.last())
        } else {
            earlier
        }
    }
}

/// Whether each payload that goes back to the caller is within its data.
pub open spec fn maps_fit(maps: Seq<TransferDma>, len: int) -> bool {
    forall|i: int|
        0 <= i < maps.len() ==> ((#[trigger] maps[i]).from_device ==> maps[i].offset + maps[i].len
            <= len)
}

/// Whether what was read is as long as the payloads.
pub open spec fn loads_fit(maps: Seq<TransferDma>, loads: Seq<Seq<u8>>, successful: bool) -> bool {
    &&& loads.len() == maps.len()
    &&& forall|i: int|
        0 <= i < maps.len() ==> ((#[trigger] maps[i]).copied(successful) ==> loads[i].len()
            == maps[i].len)
}

/// Whether a transfer was reclaimed so.
pub open spec fn reclaimed(
    loads: Seq<Seq<u8>>,
    before: Schedule,
    after: Schedule,
    qh: Option<usize>,
    qtds: Seq<usize>,
    maps: Seq<TransferDma>,
    successful: bool,
    data: Seq<u8>,
    data_after: Seq<u8>,
    trace: Seq<Exchange>,
) -> bool {
    &&& loads_fit(maps, loads, successful)
    &&& trace == maps_read(maps, loads, successful) + maps_released(maps)
    &&& data_after == data_read(maps, loads, successful, data)
    &&& after == (Schedule {
        qtds: before.qtds + qtds,
        qhs: if qh is Some {
            before.qhs.push(qh->0)
        } else {
            before.qhs
        },
        ..before
    })
}

/// Replaces some bytes of data.
fn patch(data: &mut Vec<u8>, offset: usize, bytes: &Vec<u8>)
    requires
        offset + bytes.len() <= old(data).len(),
    ensures
        final(data)@ == patched(old(data)@, offset as int, bytes@),
{
    let ghost before = data@;
    let mut i: usize = 0;
    assert(data@ =~= patched(before, offset as int, bytes@.take(0)));
    while i < bytes.len()
        invariant
            i <= bytes@.len(),
            offset + bytes.len() <= data.len(),
            data@.len() == before.len(),
            data@ == patched(before, offset as int, bytes@.take(i as int)),
        decreases bytes@.len() - i,
    {
        data.set(offset + i, bytes[i]);
        assert(data@ =~= patched(before, offset as int, bytes@.take(i + 1)));
        i += 1;
    }
    assert(bytes@.take(i as int) =~= bytes@);
}

impl EhciState {
    /// Takes the only transfer out of the schedule.
    fn withdraw<F: FnMut(Access) -> u64>(&mut self, port: &mut Port<F>, qh: usize) -> (result: (
        Result<AsyncStopState, &'static str>,
        Result<(), StartFailure>,
    ))
        requires
            old(self).sound(),
            !old(self).faulted,
            old(port).wf(),
            qh < QH_COUNT,
            old(self).ring.list@ == seq![qh],
        ensures
            final(self).ports == old(self).ports,
            final(self).wf(),
            final(port).wf(),
            final(port).performs() == old(port).performs(),
            final(self).qhs == old(self).qhs,
            final(self).qtds == old(self).qtds,
            final(self).cached == old(self).cached,
            final(self).ring.head == old(self).ring.head,
            port::grown(final(port).log(), old(port).log()),
            ({
                let (state, restarted) = result;
                exists|w: WithdrawRun| #[trigger]
                    withdrawn(
                        w,
                        old(self)@,
                        final(self)@,
                        port::since(final(port).log(), old(port).log()),
                        state,
                        restarted,
                    )
            }),
    {
        let ghost start = port.log();
        let ghost before = self@;
        let ghost mut w: WithdrawRun = arbitrary();
        let stopped = stop_async(port, self.op, &mut self.faulted);
        let ghost stop_trace = port::since(port.log(), start);
        proof {
            let stop = choose|stop: ScheduleRun| #[trigger]
                ehci::schedule_stopped(
                    stop,
                    before.op,
                    before.faulted,
                    stop_trace,
                    stopped,
                    self.faulted,
                );
            w = WithdrawRun { stop, stop_trace, stopped, stop_faulted: self.faulted, ..w };
        }
        let restarted: Result<(), StartFailure> = Ok(());
        let state: AsyncStopState = match stopped {
            Ok(state) => state,
            Err(error) => {
                self.faulted = true;
                assert(withdrawn(w, before, self@, stop_trace, stopped, restarted));
                return (stopped, restarted);
            },
        };
        self.leave_ring(port, qh);
        let ghost out = stop_trace + left_ring(before);
        proof {
            assert(port.log() =~= start + out);
            port::lemma_grown(start, out);
        }
        match state {
            AsyncStopState::ControllerHalted => {
                assert(withdrawn(w, before, self@, out, stopped, restarted));
                (stopped, restarted)
            },
            AsyncStopState::ScheduleStopped => {
                let ghost before_start = port.log();
                let restarted = start_async(port, self.op, &mut self.faulted);
                proof {
                    let start_trace = port::since(port.log(), before_start);
                    let begun = choose|begun: ScheduleRun| #[trigger]
                        ehci::schedule_started(
                            begun,
                            before.op,
                            w.stop_faulted,
                            start_trace,
                            restarted,
                            self.faulted,
                        );
                    w = WithdrawRun { start: begun, start_trace, ..w };
                    let trace = out + start_trace;
                    assert(port.log() =~= start + trace);
                    port::lemma_grown(start, trace);
                    assert(withdrawn(w, before, self@, trace, stopped, restarted));
                }
                (stopped, restarted)
            },
        }
    }

    /// Gives everything that a transfer used back, and its data to the caller.
    fn reclaim_transfer<F: FnMut(Access) -> u64>(
        &mut self,
        port: &mut Port<F>,
        qh: Option<usize>,
        qtds: &Vec<usize>,
        maps: &Vec<TransferDma>,
        successful: bool,
        data: &mut Vec<u8>,
    )
        requires
            old(self).wf(),
            old(port).wf(),
            old(self).loose_qtds(qtds@),
            qh is Some ==> old(self).loose_qh(qh->0),
            maps_fit(maps@, old(data)@.len() as int),
        ensures
            final(self).ports == old(self).ports,
            final(self).wf(),
            final(port).wf(),
            final(port).performs() == old(port).performs(),
            final(data)@.len() == old(data)@.len(),
            port::grown(final(port).log(), old(port).log()),
            exists|loads: Seq<Seq<u8>>| #[trigger]
                reclaimed(
                    loads,
                    old(self)@,
                    final(self)@,
                    qh,
                    qtds@,
                    maps@,
                    successful,
                    old(data)@,
                    final(data)@,
                    port::since(final(port).log(), old(port).log()),
                ),
    {
        let ghost start = port.log();
        let ghost before = self@;
        let ghost mut loads: Seq<Seq<u8>> = Seq::empty();
        let mut i: usize = 0;
        assert(maps@.take(0) =~= Seq::<TransferDma>::empty());
        assert(start + maps_read(maps@.take(0), loads, successful) =~= start);
        while i < maps.len()
            invariant
                i <= maps@.len(),
                port.wf(),
                port.performs() == old(port).performs(),
                data@.len() == old(data)@.len(),
                maps_fit(maps@, data@.len() as int),
                loads_fit(maps@.take(i as int), loads, successful),
                port.log() == start + maps_read(maps@.take(i as int), loads, successful),
                data@ == data_read(maps@.take(i as int), loads, successful, old(data)@),
            decreases maps@.len() - i,
        {
            let mapping = maps[i];
            let ghost earlier = loads;
            let ghost log_before = port.log();
            port.refresh(mapping.dma as usize);
            let mut bytes: Vec<u8> = Vec::new();
            if mapping.from_device && (mapping.borrowed || successful) {
                bytes = port.load_bytes(mapping.dma, mapping.len);
                patch(data, mapping.offset, &bytes);
            }
            proof {
                loads = loads.push(bytes@);
                let upto = maps@.take(i + 1);
                assert(upto.drop_last() =~= maps@.take(i as int));
                assert(loads.drop_last() =~= earlier);
                assert(upto.last() == mapping);
                assert(port.log() =~= start + maps_read(upto, loads, successful));
                assert forall|k: int|
                    0 <= k < upto.len() && (#[trigger] upto[k]).copied(successful) implies loads[k].len()
                    == upto[k].len by {
                    if k < i {
                        assert(upto[k] == maps@.take(i as int)[k]);
                        assert(loads[k] == earlier[k]);
                    }
                }
            }
            i += 1;
        }
        assert(maps@.take(i as int) =~= maps@);
        let ghost read = port.log();
        self.qtds.give_all(qtds);
        if let Some(index) = qh {
            let ghost earlier = self.qhs;
            self.qhs.give(index);
            proof {
                assert forall|free: usize| self.qhs.is_free(free) implies earlier.is_free(free)
                    || free == index by {
                    let k = choose|k: int|
                        0 <= k < self.qhs.free@.len() && self.qhs.free@[k] == free;
                    if k < earlier.free@.len() {
                        assert(earlier.free@[k] == free);
                    }
                }
            }
        }
        let mut k: usize = 0;
        assert(read + maps_released(maps@.take(0)) =~= read);
        while k < maps.len()
            invariant
                k <= maps@.len(),
                port.wf(),
                port.performs() == old(port).performs(),
                port.log() == read + maps_released(maps@.take(k as int)),
            decreases maps@.len() - k,
        {
            port.release_buffer(maps[k].dma);
            assert(port.log() =~= read + maps_released(maps@.take(k + 1)));
            k += 1;
        }
        proof {
            assert(maps@.take(k as int) =~= maps@);
            let trace = maps_read(maps@, loads, successful) + maps_released(maps@);
            assert(port.log() =~= start + trace);
            port::lemma_grown(start, trace);
            assert(reclaimed(
                loads,
                before,
                self@,
                qh,
                qtds@,
                maps@,
                successful,
                old(data)@,
                data@,
                trace,
            ));
        }
    }
}

/// The accesses of looks at a transfer that was still active.
pub open spec fn looks(
    qtd_base: u32,
    at: usize,
    tokens: Seq<u32>,
    times: Seq<u64>,
) -> Seq<Exchange>
    decreases tokens.len(),
{
    if tokens.len() == 0 {
        Seq::empty()
    } else {
        looks(qtd_base, at, tokens.drop_last(), times.drop_last()) + seq![
            port::refreshed(qtd_base as usize),
            port::l32(at, tokens.last()),
            port::clock(times.last()),
            port::wait(TRANSFER_POLL_NS),
        ]
    }
}

pub open spec fn active(token: u32) -> bool {
    token / regs::QTD_STS_ACTIVE % 2 == 1
}

pub open spec fn halted(token: u32) -> bool {
    token / regs::QTD_STS_HALT % 2 == 1
}

/// How many bytes of a transfer are left.
pub open spec fn left_over(token: u32) -> int {
    token as int / 0x10000 % 0x8000
}

/// How the end of a transfer was awaited.
pub ghost struct AwaitRun {
    pub began: u64,
    pub tokens: Seq<u32>,
    pub times: Seq<u64>,
    pub token: u32,
    pub now: u64,
}

/// When a transfer that began at a time is given up.
pub open spec fn deadline_of(began: u64) -> u64 {
    if began + TRANSFER_TIMEOUT_NS > u64::MAX {
        u64::MAX
    } else {
        (began + TRANSFER_TIMEOUT_NS) as u64
    }
}

/// Whether the end of a transfer was awaited so. Without an end it is given up when
/// its time is over, or after `u64::MAX` looks.
pub open spec fn awaited(
    w: AwaitRun,
    qtd_base: u32,
    at: usize,
    trace: Seq<Exchange>,
    result: Option<u32>,
) -> bool {
    let seen = seq![port::clock(w.began)] + looks(qtd_base, at, w.tokens, w.times) + seq![
        port::refreshed(qtd_base as usize),
        port::l32(at, w.token),
    ];
    &&& w.times.len() == w.tokens.len()
    &&& w.tokens.len() <= u64::MAX
    &&& forall|i: int| 0 <= i < w.tokens.len() ==> active(#[trigger] w.tokens[i])
    &&& forall|i: int| 0 <= i < w.times.len() ==> (#[trigger] w.times[i]) < deadline_of(w.began)
    &&& if active(w.token) {
        &&& w.now >= deadline_of(w.began) || w.tokens.len() == u64::MAX
        &&& trace == seen.push(port::clock(w.now))
        &&& result == None::<u32>
    } else {
        trace == seen && result == Some(w.token)
    }
}

/// How a transfer that the controller works on came to its end.
pub ghost struct FinishRun {
    pub wait: AwaitRun,
    pub wait_trace: Seq<Exchange>,
    pub end: Option<u32>,
    pub withdraw: WithdrawRun,
    pub state: Result<AsyncStopState, &'static str>,
    pub restarted: Result<(), StartFailure>,
    pub out: Schedule,
    pub out_trace: Seq<Exchange>,
    pub token: u32,
    pub loads: Seq<Seq<u8>>,
    pub reclaim_trace: Seq<Exchange>,
}

/// What a transfer gives that left the schedule.
pub open spec fn outcome(
    end: Option<u32>,
    state: AsyncStopState,
    restarted: Result<(), StartFailure>,
    expected: usize,
    token: u32,
) -> Result<usize, &'static str> {
    match (end, restarted) {
        (_, Err(failure)) => Err(failure.error),
        (None, Ok(_)) => Err("EHCI transfer timeout"),
        (Some(end), Ok(_)) => if state == AsyncStopState::ControllerHalted {
            Err("EHCI controller is halted")
        } else if halted(end) {
            Err("EHCI transfer halted")
        } else if left_over(token) <= expected {
            Ok((expected - left_over(token)) as usize)
        } else {
            Ok(0)
        },
    }
}

/// Whether a transfer ended well.
pub open spec fn ended_well(end: Option<u32>) -> bool {
    end is Some && !halted(end->0)
}

/// Whether a transfer that the controller works on came to its end so. What it used
/// is given back once the controller has stopped, and only then.
pub open spec fn finished(
    w: FinishRun,
    before: Schedule,
    after: Schedule,
    qh: Option<usize>,
    qtds: Seq<usize>,
    maps: Seq<TransferDma>,
    expected: usize,
    data_qtd: usize,
    data: Seq<u8>,
    data_after: Seq<u8>,
    trace: Seq<Exchange>,
    result: Result<usize, &'static str>,
) -> bool {
    let at = (transfer::qtd_at(before.qtd_base, qtds.last() as int) + 8) as usize;
    let data_at = (transfer::qtd_at(before.qtd_base, data_qtd as int) + 8) as usize;
    &&& awaited(w.wait, before.qtd_base, at, w.wait_trace, w.end)
    &&& withdrawn(w.withdraw, before, w.out, w.out_trace, w.state, w.restarted)
    &&& match w.state {
        Err(error) => {
            &&& after == w.out
            &&& data_after == data
            &&& trace == w.wait_trace + w.out_trace
            &&& result == Err::<usize, &'static str>(error)
        },
        Ok(state) => {
            &&& reclaimed(
                w.loads,
                w.out,
                after,
                qh,
                qtds,
                maps,
                ended_well(w.end),
                data,
                data_after,
                w.reclaim_trace,
            )
            &&& trace == w.wait_trace + w.out_trace + (if ended_well(w.end) {
                seq![port::l32(data_at, w.token)]
            } else {
                Seq::empty()
            }) + w.reclaim_trace
            &&& result == outcome(w.end, state, w.restarted, expected, w.token)
        },
    }
}

/// Whether no memory that a device reaches is given back.
pub open spec fn keeps_buffers(trace: Seq<Exchange>) -> bool {
    forall|i: int| 0 <= i < trace.len() ==> !((#[trigger] trace[i]).access is ReleaseBuffer)
}

pub(crate) proof fn lemma_keeps_both(left: Seq<Exchange>, right: Seq<Exchange>)
    requires
        keeps_buffers(left),
        keeps_buffers(right),
    ensures
        keeps_buffers(left + right),
{
    assert forall|i: int| 0 <= i < (left + right).len() implies !((#[trigger] (left
        + right)[i]).access is ReleaseBuffer) by {
        if i < left.len() {
            assert((left + right)[i] == left[i]);
        } else {
            assert((left + right)[i] == right[i - left.len()]);
        }
    }
}

/// Whether no memory that is shared with a device is written.
pub open spec fn stores_nothing(trace: Seq<Exchange>) -> bool {
    forall|i: int| 0 <= i < trace.len() ==> !((#[trigger] trace[i]).access is Store32)
}

proof fn lemma_stores_neither(left: Seq<Exchange>, right: Seq<Exchange>)
    requires
        stores_nothing(left),
        stores_nothing(right),
    ensures
        stores_nothing(left + right),
{
    assert forall|i: int| 0 <= i < (left + right).len() implies !((#[trigger] (left
        + right)[i]).access is Store32) by {
        if i < left.len() {
            assert((left + right)[i] == left[i]);
        } else {
            assert((left + right)[i] == right[i - left.len()]);
        }
    }
}

proof fn lemma_halt_keeps(
    w: ehci::HaltRun,
    op: usize,
    trace: Seq<Exchange>,
    result: Result<(), &'static str>,
)
    requires
        ehci::was_halted(w, op, trace, result),
    ensures
        keeps_buffers(trace),
        stores_nothing(trace),
{
    let sts = (op + regs::EHCI_USBSTS) as usize;
    port::poll_is_bounded(
        ehci::paced(
            sts,
            ehci::any_set(regs::EHCI_STS_HCHALTED as u64),
            ehci::HALT_TIMEOUT_LOOPS,
            1_000,
        ),
        w.poll,
        w.ended,
    );
}

proof fn lemma_stop_keeps(
    w: ScheduleRun,
    op: usize,
    faulted: bool,
    trace: Seq<Exchange>,
    result: Result<AsyncStopState, &'static str>,
    faulted_after: bool,
)
    requires
        ehci::schedule_stopped(w, op, faulted, trace, result, faulted_after),
    ensures
        keeps_buffers(trace),
        stores_nothing(trace),
{
    if !faulted {
        let cmd = (op + regs::EHCI_USBCMD) as usize;
        let sts = (op + regs::EHCI_USBSTS) as usize;
        port::poll_is_bounded(
            ehci::paced(
                sts,
                ehci::all_clear(regs::EHCI_STS_ASS as u64),
                ehci::SCHEDULE_TIMEOUT_LOOPS,
                100,
            ),
            w.poll,
            w.ended,
        );
        let asked = seq![port::r32(cmd, w.command), port::w32(cmd, w.command & 0xffff_ffdf)]
            + w.poll;
        assert(keeps_buffers(asked));
        assert(stores_nothing(asked));
        if w.ended is None {
            lemma_halt_keeps(w.halt, op, w.halt_trace, w.halted);
            lemma_keeps_both(asked, w.halt_trace);
            lemma_stores_neither(asked, w.halt_trace);
        }
    }
}

proof fn lemma_start_keeps(
    w: ScheduleRun,
    op: usize,
    faulted: bool,
    trace: Seq<Exchange>,
    result: Result<(), StartFailure>,
    faulted_after: bool,
)
    requires
        ehci::schedule_started(w, op, faulted, trace, result, faulted_after),
    ensures
        keeps_buffers(trace),
        stores_nothing(trace),
{
    if !faulted {
        let cmd = (op + regs::EHCI_USBCMD) as usize;
        let sts = (op + regs::EHCI_USBSTS) as usize;
        port::poll_is_bounded(
            ehci::paced(
                sts,
                ehci::any_set(regs::EHCI_STS_ASS as u64),
                ehci::SCHEDULE_TIMEOUT_LOOPS,
                100,
            ),
            w.poll,
            w.ended,
        );
        let asked = seq![port::r32(cmd, w.command), port::w32(cmd, w.command | 0x20)] + w.poll;
        assert(keeps_buffers(asked));
        assert(stores_nothing(asked));
        if w.ended is None {
            lemma_halt_keeps(w.halt, op, w.halt_trace, w.halted);
            lemma_keeps_both(asked, w.halt_trace);
            lemma_stores_neither(asked, w.halt_trace);
        }
    }
}

proof fn lemma_looks_keep(qtd_base: u32, at: usize, tokens: Seq<u32>, times: Seq<u64>)
    ensures
        keeps_buffers(looks(qtd_base, at, tokens, times)),
    decreases tokens.len(),
{
    if tokens.len() > 0 {
        let earlier = looks(qtd_base, at, tokens.drop_last(), times.drop_last());
        let last = seq![
            port::refreshed(qtd_base as usize),
            port::l32(at, tokens.last()),
            port::clock(times.last()),
            port::wait(TRANSFER_POLL_NS),
        ];
        lemma_looks_keep(qtd_base, at, tokens.drop_last(), times.drop_last());
        assert(keeps_buffers(last));
        lemma_keeps_both(earlier, last);
    }
}

proof fn lemma_wait_keeps(
    w: AwaitRun,
    qtd_base: u32,
    at: usize,
    trace: Seq<Exchange>,
    result: Option<u32>,
)
    requires
        awaited(w, qtd_base, at, trace, result),
    ensures
        keeps_buffers(trace),
{
    let first = seq![port::clock(w.began)];
    let middle = looks(qtd_base, at, w.tokens, w.times);
    let last = seq![port::refreshed(qtd_base as usize), port::l32(at, w.token)];
    lemma_looks_keep(qtd_base, at, w.tokens, w.times);
    assert(keeps_buffers(first) && keeps_buffers(last));
    lemma_keeps_both(first, middle);
    lemma_keeps_both(first + middle, last);
}

proof fn lemma_withdraw_keeps(
    w: WithdrawRun,
    before: Schedule,
    after: Schedule,
    trace: Seq<Exchange>,
    state: Result<AsyncStopState, &'static str>,
    restarted: Result<(), StartFailure>,
)
    requires
        withdrawn(w, before, after, trace, state, restarted),
    ensures
        keeps_buffers(trace),
{
    lemma_stop_keeps(
        w.stop,
        before.op,
        before.faulted,
        w.stop_trace,
        w.stopped,
        w.stop_faulted,
    );
    assert(keeps_buffers(left_ring(before)));
    lemma_keeps_both(w.stop_trace, left_ring(before));
    if w.stopped == Ok::<AsyncStopState, &'static str>(AsyncStopState::ScheduleStopped) {
        lemma_start_keeps(
            w.start,
            before.op,
            w.stop_faulted,
            w.start_trace,
            restarted,
            after.faulted,
        );
        lemma_keeps_both(w.stop_trace + left_ring(before), w.start_trace);
    }
}

/// The memory of a transfer is given back only after the controller was stopped for
/// it and the transfer was taken out; if the controller does not stop, none is.
pub proof fn memory_outlives_transfer(
    w: FinishRun,
    before: Schedule,
    after: Schedule,
    qh: Option<usize>,
    qtds: Seq<usize>,
    maps: Seq<TransferDma>,
    expected: usize,
    data_qtd: usize,
    data: Seq<u8>,
    data_after: Seq<u8>,
    trace: Seq<Exchange>,
    result: Result<usize, &'static str>,
    i: int,
)
    requires
        finished(
            w,
            before,
            after,
            qh,
            qtds,
            maps,
            expected,
            data_qtd,
            data,
            data_after,
            trace,
            result,
        ),
        0 <= i < trace.len(),
        trace[i].access is ReleaseBuffer,
    ensures
        withdrawn(w.withdraw, before, w.out, w.out_trace, w.state, w.restarted),
        w.state is Ok,
        w.out.linked == Seq::<usize>::empty(),
        i >= w.wait_trace.len() + w.out_trace.len(),
{
    let at = (transfer::qtd_at(before.qtd_base, qtds.last() as int) + 8) as usize;
    lemma_wait_keeps(w.wait, before.qtd_base, at, w.wait_trace, w.end);
    lemma_withdraw_keeps(w.withdraw, before, w.out, w.out_trace, w.state, w.restarted);
    lemma_keeps_both(w.wait_trace, w.out_trace);
    let first = w.wait_trace + w.out_trace;
    if i < first.len() {
        assert(trace[i] == first[i]);
    }
}

/// If the schedule does not start and the controller does not say that it halted, no
/// memory of the transfer is given back, it stays in the schedule, and the controller
/// counts as faulted from then on.
pub proof fn memory_outlives_failed_start(
    w: TransferRun,
    before: Schedule,
    after: Schedule,
    request: Request,
    qtds: Seq<usize>,
    maps: Seq<TransferDma>,
    data_qtd: usize,
    data: Seq<u8>,
    data_after: Seq<u8>,
    trace: Seq<Exchange>,
    result: Result<usize, &'static str>,
)
    requires
        transferred(
            w,
            before,
            after,
            request,
            qtds,
            maps,
            data_qtd,
            data,
            data_after,
            trace,
            result,
        ),
        w.submission is Kept,
    ensures
        keeps_buffers(trace),
        after.faulted,
        after.linked.len() == 1,
        after.qtds == w.submit.chosen.qtds,
        result is Err,
{
    reveal(transferred);
    let run = w.submit;
    let qh = run.qh->0;
    let first = transfer::qtd_at(before.qtd_base, qtds[0] as int);
    let filled = qh_filled(before.qh_base, qh, request, first, run.left);
    let links = chained(before.qtd_base, qtds, run.token);
    let ready = prepared(run, before, request, qh, qtds);
    assert(keeps_buffers(filled));
    assert(keeps_buffers(links));
    lemma_keeps_both(filled, links);
    lemma_stop_keeps(
        run.stop,
        before.op,
        before.faulted,
        run.stop_trace,
        run.stopped,
        run.stop_faulted,
    );
    lemma_keeps_both(ready, run.stop_trace);
    assert(keeps_buffers(entered(before, qh, maps)));
    lemma_keeps_both(ready + run.stop_trace, entered(before, qh, maps));
    lemma_start_keeps(
        run.start,
        before.op,
        run.stop_faulted,
        run.start_trace,
        run.started,
        run.start_faulted,
    );
    lemma_keeps_both(
        ready + run.stop_trace + entered(before, qh, maps),
        run.start_trace,
    );
}

/// The schedule changes only while the controller does not walk it. Once a transfer
/// is prepared, outside the schedule, memory is written only after the controller
/// said that the schedule is stopped and before it is told to start it again; or
/// after that, if it did not start it.
pub proof fn entering_needs_stopped_schedule(
    w: SubmitRun,
    before: Schedule,
    after: Schedule,
    request: Request,
    qtds: Seq<usize>,
    maps: Seq<TransferDma>,
    trace: Seq<Exchange>,
    result: Submission,
    qh: usize,
    i: int,
)
    requires
        submitted(w, before, after, request, qtds, maps, trace, result),
        w.qh == Some(qh),
        prepared(w, before, request, qh, qtds).len() <= i < trace.len(),
        trace[i].access is Store32,
    ensures
        w.stopped == Ok::<AsyncStopState, &'static str>(AsyncStopState::ScheduleStopped),
        ({
            let first = prepared(w, before, request, qh, qtds) + w.stop_trace;
            let linking = first + entered(before, qh, maps);
            &&& first.len() <= i
            &&& i < linking.len() || (w.started is Err && i >= linking.len() + w.start_trace.len())
        }),
{
    lemma_stop_keeps(w.stop, before.op, before.faulted, w.stop_trace, w.stopped, w.stop_faulted);
    let ready = prepared(w, before, request, qh, qtds);
    let first = ready + w.stop_trace;
    let linking = first + entered(before, qh, maps);
    if i < first.len() {
        assert(trace[i] == first[i]);
        assert(first[i] == w.stop_trace[i - ready.len()]);
    }
    if w.stopped == Ok::<AsyncStopState, &'static str>(AsyncStopState::ScheduleStopped) {
        lemma_start_keeps(
            w.start,
            before.op,
            w.stop_faulted,
            w.start_trace,
            w.started,
            w.start_faulted,
        );
        if linking.len() <= i < linking.len() + w.start_trace.len() {
            assert(trace[i] == (linking + w.start_trace)[i]);
            assert((linking + w.start_trace)[i] == w.start_trace[i - linking.len()]);
        }
    }
}

/// A transfer leaves the schedule only while the controller does not walk it: memory
/// is written only after the controller said that it stopped, and before it is told
/// to go on.
pub proof fn leaving_needs_stopped_schedule(
    w: WithdrawRun,
    before: Schedule,
    after: Schedule,
    trace: Seq<Exchange>,
    state: Result<AsyncStopState, &'static str>,
    restarted: Result<(), StartFailure>,
    i: int,
)
    requires
        withdrawn(w, before, after, trace, state, restarted),
        0 <= i < trace.len(),
        trace[i].access is Store32,
    ensures
        state is Ok,
        w.stop_trace.len() <= i < w.stop_trace.len() + left_ring(before).len(),
{
    lemma_stop_keeps(w.stop, before.op, before.faulted, w.stop_trace, w.stopped, w.stop_faulted);
    let out = w.stop_trace + left_ring(before);
    if i < w.stop_trace.len() {
        assert(trace[i] == w.stop_trace[i]);
    }
    if w.stopped == Ok::<AsyncStopState, &'static str>(AsyncStopState::ScheduleStopped) {
        lemma_start_keeps(
            w.start,
            before.op,
            w.stop_faulted,
            w.start_trace,
            restarted,
            after.faulted,
        );
        if i >= out.len() {
            assert(trace[i] == w.start_trace[i - out.len()]);
        }
    }
}

/// How a transfer went.
pub ghost struct TransferRun {
    pub submit: SubmitRun,
    pub submission: Submission,
    pub submit_trace: Seq<Exchange>,
    pub linked: Schedule,
    pub finish: FinishRun,
    pub finish_trace: Seq<Exchange>,
    pub loads: Seq<Seq<u8>>,
    pub reclaim_trace: Seq<Exchange>,
}

/// The head that goes back to the free ones after a transfer.
pub open spec fn spare(request: Request, qh: usize) -> Option<usize> {
    if request.control {
        Some(qh)
    } else {
        None
    }
}

/// Whether a transfer went so.
#[verifier::opaque]
pub open spec fn transferred(
    w: TransferRun,
    before: Schedule,
    after: Schedule,
    request: Request,
    qtds: Seq<usize>,
    maps: Seq<TransferDma>,
    data_qtd: usize,
    data: Seq<u8>,
    data_after: Seq<u8>,
    trace: Seq<Exchange>,
    result: Result<usize, &'static str>,
) -> bool {
    &&& submitted(w.submit, before, w.linked, request, qtds, maps, w.submit_trace, w.submission)
    &&& match w.submission {
        Submission::Refused(error) => {
            &&& after == w.linked
            &&& data_after == data
            &&& trace == w.submit_trace + maps_released(maps)
            &&& result == Err::<usize, &'static str>(error)
        },
        Submission::Kept(error) => {
            &&& after == w.linked
            &&& data_after == data
            &&& trace == w.submit_trace
            &&& result == Err::<usize, &'static str>(error)
        },
        Submission::Withdrawn(qh, error) => {
            &&& reclaimed(
                w.loads,
                w.linked,
                after,
                spare(request, qh),
                qtds,
                maps,
                false,
                data,
                data_after,
                w.reclaim_trace,
            )
            &&& trace == w.submit_trace + w.reclaim_trace
            &&& result == Err::<usize, &'static str>(error)
        },
        Submission::Linked(qh) => {
            &&& finished(
                w.finish,
                w.linked,
                after,
                spare(request, qh),
                qtds,
                maps,
                data.len() as usize,
                data_qtd,
                data,
                data_after,
                w.finish_trace,
                result,
            )
            &&& trace == w.submit_trace + w.finish_trace
        },
    }
}

impl EhciState {
    /// Waits until a transfer is not active any more.
    fn await_end<F: FnMut(Access) -> u64>(&self, port: &mut Port<F>, at: usize) -> (result: Option<
        u32,
    >)
        requires
            old(port).wf(),
        ensures
            final(port).wf(),
            final(port).performs() == old(port).performs(),
            port::grown(final(port).log(), old(port).log()),
            exists|w: AwaitRun| #[trigger]
                awaited(
                    w,
                    self.qtd_base,
                    at,
                    port::since(final(port).log(), old(port).log()),
                    result,
                ),
            result is Some ==> !active(result->0),
    {
        let ghost start = port.log();
        let began: u64 = port.now();
        let deadline: u64 = began.saturating_add(TRANSFER_TIMEOUT_NS);
        let ghost mut tokens: Seq<u32> = Seq::empty();
        let ghost mut times: Seq<u64> = Seq::empty();
        let ghost head = seq![port::clock(began)];
        let mut round: u64 = 0;
        assert(port.log() =~= start + (head + looks(self.qtd_base, at, tokens, times)));
        loop
            invariant
                port.wf(),
                port.performs() == old(port).performs(),
                head == seq![port::clock(began)],
                deadline == deadline_of(began),
                tokens.len() == round,
                times.len() == round,
                forall|i: int| 0 <= i < tokens.len() ==> active(#[trigger] tokens[i]),
                forall|i: int| 0 <= i < times.len() ==> (#[trigger] times[i]) < deadline,
                port.log() == start + (head + looks(self.qtd_base, at, tokens, times)),
                start == old(port).log(),
            decreases u64::MAX - round,
        {
            port.refresh(self.qtd_base as usize);
            let token: u32 = port.load32(at);
            let ghost seen = head + looks(self.qtd_base, at, tokens, times) + seq![
                port::refreshed(self.qtd_base as usize),
                port::l32(at, token),
            ];
            assert(port.log() =~= start + seen);
            if token / regs::QTD_STS_ACTIVE % 2 == 0 {
                proof {
                    let w = AwaitRun { began, tokens, times, token, now: 0 };
                    port::lemma_grown(start, seen);
                    assert(awaited(w, self.qtd_base, at, seen, Some(token)));
                }
                return Some(token);
            }
            let now: u64 = port.now();
            if now >= deadline || round == u64::MAX {
                proof {
                    let w = AwaitRun { began, tokens, times, token, now };
                    let trace = seen.push(port::clock(now));
                    assert(port.log() =~= start + trace);
                    port::lemma_grown(start, trace);
                    assert(awaited(w, self.qtd_base, at, trace, None));
                }
                return None;
            }
            port.delay(TRANSFER_POLL_NS);
            proof {
                let earlier = tokens;
                let earlier_times = times;
                tokens = tokens.push(token);
                times = times.push(now);
                assert(tokens.drop_last() =~= earlier);
                assert(times.drop_last() =~= earlier_times);
                assert(port.log() =~= start + (head + looks(self.qtd_base, at, tokens, times)));
            }
            round += 1;
        }
    }

    /// Waits for the end of the transfer that the controller works on.
    fn poll_completion<F: FnMut(Access) -> u64>(
        &mut self,
        port: &mut Port<F>,
        qh: usize,
        spare_qh: Option<usize>,
        qtds: &Vec<usize>,
        maps: &Vec<TransferDma>,
        data_qtd: usize,
        data: &mut Vec<u8>,
    ) -> (result: Result<usize, &'static str>)
        requires
            old(self).sound(),
            !old(self).faulted,
            old(port).wf(),
            qh < QH_COUNT,
            old(self).ring.list@ == seq![qh],
            spare_qh is Some ==> spare_qh == Some(qh) && old(self).loose_qh(qh),
            qtds@.len() > 0,
            old(self).loose_qtds(qtds@),
            data_qtd < QTD_COUNT,
            maps_fit(maps@, old(data)@.len() as int),
        ensures
            final(self).ports == old(self).ports,
            final(self).wf(),
            final(port).wf(),
            final(port).performs() == old(port).performs(),
            final(data)@.len() == old(data)@.len(),
            port::grown(final(port).log(), old(port).log()),
            exists|w: FinishRun| #[trigger]
                finished(
                    w,
                    old(self)@,
                    final(self)@,
                    spare_qh,
                    qtds@,
                    maps@,
                    old(data)@.len() as usize,
                    data_qtd,
                    old(data)@,
                    final(data)@,
                    port::since(final(port).log(), old(port).log()),
                    result,
                ),
    {
        let ghost start = port.log();
        let ghost before = self@;
        let ghost given = data@;
        let ghost mut w: FinishRun = arbitrary();
        let expected: usize = data.len();
        assert(expected == old(data)@.len() as usize);
        let last: u32 = self.qtd_dma(qtds[qtds.len() - 1]);
        let at: usize = (last + 8) as usize;
        let end = self.await_end(port, at);
        let ghost wait_trace = port::since(port.log(), start);
        proof {
            let wait = choose|wait: AwaitRun| #[trigger]
                awaited(wait, self.qtd_base, at, wait_trace, end);
            w = FinishRun { wait, wait_trace, end, ..w };
        }
        let ghost before_out = port.log();
        let (state, restarted) = self.withdraw(port, qh);
        let ghost out_trace = port::since(port.log(), before_out);
        proof {
            let withdraw = choose|run: WithdrawRun| #[trigger]
                withdrawn(run, before, self@, out_trace, state, restarted);
            w = FinishRun { withdraw, out: self@, out_trace, state, restarted, ..w };
            assert(port.log() =~= start + (wait_trace + out_trace));
            port::lemma_grown(start, wait_trace + out_trace);
        }
        let stop_state: AsyncStopState = match state {
            Ok(state) => state,
            Err(error) => {
                assert(finished(
                    w,
                    before,
                    self@,
                    spare_qh,
                    qtds@,
                    maps@,
                    expected,
                    data_qtd,
                    given,
                    data@,
                    wait_trace + out_trace,
                    Err(error),
                ));
                return Err(error);
            },
        };
        let well: bool = match end {
            Some(token) => token / regs::QTD_STS_HALT % 2 == 0,
            None => false,
        };
        let mut token: u32 = 0;
        if well {
            let data_at: u32 = self.qtd_dma(data_qtd);
            token = port.load32((data_at + 8) as usize);
        }
        let ghost middle = wait_trace + out_trace + (if well {
            seq![
                port::l32(
                    (transfer::qtd_at(before.qtd_base, data_qtd as int) + 8) as usize,
                    token,
                ),
            ]
        } else {
            Seq::empty()
        });
        assert(port.log() =~= start + middle);
        let ghost before_reclaim = port.log();
        self.reclaim_transfer(port, spare_qh, qtds, maps, well, data);
        let ghost reclaim_trace = port::since(port.log(), before_reclaim);
        let left: usize = (token / 0x10000 % 0x8000) as usize;
        let result: Result<usize, &'static str> = match restarted {
            Err(failure) => Err(failure.error),
            Ok(_) => match end {
                None => Err("EHCI transfer timeout"),
                Some(_) => {
                    if stop_state == AsyncStopState::ControllerHalted {
                        Err("EHCI controller is halted")
                    } else if !well {
                        Err("EHCI transfer halted")
                    } else {
                        Ok(expected.saturating_sub(left))
                    }
                },
            },
        };
        proof {
            let loads = choose|loads: Seq<Seq<u8>>| #[trigger]
                reclaimed(
                    loads,
                    w.out,
                    self@,
                    spare_qh,
                    qtds@,
                    maps@,
                    well,
                    given,
                    data@,
                    reclaim_trace,
                );
            w = FinishRun { token, loads, reclaim_trace, ..w };
            let trace = middle + reclaim_trace;
            assert(port.log() =~= start + trace);
            port::lemma_grown(start, trace);
            assert(result == outcome(end, stop_state, restarted, expected, token));
            assert(finished(
                w,
                before,
                self@,
                spare_qh,
                qtds@,
                maps@,
                expected,
                data_qtd,
                given,
                data@,
                trace,
                result,
            ));
        }
        result
    }

    /// Carries a chain of transfers out.
    pub fn run_transfer<F: FnMut(Access) -> u64>(
        &mut self,
        port: &mut Port<F>,
        request: Request,
        qtds: &Vec<usize>,
        maps: &Vec<TransferDma>,
        data_qtd: usize,
        data: &mut Vec<u8>,
    ) -> (result: Result<usize, &'static str>)
        requires
            old(self).wf(),
            !old(self).faulted,
            old(port).wf(),
            old(self).loose_qtds(qtds@),
            data_qtd < QTD_COUNT,
            maps_fit(maps@, old(data)@.len() as int),
        ensures
            final(self).ports == old(self).ports,
            final(self).wf(),
            final(port).wf(),
            final(port).performs() == old(port).performs(),
            final(data)@.len() == old(data)@.len(),
            port::grown(final(port).log(), old(port).log()),
            exists|w: TransferRun| #[trigger]
                transferred(
                    w,
                    old(self)@,
                    final(self)@,
                    request,
                    qtds@,
                    maps@,
                    data_qtd,
                    old(data)@,
                    final(data)@,
                    port::since(final(port).log(), old(port).log()),
                    result,
                ),
    {
        reveal(transferred);
        let ghost start = port.log();
        let ghost before = self@;
        let ghost given = data@;
        let ghost mut w: TransferRun = arbitrary();
        let submission = self.submit_linked(port, request, qtds, maps);
        let ghost submit_trace = port::since(port.log(), start);
        proof {
            let submit = choose|submit: SubmitRun| #[trigger]
                submitted(submit, before, self@, request, qtds@, maps@, submit_trace, submission);
            w = TransferRun { submit, submission, submit_trace, linked: self@, ..w };
        }
        let ghost middle = port.log();
        match submission {
            Submission::Refused(error) => {
                let mut k: usize = 0;
                assert(middle + maps_released(maps@.take(0)) =~= middle);
                while k < maps.len()
                    invariant
                        k <= maps@.len(),
                        port.wf(),
                        port.performs() == old(port).performs(),
                        port.log() == middle + maps_released(maps@.take(k as int)),
                    decreases maps@.len() - k,
                {
                    port.release_buffer(maps[k].dma);
                    assert(port.log() =~= middle + maps_released(maps@.take(k + 1)));
                    k += 1;
                }
                proof {
                    assert(maps@.take(k as int) =~= maps@);
                    let trace = submit_trace + maps_released(maps@);
                    assert(port.log() =~= start + trace);
                    port::lemma_grown(start, trace);
                    assert(transferred(
                        w,
                        before,
                        self@,
                        request,
                        qtds@,
                        maps@,
                        data_qtd,
                        given,
                        data@,
                        trace,
                        Err(error),
                    ));
                }
                Err(error)
            },
            Submission::Kept(error) => {
                assert(transferred(
                    w,
                    before,
                    self@,
                    request,
                    qtds@,
                    maps@,
                    data_qtd,
                    given,
                    data@,
                    submit_trace,
                    Err(error),
                ));
                Err(error)
            },
            Submission::Withdrawn(qh, error) => {
                let spare_qh: Option<usize> = if request.control {
                    Some(qh)
                } else {
                    None
                };
                self.reclaim_transfer(port, spare_qh, qtds, maps, false, data);
                proof {
                    let reclaim_trace = port::since(port.log(), middle);
                    let loads = choose|loads: Seq<Seq<u8>>| #[trigger]
                        reclaimed(
                            loads,
                            w.linked,
                            self@,
                            spare_qh,
                            qtds@,
                            maps@,
                            false,
                            given,
                            data@,
                            reclaim_trace,
                        );
                    w = TransferRun { loads, reclaim_trace, ..w };
                    let trace = submit_trace + reclaim_trace;
                    assert(port.log() =~= start + trace);
                    port::lemma_grown(start, trace);
                    assert(transferred(
                        w,
                        before,
                        self@,
                        request,
                        qtds@,
                        maps@,
                        data_qtd,
                        given,
                        data@,
                        trace,
                        Err(error),
                    ));
                }
                Err(error)
            },
            Submission::Linked(qh) => {
                let spare_qh: Option<usize> = if request.control {
                    Some(qh)
                } else {
                    None
                };
                let result = self.poll_completion(
                    port,
                    qh,
                    spare_qh,
                    qtds,
                    maps,
                    data_qtd,
                    data,
                );
                proof {
                    let finish_trace = port::since(port.log(), middle);
                    let finish = choose|finish: FinishRun| #[trigger]
                        finished(
                            finish,
                            w.linked,
                            self@,
                            spare(request, qh),
                            qtds@,
                            maps@,
                            given.len() as usize,
                            data_qtd,
                            given,
                            data@,
                            finish_trace,
                            result,
                        );
                    w = TransferRun { finish, finish_trace, ..w };
                    let trace = submit_trace + finish_trace;
                    assert(port.log() =~= start + trace);
                    port::lemma_grown(start, trace);
                    assert(transferred(
                        w,
                        before,
                        self@,
                        request,
                        qtds@,
                        maps@,
                        data_qtd,
                        given,
                        data@,
                        trace,
                        result,
                    ));
                }
                result
            },
        }
    }
}

} // verus!
