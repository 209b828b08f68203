//! The interrupt of the controller as its queue sees it.

use vstd::prelude::*;
use crate::gmac::regs;
use crate::port;
use crate::port::{Access, Exchange, Port};

verus! {

/// The number that wakes the worker of the queue.
pub const WAKE: u64 = 1;

/// What is known of the interrupt.
#[derive(Clone, Copy, PartialEq, Eq, Structural, Debug)]
pub struct GmacQueueIrq {
    pub pending: bool,
    pub masked: bool,
    /// Whether reception stopped for want of memory.
    pub rx_need_kick: bool,
    /// Whether there is a worker to wake.
    pub waker: bool,
    pub irq_total: u64,
    pub irq_mask: u64,
    pub irq_unmask: u64,
}

/// A count that wraps.
pub open spec fn counted(value: u64) -> u64 {
    if value == u64::MAX {
        0
    } else {
        (value + 1) as u64
    }
}

fn count(value: u64) -> (next: u64)
    ensures
        next == counted(value),
{
    if value == u64::MAX {
        0
    } else {
        value + 1
    }
}

/// Whether a state tells of something that the queue must look at.
pub open spec fn needs_worker(status: u32) -> bool {
    status / regs::DMA_STATUS_NIS % 2 == 1 || status / regs::DMA_STATUS_AIS % 2 == 1
}

/// Whether reception stopped for want of memory.
pub open spec fn starved(status: u32) -> bool {
    status / regs::DMA_STATUS_AIS % 2 == 1 && (status / regs::DMA_STATUS_RU % 2 == 1 || status
        / regs::DMA_STATUS_OVF % 2 == 1)
}

/// Whether sending has to be started again.
pub open spec fn stalled(status: u32) -> bool {
    status / regs::DMA_STATUS_AIS % 2 == 1 && (status / regs::DMA_STATUS_UNF % 2 == 1 || status
        / regs::DMA_STATUS_TU % 2 == 1)
}

/// The accesses by which an interrupt is handled.
pub open spec fn irq_trace(before: GmacQueueIrq, status: u32) -> Seq<Exchange> {
    let read = seq![port::r32(regs::DMA_STATUS, status)];
    if status & regs::DMA_STATUS_INTR_BITS == 0 {
        read
    } else {
        let confirmed = read.push(
            port::w32(regs::DMA_STATUS, status & regs::DMA_STATUS_INTR_BITS),
        );
        if !needs_worker(status) {
            confirmed
        } else {
            confirmed + (if stalled(status) {
                seq![port::w32(regs::DMA_XMT_POLL_DEMAND, 0)]
            } else {
                Seq::empty()
            }) + seq![port::w32(regs::DMA_INTR_ENA, 0)] + (if !before.pending && before.waker {
                seq![port::told(WAKE)]
            } else {
                Seq::empty()
            })
        }
    }
}

/// The state after an interrupt.
pub open spec fn irq_after(before: GmacQueueIrq, status: u32) -> GmacQueueIrq {
    if status & regs::DMA_STATUS_INTR_BITS == 0 {
        before
    } else if !needs_worker(status) {
        GmacQueueIrq { irq_total: counted(before.irq_total), ..before }
    } else {
        GmacQueueIrq {
            irq_total: counted(before.irq_total),
            irq_mask: counted(before.irq_mask),
            masked: true,
            pending: true,
            rx_need_kick: before.rx_need_kick || starved(status),
            ..before
        }
    }
}

/// Whether an interrupt was handled so.
pub open spec fn irq_handled(
    status: u32,
    before: GmacQueueIrq,
    after: GmacQueueIrq,
    trace: Seq<Exchange>,
    handled: bool,
) -> bool {
    &&& trace == irq_trace(before, status)
    &&& after == irq_after(before, status)
    &&& handled == (status & regs::DMA_STATUS_INTR_BITS != 0)
}

impl GmacQueueIrq {
    pub fn new() -> (irq: Self)
        ensures
            irq == (GmacQueueIrq {
                pending: false,
                masked: true,
                rx_need_kick: false,
                waker: false,
                irq_total: 0,
                irq_mask: 0,
                irq_unmask: 0,
            }),
    {
        GmacQueueIrq {
            pending: false,
            masked: true,
            rx_need_kick: false,
            waker: false,
            irq_total: 0,
            irq_mask: 0,
            irq_unmask: 0,
        }
    }

    /// Whether reception has to be started again; asked once.
    pub fn take_rx_need_kick(&mut self) -> (kick: bool)
        ensures
            kick == old(self).rx_need_kick,
            *final(self) == (GmacQueueIrq { rx_need_kick: false, ..*old(self) }),
    {
        let kick: bool = self.rx_need_kick;
        self.rx_need_kick = false;
        kick
    }

    /// Switches the interrupt off and says whether there is something to do.
    pub fn ack_and_mask<F: FnMut(Access) -> u64>(&mut self, port: &mut Port<F>) -> (work: bool)
        requires
            old(port).wf(),
        ensures
            final(port).wf(),
            final(port).performs() == old(port).performs(),
            *final(self) == (GmacQueueIrq {
                masked: true,
                pending: false,
                irq_mask: counted(old(self).irq_mask),
                ..*old(self)
            }),
            exists|status: u32|
                final(port).log() == old(port).log() + seq![
                    port::w32(regs::DMA_INTR_ENA, 0),
                    #[trigger] port::r32(regs::DMA_STATUS, status),
                ] && work == (old(self).pending || needs_worker(status)),
    {
        let ghost start = port.log();
        port.write32(regs::DMA_INTR_ENA, 0);
        self.masked = true;
        self.irq_mask = count(self.irq_mask);
        let status: u32 = port.read32(regs::DMA_STATUS);
        let observed: bool = status / regs::DMA_STATUS_NIS % 2 == 1 || status
            / regs::DMA_STATUS_AIS % 2 == 1;
        let pending: bool = self.pending;
        self.pending = false;
        assert(port.log() =~= start + seq![
            port::w32(regs::DMA_INTR_ENA, 0),
            port::r32(regs::DMA_STATUS, status),
        ]);
        pending || observed
    }

    /// Switches the interrupt on.
    pub fn unmask<F: FnMut(Access) -> u64>(&mut self, port: &mut Port<F>)
        requires
            old(port).wf(),
        ensures
            final(port).wf(),
            final(port).performs() == old(port).performs(),
            *final(self) == (GmacQueueIrq {
                masked: false,
                pending: false,
                irq_unmask: counted(old(self).irq_unmask),
                ..*old(self)
            }),
            final(port).log() == old(port).log().push(
                port::w32(regs::DMA_INTR_ENA, regs::DMA_INTR_DEFAULT_MASK),
            ),
    {
        self.pending = false;
        port.write32(regs::DMA_INTR_ENA, regs::DMA_INTR_DEFAULT_MASK);
        self.masked = false;
        self.irq_unmask = count(self.irq_unmask);
    }

    /// Remembers that there is a worker; there can be only one.
    pub fn set_waker(&mut self) -> (installed: bool)
        ensures
            installed == !old(self).waker,
            *final(self) == (GmacQueueIrq { waker: true, ..*old(self) }),
    {
        let installed: bool = !self.waker;
        self.waker = true;
        installed
    }

    pub fn clear_waker(&mut self)
        ensures
            *final(self) == (GmacQueueIrq { waker: false, ..*old(self) }),
    {
        self.waker = false;
    }

    /// How often there was an interrupt, and how often it was switched off and on.
    pub fn stats(&self) -> (stats: (u64, u64, u64))
        ensures
            stats == (self.irq_total, self.irq_mask, self.irq_unmask),
    {
        (self.irq_total, self.irq_mask, self.irq_unmask)
    }

    /// Handles an interrupt.
    pub fn handle_irq<F: FnMut(Access) -> u64>(&mut self, port: &mut Port<F>) -> (handled: bool)
        requires
            old(port).wf(),
        ensures
            final(port).wf(),
            final(port).performs() == old(port).performs(),
            port::grown(final(port).log(), old(port).log()),
            exists|status: u32| #[trigger]
                irq_handled(
                    status,
                    *old(self),
                    *final(self),
                    port::since(final(port).log(), old(port).log()),
                    handled,
                ),
    {
        let ghost start = port.log();
        let ghost before = *self;
        let status: u32 = port.read32(regs::DMA_STATUS);
        if status & regs::DMA_STATUS_INTR_BITS == 0 {
            proof {
                let trace = irq_trace(before, status);
                assert(port.log() =~= start + trace);
                port::lemma_grown(start, trace);
                assert(irq_handled(status, before, *self, trace, false));
            }
            return false;
        }
        port.write32(regs::DMA_STATUS, status & regs::DMA_STATUS_INTR_BITS);
        self.irq_total = count(self.irq_total);
        let abnormal: bool = status / regs::DMA_STATUS_AIS % 2 == 1;
        if status / regs::DMA_STATUS_NIS % 2 == 1 || abnormal {
            if abnormal {
                if status / regs::DMA_STATUS_RU % 2 == 1 || status / regs::DMA_STATUS_OVF % 2
                    == 1 {
                    self.rx_need_kick = true;
                }
                if status / regs::DMA_STATUS_UNF % 2 == 1 || status / regs::DMA_STATUS_TU % 2
                    == 1 {
                    port.write32(regs::DMA_XMT_POLL_DEMAND, 0);
                }
            }
            port.write32(regs::DMA_INTR_ENA, 0);
            self.masked = true;
            self.irq_mask = count(self.irq_mask);
            if !self.pending && self.waker {
                port.notify(WAKE);
            }
            self.pending = true;
        }
        proof {
            let trace = irq_trace(before, status);
            assert(port.log() =~= start + trace);
            port::lemma_grown(start, trace);
            assert(irq_handled(status, before, *self, trace, true));
        }
        true
    }
}

} // verus!
