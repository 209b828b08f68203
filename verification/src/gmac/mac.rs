//! The controller itself: its address, its rings and its transfers to memory.

use vstd::prelude::*;
use crate::gmac::regs;
use crate::port;
use crate::port::{Access, Exchange, NO_PAGE, Poll, PollTest, Port};

verus! {

/// How many descriptors a ring has.
pub const RING_SIZE: usize = 64;

pub const RX_BUFFER_SIZE: usize = 1536;

pub const TX_BUFFER_SIZE: usize = 1536;

pub const DMA_RESET_TIMEOUT_LOOPS: u32 = 10_000;

/// The bits of the control register for a speed and a duplex mode.
pub open spec fn speed_bits(speed_mbps: u32, full_duplex: bool) -> u32 {
    let speed = if speed_mbps == 1000 {
        0u32
    } else if speed_mbps == 100 {
        0xc000
    } else {
        regs::GMAC_CONTROL_PS
    };
    if full_duplex {
        (speed + regs::GMAC_CONTROL_DM) as u32
    } else {
        speed
    }
}

pub fn speed_duplex_bits(speed_mbps: u32, full_duplex: bool) -> (bits: u32)
    ensures
        bits == speed_bits(speed_mbps, full_duplex),
{
    let speed: u32 = if speed_mbps == 1000 {
        0
    } else if speed_mbps == 100 {
        0xc000
    } else {
        regs::GMAC_CONTROL_PS
    };
    if full_duplex {
        speed + regs::GMAC_CONTROL_DM
    } else {
        speed
    }
}

/// The shared memory of a controller.
#[derive(Clone, Copy, PartialEq, Eq, Structural, Debug)]
pub struct GmacMac {
    pub rx_ring: u64,
    pub tx_ring: u64,
    pub tx_buffers: u64,
}

/// The address of a descriptor.
pub open spec fn desc_at(ring: u64, slot: int) -> int {
    ring + 16 * slot
}

/// The address of the memory of a packet that is sent.
pub open spec fn tx_slot_at(buffers: u64, slot: int) -> int {
    buffers + TX_BUFFER_SIZE * slot
}

/// The low half of an address, as the controller takes it.
pub open spec fn low32(address: int) -> u32 {
    (address % 0x1_0000_0000) as u32
}

/// The words of a descriptor of an empty ring; the last one closes it.
pub open spec fn empty_desc(slot: int) -> Seq<u32> {
    seq![
        0u32,
        if slot == RING_SIZE - 1 {
            regs::TDES1_END_RING
        } else {
            0
        },
        0u32,
        0u32,
    ]
}

/// The accesses by which the first descriptors of a ring are emptied.
pub open spec fn ring_cleared(ring: u64, count: int) -> Seq<Exchange>
    decreases count,
{
    if count <= 0 {
        Seq::empty()
    } else {
        ring_cleared(ring, count - 1) + port::words_stored(
            desc_at(ring, count - 1),
            empty_desc(count - 1),
        )
    }
}

/// Whether memory was got so; what was got is given back if some is missing.
pub open spec fn memory_got(
    rx: u64,
    tx: u64,
    buffers: u64,
    trace: Seq<Exchange>,
    result: Result<GmacMac, &'static str>,
) -> bool {
    let first = seq![port::buffer_allocated(1024, 32, rx)];
    let second = first.push(port::buffer_allocated(1024, 32, tx));
    let third = second.push(port::buffer_allocated(98304, 64, buffers));
    if rx == NO_PAGE {
        trace == first && result == Err::<GmacMac, &'static str>("GMAC DMA buffer is unavailable")
    } else if tx == NO_PAGE {
        &&& trace == second.push(port::buffer_released(rx))
        &&& result == Err::<GmacMac, &'static str>("GMAC DMA buffer is unavailable")
    } else if buffers == NO_PAGE {
        &&& trace == third + seq![port::buffer_released(tx), port::buffer_released(rx)]
        &&& result == Err::<GmacMac, &'static str>("GMAC DMA buffer is unavailable")
    } else {
        &&& trace == third
        &&& result == Ok::<GmacMac, &'static str>(
            GmacMac { rx_ring: rx, tx_ring: tx, tx_buffers: buffers },
        )
    }
}

/// How the controller's memory engine was reset.
pub ghost struct DmaReset {
    pub mode: u32,
    pub poll: Seq<Exchange>,
    pub ended: Option<u64>,
}

/// The poll that the reset is over.
pub open spec fn reset_poll() -> Poll {
    Poll {
        offset: regs::DMA_BUS_MODE,
        wide: false,
        test: PollTest { mask: regs::DMA_BUS_MODE_SFT_RESET as u64, expected: 0, equal: true },
        tries: DMA_RESET_TIMEOUT_LOOPS,
        pause_ns: Some(1_000),
    }
}

/// Whether the memory engine was reset so.
pub open spec fn dma_was_reset(
    w: DmaReset,
    trace: Seq<Exchange>,
    result: Result<(), &'static str>,
) -> bool {
    &&& reset_poll().done(w.poll, w.ended)
    &&& trace == seq![
        port::r32(regs::DMA_BUS_MODE, w.mode),
        port::w32(regs::DMA_BUS_MODE, w.mode | regs::DMA_BUS_MODE_SFT_RESET),
    ] + w.poll
    &&& result == (if w.ended is Some {
        Ok::<(), &'static str>(())
    } else {
        Err("GMAC DMA soft reset timed out")
    })
}

/// The accesses by which the memory engine is set up.
pub open spec fn dma_set_up(mac: GmacMac) -> Seq<Exchange> {
    seq![
        port::w32(regs::DMA_BUS_MODE, 0x1c1_2000),
        port::w32(regs::DMA_RCV_BASE_ADDR, low32(mac.rx_ring as int)),
        port::w32(regs::DMA_TX_BASE_ADDR, low32(mac.tx_ring as int)),
        port::w32(regs::DMA_CONTROL, 0x220_0000),
        port::w32(regs::DMA_INTR_ENA, regs::DMA_INTR_DEFAULT_MASK),
    ]
}

/// The accesses by which the address and the mode of the controller are set.
pub open spec fn mac_set_up(address: Seq<u8>, speed_mbps: u32, full_duplex: bool) -> Seq<Exchange> {
    seq![
        port::w32(
            regs::GMAC_CONTROL,
            regs::GMAC_CORE_INIT | speed_bits(speed_mbps, full_duplex) | 0xc,
        ),
        port::w32(regs::GMAC_FRAME_FILTER, 0),
        port::w32(regs::GMAC_ADDR0_HIGH, (address[0] * 0x100 + address[1]) as u32),
        port::w32(
            regs::GMAC_ADDR0_LOW,
            (address[2] * 0x100_0000 + address[3] * 0x1_0000 + address[4] * 0x100 + address[5])
                as u32,
        ),
    ]
}

impl GmacMac {
    /// Gets the memory of a controller.
    pub fn new<F: FnMut(Access) -> u64>(port: &mut Port<F>) -> (result: Result<Self, &'static str>)
        requires
            old(port).wf(),
        ensures
            final(port).wf(),
            final(port).performs() == old(port).performs(),
            port::grown(final(port).log(), old(port).log()),
            exists|rx: u64, tx: u64, buffers: u64| #[trigger]
                memory_got(
                    rx,
                    tx,
                    buffers,
                    port::since(final(port).log(), old(port).log()),
                    result,
                ),
    {
        let ghost start = port.log();
        let rx: u64 = port.allocate_buffer(1024, 32);
        let ghost first = seq![port::buffer_allocated(1024, 32, rx)];
        if rx == NO_PAGE {
            proof {
                assert(port.log() =~= start + first);
                port::lemma_grown(start, first);
                assert(memory_got(rx, 0, 0, first, Err("GMAC DMA buffer is unavailable")));
            }
            return Err("GMAC DMA buffer is unavailable");
        }
        let tx: u64 = port.allocate_buffer(1024, 32);
        let ghost second = first.push(port::buffer_allocated(1024, 32, tx));
        if tx == NO_PAGE {
            port.release_buffer(rx);
            proof {
                let trace = second.push(port::buffer_released(rx));
                assert(port.log() =~= start + trace);
                port::lemma_grown(start, trace);
                assert(memory_got(rx, tx, 0, trace, Err("GMAC DMA buffer is unavailable")));
            }
            return Err("GMAC DMA buffer is unavailable");
        }
        let buffers: u64 = port.allocate_buffer(98304, 64);
        let ghost third = second.push(port::buffer_allocated(98304, 64, buffers));
        if buffers == NO_PAGE {
            port.release_buffer(tx);
            port.release_buffer(rx);
            proof {
                let trace = third + seq![port::buffer_released(tx), port::buffer_released(rx)];
                assert(port.log() =~= start + trace);
                port::lemma_grown(start, trace);
                assert(memory_got(rx, tx, buffers, trace, Err("GMAC DMA buffer is unavailable")));
            }
            return Err("GMAC DMA buffer is unavailable");
        }
        let mac = GmacMac { rx_ring: rx, tx_ring: tx, tx_buffers: buffers };
        proof {
            assert(port.log() =~= start + third);
            port::lemma_grown(start, third);
            assert(memory_got(rx, tx, buffers, third, Ok(mac)));
        }
        Ok(mac)
    }

    /// Empties a ring.
    fn clear_ring<F: FnMut(Access) -> u64>(port: &mut Port<F>, ring: u64)
        requires
            old(port).wf(),
        ensures
            final(port).wf(),
            final(port).performs() == old(port).performs(),
            final(port).log() == old(port).log() + ring_cleared(ring, RING_SIZE as int),
    {
        let ghost start = port.log();
        let mut slot: usize = 0;
        assert(start + ring_cleared(ring, 0) =~= start);
        while slot < RING_SIZE
            invariant
                slot <= RING_SIZE,
                port.wf(),
                port.performs() == old(port).performs(),
                port.log() == start + ring_cleared(ring, slot as int),
            decreases RING_SIZE - slot,
        {
            let at: u128 = ring as u128 + 16 * (slot as u128);
            let end: u32 = if slot == RING_SIZE - 1 {
                regs::TDES1_END_RING
            } else {
                0
            };
            port.store32(at as usize, 0);
            port.store32((at + 4) as usize, end);
            port.store32((at + 8) as usize, 0);
            port.store32((at + 12) as usize, 0);
            assert(port.log() =~= start + ring_cleared(ring, slot + 1));
            slot += 1;
        }
    }

    /// Empties both rings.
    pub fn init_rings<F: FnMut(Access) -> u64>(&self, port: &mut Port<F>)
        requires
            old(port).wf(),
        ensures
            final(port).wf(),
            final(port).performs() == old(port).performs(),
            final(port).log() == old(port).log() + (ring_cleared(self.tx_ring, RING_SIZE as int)
                + ring_cleared(self.rx_ring, RING_SIZE as int) + seq![
                port::flushed(self.rx_ring as usize),
                port::flushed(self.tx_ring as usize),
            ]),
    {
        let ghost start = port.log();
        Self::clear_ring(port, self.tx_ring);
        Self::clear_ring(port, self.rx_ring);
        port.flush(self.rx_ring as usize);
        port.flush(self.tx_ring as usize);
        assert(port.log() =~= start + (ring_cleared(self.tx_ring, RING_SIZE as int)
            + ring_cleared(self.rx_ring, RING_SIZE as int) + seq![
            port::flushed(self.rx_ring as usize),
            port::flushed(self.tx_ring as usize),
        ]));
    }

    /// Resets the memory engine.
    pub fn dma_reset<F: FnMut(Access) -> u64>(port: &mut Port<F>) -> (result: Result<
        (),
        &'static str,
    >)
        requires
            old(port).wf(),
        ensures
            final(port).wf(),
            final(port).performs() == old(port).performs(),
            port::grown(final(port).log(), old(port).log()),
            exists|w: DmaReset| #[trigger]
                dma_was_reset(w, port::since(final(port).log(), old(port).log()), result),
    {
        let ghost start = port.log();
        let mode: u32 = port.read32(regs::DMA_BUS_MODE);
        port.write32(regs::DMA_BUS_MODE, mode | regs::DMA_BUS_MODE_SFT_RESET);
        let ghost middle = port.log();
        let ended = port.poll(
            Poll {
                offset: regs::DMA_BUS_MODE,
                wide: false,
                test: PollTest::clear(regs::DMA_BUS_MODE_SFT_RESET as u64),
                tries: DMA_RESET_TIMEOUT_LOOPS,
                pause_ns: Some(1_000),
            },
        );
        let result: Result<(), &'static str> = if ended.is_some() {
            Ok(())
        } else {
            Err("GMAC DMA soft reset timed out")
        };
        proof {
            let poll = port::since(port.log(), middle);
            let w = DmaReset { mode, poll, ended };
            let trace = seq![
                port::r32(regs::DMA_BUS_MODE, mode),
                port::w32(regs::DMA_BUS_MODE, mode | regs::DMA_BUS_MODE_SFT_RESET),
            ] + poll;
            assert(port.log() =~= start + trace);
            port::lemma_grown(start, trace);
            assert(dma_was_reset(w, trace, result));
        }
        result
    }

    /// Sets the memory engine up.
    pub fn dma_init<F: FnMut(Access) -> u64>(&self, port: &mut Port<F>)
        requires
            old(port).wf(),
        ensures
            final(port).wf(),
            final(port).performs() == old(port).performs(),
            final(port).log() == old(port).log() + dma_set_up(*self),
    {
        let ghost start = port.log();
        port.write32(regs::DMA_BUS_MODE, 0x1c1_2000);
        port.write32(regs::DMA_RCV_BASE_ADDR, (self.rx_ring % 0x1_0000_0000) as u32);
        port.write32(regs::DMA_TX_BASE_ADDR, (self.tx_ring % 0x1_0000_0000) as u32);
        port.write32(regs::DMA_CONTROL, 0x220_0000);
        port.write32(regs::DMA_INTR_ENA, regs::DMA_INTR_DEFAULT_MASK);
        assert(port.log() =~= start + dma_set_up(*self));
    }

    /// Lets the memory engine run.
    pub fn start_dma<F: FnMut(Access) -> u64>(port: &mut Port<F>)
        requires
            old(port).wf(),
        ensures
            final(port).wf(),
            final(port).performs() == old(port).performs(),
            exists|control: u32|
                final(port).log() == old(port).log() + seq![
                    #[trigger] port::r32(regs::DMA_CONTROL, control),
                    port::w32(
                        regs::DMA_CONTROL,
                        control | regs::DMA_CONTROL_ST | regs::DMA_CONTROL_SR,
                    ),
                ],
    {
        let ghost start = port.log();
        let control: u32 = port.read32(regs::DMA_CONTROL);
        port.write32(
            regs::DMA_CONTROL,
            control | regs::DMA_CONTROL_ST | regs::DMA_CONTROL_SR,
        );
        assert(port.log() =~= start + seq![
            port::r32(regs::DMA_CONTROL, control),
            port::w32(
                regs::DMA_CONTROL,
                control | regs::DMA_CONTROL_ST | regs::DMA_CONTROL_SR,
            ),
        ]);
    }

    /// Stops the memory engine.
    pub fn stop_dma<F: FnMut(Access) -> u64>(port: &mut Port<F>)
        requires
            old(port).wf(),
        ensures
            final(port).wf(),
            final(port).performs() == old(port).performs(),
            exists|control: u32|
                final(port).log() == old(port).log() + seq![
                    #[trigger] port::r32(regs::DMA_CONTROL, control),
                    port::w32(regs::DMA_CONTROL, control & 0xffff_dffd),
                ],
    {
        let ghost start = port.log();
        let control: u32 = port.read32(regs::DMA_CONTROL);
        port.write32(regs::DMA_CONTROL, control & 0xffff_dffd);
        assert(port.log() =~= start + seq![
            port::r32(regs::DMA_CONTROL, control),
            port::w32(regs::DMA_CONTROL, control & 0xffff_dffd),
        ]);
    }

    /// Sets the address and the mode and lets the controller send and receive.
    pub fn mac_init<F: FnMut(Access) -> u64>(
        port: &mut Port<F>,
        address: [u8; 6],
        speed_mbps: u32,
        full_duplex: bool,
    )
        requires
            old(port).wf(),
        ensures
            final(port).wf(),
            final(port).performs() == old(port).performs(),
            final(port).log() == old(port).log() + mac_set_up(address@, speed_mbps, full_duplex),
    {
        let ghost start = port.log();
        let bits: u32 = speed_duplex_bits(speed_mbps, full_duplex);
        port.write32(regs::GMAC_CONTROL, regs::GMAC_CORE_INIT | bits | 0xc);
        port.write32(regs::GMAC_FRAME_FILTER, 0);
        port.write32(regs::GMAC_ADDR0_HIGH, (address[0] as u32) * 0x100 + address[1] as u32);
        port.write32(
            regs::GMAC_ADDR0_LOW,
            (address[2] as u32) * 0x100_0000 + (address[3] as u32) * 0x1_0000 + (address[4] as u32)
                * 0x100 + address[5] as u32,
        );
        assert(port.log() =~= start + mac_set_up(address@, speed_mbps, full_duplex));
    }

    /// Changes the mode and nothing else.
    pub fn set_link<F: FnMut(Access) -> u64>(port: &mut Port<F>, speed_mbps: u32, full_duplex: bool)
        requires
            old(port).wf(),
        ensures
            final(port).wf(),
            final(port).performs() == old(port).performs(),
            exists|control: u32|
                final(port).log() == old(port).log() + #[trigger] link_set(
                    control,
                    speed_mbps,
                    full_duplex,
                ),
    {
        let ghost start = port.log();
        let control: u32 = port.read32(regs::GMAC_CONTROL);
        let bits: u32 = speed_duplex_bits(speed_mbps, full_duplex);
        port.write32(regs::GMAC_CONTROL, (control & 0xffff_37ff) | bits);
        assert(port.log() =~= start + link_set(control, speed_mbps, full_duplex));
    }
}

/// The accesses by which the mode is changed.
pub open spec fn link_set(control: u32, speed_mbps: u32, full_duplex: bool) -> Seq<Exchange> {
    seq![
        port::r32(regs::GMAC_CONTROL, control),
        port::w32(
            regs::GMAC_CONTROL,
            (control & 0xffff_37ff) | speed_bits(speed_mbps, full_duplex),
        ),
    ]
}

} // verus!
