//! What the memory engine of the controller makes of its descriptors and registers.

use vstd::prelude::*;
use crate::gmac::irq;
use crate::gmac::irq::GmacQueueIrq;
use crate::gmac::mac;
use crate::gmac::mac::GmacMac;
use crate::gmac::phy;
use crate::gmac::phy::MdioRun;
use crate::gmac::queue;
use crate::gmac::queue::{Collecting, Flow, Receiving, Refill, RxBudget, RxPacket, Sending};
use crate::port::{Access, Exchange};

verus! {

/// Whether a bit of a word is set.
pub open spec fn bit_of(word: u32, value: int) -> bool {
    word as int / value % 2 == 1
}

/// A descriptor as it was written: where, and its words in the order of the accesses.
pub ghost struct Posted {
    pub at: int,
    pub buffer: u32,
    pub control: u32,
    pub owner: u32,
}

/// Whether the last accesses write a descriptor, and give it away only when it is
/// complete.
pub open spec fn gives_away(trace: Seq<Exchange>, posted: Posted) -> bool {
    let n = trace.len();
    &&& n >= 4
    &&& trace[n - 4].access matches Access::Store32(at, word) && at == posted.at + 8 && word
        == posted.buffer
    &&& trace[n - 3].access matches Access::Store32(at, word) && at == posted.at + 4 && word
        == posted.control
    &&& trace[n - 2].access is Barrier
    &&& trace[n - 1].access matches Access::Store32(at, word) && at == posted.at && word
        == posted.owner
}

/// A packet that is handed over is sent as it is: the descriptor at the place whose turn it
/// is holds the address of the memory to which the bytes were written, and their number. It
/// is a whole frame, and the last descriptor of the ring leads back to the first.
pub proof fn packet_is_described(s: Sending, engine: GmacMac, i: int)
    requires
        s.next < 64,
        engine.tx_ring + 1024 <= 0x1_0000_0000,
        engine.tx_buffers + 98304 <= 0x1_0000_0000,
        queue::send_step(s, engine, i).submitted == s.submitted + 1,
    ensures
        s.batch[i] is Some,
        s.pending[s.next as int] is None,
        ({
            let packet = s.batch[i]->0;
            let after = queue::send_step(s, engine, i);
            let trace = after.trace.skip(s.trace.len() as int);
            let len = packet.total as int;
            &&& packet.checksum_ok && packet.readable && len <= 1536
            &&& after.trace == s.trace + trace
            &&& trace.len() == len + 5
            &&& exists|posted: Posted| #[trigger]
                gives_away(trace, posted) && {
                    &&& posted.at == engine.tx_ring + 16 * s.next
                    &&& posted.buffer == engine.tx_buffers + 1536 * s.next
                    &&& posted.control % 0x800 == len
                    &&& bit_of(posted.control, 0x2000_0000)
                    &&& bit_of(posted.control, 0x4000_0000)
                    &&& bit_of(posted.control, 0x8000_0000)
                    &&& bit_of(posted.control, 0x200_0000) == (s.next == 63)
                    &&& !bit_of(posted.control, 0x100_0000)
                    &&& bit_of(posted.owner, 0x8000_0000)
                    &&& forall|k: int|
                        0 <= k < len ==> (#[trigger] trace[k]).access == Access::Store8(
                            (posted.buffer + k) as usize,
                            queue::joined_bytes(packet.fragments@)[k],
                        )
                }
            &&& s.next < s.pending.len() ==> after.pending[s.next as int] == Some(
                packet.completion,
            )
            &&& after.next == (s.next + 1) % 64
        }),
{
    let packet = s.batch[i]->0;
    let bytes = queue::joined_bytes(packet.fragments@);
    let written = queue::packet_posted(engine, s.next, bytes);
    let after = queue::send_step(s, engine, i);
    let trace = after.trace.skip(s.trace.len() as int);
    assert(trace =~= written);
    assert(after.trace =~= s.trace + trace);
    let posted = Posted {
        at: engine.tx_ring + 16 * s.next,
        buffer: (engine.tx_buffers + 1536 * s.next) as u32,
        control: (0xe000_0000 + bytes.len() % 0x800 + queue::ring_end(s.next)) as u32,
        owner: 0x8000_0000,
    };
    assert(gives_away(trace, posted));
}

/// Memory that is handed over is received into: the descriptor at the place whose turn it
/// is holds its address and its length.
pub proof fn memory_is_described(s: Refill, ring: u64, i: int)
    requires
        s.next < 64,
        ring + 1024 <= 0x1_0000_0000,
        queue::refill_step(s, ring, i).posted == s.posted + 1,
    ensures
        s.batch[i] is Some,
        s.pending[s.next as int] is None,
        ({
            let lease = s.batch[i]->0;
            let after = queue::refill_step(s, ring, i);
            let trace = after.trace.skip(s.trace.len() as int);
            &&& lease.dma is Some && lease.syncs && lease.len <= 1536
            &&& after.trace == s.trace + trace
            &&& trace[0].access == Access::Flush(lease.vaddr)
            &&& exists|posted: Posted| #[trigger]
                gives_away(trace, posted) && {
                    &&& posted.at == ring + 16 * s.next
                    &&& lease.dma->0 < 0x1_0000_0000 ==> posted.buffer == lease.dma->0
                    &&& posted.control % 0x800 == lease.len
                    &&& bit_of(posted.control, 0x200_0000) == (s.next == 63)
                    &&& !bit_of(posted.control, 0x100_0000)
                    &&& !bit_of(posted.control, 0x8000_0000)
                    &&& bit_of(posted.owner, 0x8000_0000)
                }
            &&& s.next < s.pending.len() ==> after.pending[s.next as int] == Some(lease)
            &&& after.next == (s.next + 1) % 64
        }),
{
    let lease = s.batch[i]->0;
    let written = queue::lease_posted(ring, s.next, lease);
    let after = queue::refill_step(s, ring, i);
    let trace = after.trace.skip(s.trace.len() as int);
    assert(trace =~= written);
    assert(after.trace =~= s.trace + trace);
    let posted = Posted {
        at: ring + 16 * s.next,
        buffer: (lease.dma->0 as int % 0x1_0000_0000) as u32,
        control: (lease.len % 0x800 + queue::ring_end(s.next)) as u32,
        owner: 0x8000_0000,
    };
    assert(gives_away(trace, posted));
}

/// A frame is handed out if the controller has given its descriptor back, with the whole
/// frame and no error in it, and the frame fits the memory of that descriptor. Its length
/// is the one of the descriptor. A descriptor that the controller still has is left.
pub proof fn received_frame_is_as_described(
    s: Receiving,
    word: u32,
    budget: RxBudget,
    capacity: int,
)
    requires
        s.at < 64,
        s.pending.len() == 64,
        queue::receives(s),
        s.out.len() < capacity,
    ensures
        ({
            let lease = s.pending[s.at as int]->0;
            let after = queue::receive_step(s, word, budget, capacity);
            let len = word as int / 0x1_0000 % 0x4000;
            let whole = !bit_of(word, 0x8000) && bit_of(word, 0x100) && 0 < len <= lease.len;
            &&& bit_of(word, 0x8000_0000) ==> after.out == s.out && after.at == s.at && after.flow
                == Flow::Stopped
            &&& !bit_of(word, 0x8000_0000) ==> {
                &&& after.at == (s.at + 1) % 64
                &&& after.pending[s.at as int] is None
                &&& after.out == (if whole {
                    s.out.push(RxPacket { lease, frame_len: len as u32 })
                } else {
                    s.out
                })
                &&& after.packets - s.packets == after.out.len() - s.out.len()
                &&& s.bytes + len <= u32::MAX ==> after.bytes - s.bytes == (if whole {
                    len
                } else {
                    0
                })
            }
            &&& forall|slot: int|
                0 <= slot < 64 && slot != s.at ==> #[trigger] after.pending[slot]
                    == s.pending[slot]
        }),
{
}

/// A packet is done with once the controller has given its descriptor back, and only then.
pub proof fn sent_packet_is_given_back(s: Collecting, word: u32, capacity: int)
    requires
        s.at < 64,
        s.pending.len() == 64,
        queue::collects(s),
        s.out.len() < capacity,
    ensures
        ({
            let after = queue::collect_step(s, word, capacity);
            &&& bit_of(word, 0x8000_0000) ==> after.out == s.out && after.at == s.at && after.flow
                == Flow::Stopped
            &&& !bit_of(word, 0x8000_0000) ==> {
                &&& after.out == s.out.push(s.pending[s.at as int]->0)
                &&& after.at == (s.at + 1) % 64
                &&& after.pending[s.at as int] is None
            }
        }),
{
}

/// The engine is told where its rings are, and to report what the driver looks at.
pub proof fn engine_knows_its_rings(engine: GmacMac)
    requires
        engine.rx_ring < 0x1_0000_0000,
        engine.tx_ring < 0x1_0000_0000,
    ensures
        ({
            let trace = mac::dma_set_up(engine);
            &&& trace.len() == 5
            &&& trace[1].access == Access::Write32(0x100c, engine.rx_ring as u32)
            &&& trace[2].access == Access::Write32(0x1010, engine.tx_ring as u32)
            &&& trace[4].access matches Access::Write32(0x101c, events) && bit_of(events, 1)
                && bit_of(events, 0x40) && bit_of(events, 0x1_0000) && bit_of(events, 0x8000)
        }),
{
}

/// Whether a control word is for a speed and a duplex mode.
pub open spec fn runs_at(control: u32, speed_mbps: u32, full_duplex: bool) -> bool {
    &&& bit_of(control, 0x8000) == (speed_mbps != 1000)
    &&& bit_of(control, 0x4000) == (speed_mbps == 100)
    &&& bit_of(control, 0x800) == full_duplex
}

proof fn lemma_link_bits(control: u32, bits: u32)
    by (bit_vector)
    requires
        bits & 0xc800 == bits,
    ensures
        ((control & 0xffff_37ff) | bits) / 0x8000 % 2 == bits / 0x8000 % 2,
        ((control & 0xffff_37ff) | bits) / 0x4000 % 2 == bits / 0x4000 % 2,
        ((control & 0xffff_37ff) | bits) / 0x800 % 2 == bits / 0x800 % 2,
        ((control & 0xffff_37ff) | bits) / 0x1_0000 == control / 0x1_0000,
        ((control & 0xffff_37ff) | bits) % 0x800 == control % 0x800,
        ((control & 0xffff_37ff) | bits) / 0x1000 % 4 == control / 0x1000 % 4,
        (0x60_8000u32 | bits | 0xc) / 0x4000 % 2 == bits / 0x4000 % 2,
        (0x60_8000u32 | bits | 0xc) / 0x800 % 2 == bits / 0x800 % 2,
        (0x60_8000u32 | bits | 0xc) / 4 % 4 == 3,
{
}

/// The modes in bits.
proof fn lemma_modes(speed_mbps: u32, full_duplex: bool)
    ensures
        mac::speed_bits(speed_mbps, full_duplex) & 0xc800 == mac::speed_bits(
            speed_mbps,
            full_duplex,
        ),
        runs_at(mac::speed_bits(speed_mbps, full_duplex), speed_mbps, full_duplex),
{
    assert(0u32 & 0xc800 == 0 && 0xc000u32 & 0xc800 == 0xc000 && 0x8000u32 & 0xc800 == 0x8000
        && 0x800u32 & 0xc800 == 0x800 && 0xc800u32 & 0xc800 == 0xc800 && 0x8800u32 & 0xc800
        == 0x8800) by (bit_vector);
}

/// A change of the link sets the speed and the duplex mode, and nothing else.
pub proof fn link_runs_as_agreed(control: u32, speed_mbps: u32, full_duplex: bool)
    ensures
        ({
            let trace = mac::link_set(control, speed_mbps, full_duplex);
            &&& trace.len() == 2
            &&& trace[0].access == Access::Read32(0)
            &&& trace[0].reply == control
            &&& trace[1].access matches Access::Write32(0, written) && {
                &&& runs_at(written, speed_mbps, full_duplex)
                &&& written / 0x1_0000 == control / 0x1_0000
                &&& written / 0x1000 % 4 == control / 0x1000 % 4
                &&& written % 0x800 == control % 0x800
            }
        }),
{
    lemma_modes(speed_mbps, full_duplex);
    lemma_link_bits(control, mac::speed_bits(speed_mbps, full_duplex));
}

/// The controller is given its address, the first byte in the highest place, and both of
/// its directions are switched on.
pub proof fn controller_knows_its_address(address: Seq<u8>, speed_mbps: u32, full_duplex: bool)
    requires
        address.len() == 6,
    ensures
        ({
            let trace = mac::mac_set_up(address, speed_mbps, full_duplex);
            &&& trace.len() == 4
            &&& trace[0].access matches Access::Write32(0, control) && bit_of(control, 8) && bit_of(
                control,
                4,
            ) && bit_of(control, 0x800) == full_duplex && bit_of(control, 0x4000) == (speed_mbps
                == 100)
            &&& trace[2].access is Write32
            &&& match (trace[2].access, trace[3].access) {
                (Access::Write32(0x300, high), Access::Write32(0x304, low)) => high
                    * 0x1_0000_0000 + low == address[0] * 0x100_0000_0000 + address[1]
                    * 0x1_0000_0000 + address[2] * 0x100_0000 + address[3] * 0x1_0000 + address[4]
                    * 0x100 + address[5],
                _ => false,
            }
        }),
{
    lemma_modes(speed_mbps, full_duplex);
    lemma_link_bits(0, mac::speed_bits(speed_mbps, full_duplex));
}

proof fn lemma_mii(phy: u32, reg: u32)
    by (bit_vector)
    requires
        phy < 32,
        reg < 32,
    ensures
        ((phy * 0x800) as u32 | (reg * 0x40) as u32 | 4u32 | 2u32 | 1u32) == phy * 0x800 + reg
            * 0x40 + 7,
        ((phy * 0x800) as u32 | (reg * 0x40) as u32 | 4u32 | 1u32) == phy * 0x800 + reg * 0x40 + 5,
{
}

/// A register of the transceiver is accessed as it is asked for: the word names the
/// transceiver and the register, and bit 1 is for a write. What is to be written is there
/// before, and what was read is taken once the bus is idle again.
pub proof fn transceiver_is_accessed(
    w: MdioRun,
    phy: u8,
    reg: u16,
    write: Option<u16>,
    trace: Seq<Exchange>,
    value: u16,
)
    requires
        phy < 32,
        reg < 32,
        phy::mdio_done(w, phy, reg, write, trace, Ok(value)),
    ensures
        ({
            let n = w.first.len() as int;
            &&& trace.len() >= n + 2
            &&& trace[n].access matches Access::Write32(0x14, data) && (write is Some ==> data
                == write->0)
            &&& trace[n + 1].access matches Access::Write32(0x10, word) && {
                &&& word as int / 0x800 == phy
                &&& word as int / 0x40 % 32 == reg
                &&& bit_of(word, 2) == (write is Some)
                &&& bit_of(word, 1)
            }
            &&& write is None ==> trace.last().access == Access::Read32(0x14)
                && trace.last().reply as int % 0x1_0000 == value
        }),
{
    lemma_mii(phy as u32, reg as u32);
    let n = w.first.len() as int;
    assert(trace[n].access is Write32);
    assert(trace[n + 1].access is Write32);
}

/// The fastest mode that the partner has too is taken; a partner that names none gets the
/// fastest.
pub proof fn fastest_common_mode_is_taken(stat1000: u16, lpa: u16)
    ensures
        ({
            let mode = phy::agreed_link(stat1000, lpa);
            let gigabit = bit_of(stat1000 as u32, 0x800);
            let some = lpa as int / 0x20 % 16 != 0;
            &&& gigabit ==> mode == (1000u32, true)
            &&& !gigabit && some ==> mode.0 == (if lpa as int / 0x80 % 4 != 0 {
                100int
            } else {
                10
            })
            &&& !gigabit && bit_of(lpa as u32, 0x100) ==> mode.1
            &&& !gigabit && lpa as int / 0x80 % 4 == 1 ==> !mode.1
            &&& !gigabit && lpa as int / 0x80 % 4 == 0 && some ==> mode.1 == bit_of(
                lpa as u32,
                0x40,
            )
            &&& !gigabit && !some ==> mode == (1000u32, true)
            &&& phy::negotiated(lpa) == (bit_of(lpa as u32, 0x20) && bit_of(lpa as u32, 4))
        }),
{
}

/// An interrupt is confirmed with the bits that were seen. One that asks for work switches
/// further ones off until the work is done, and wakes the worker once.
pub proof fn interrupt_is_confirmed(
    status: u32,
    before: GmacQueueIrq,
    after: GmacQueueIrq,
    trace: Seq<Exchange>,
    handled: bool,
)
    requires
        irq::irq_handled(status, before, after, trace, handled),
    ensures
        trace[0].access == Access::Read32(0x1014),
        trace[0].reply == status,
        !handled ==> trace.len() == 1 && after == before,
        handled ==> trace[1].access == Access::Write32(0x1014, status & 0x1_e1f7),
        handled && (bit_of(status, 0x1_0000) || bit_of(status, 0x8000)) ==> {
            &&& after.masked && after.pending
            &&& exists|k: int|
                2 <= k < trace.len() && (#[trigger] trace[k]).access == Access::Write32(0x101c, 0)
            &&& (trace.last().access is Notify) == (before.waker && !before.pending)
        },
        handled && !bit_of(status, 0x1_0000) && !bit_of(status, 0x8000) ==> trace.len() == 2
            && after.masked == before.masked && after.pending == before.pending,
        after.rx_need_kick ==> before.rx_need_kick || bit_of(status, 0x80) || bit_of(status, 0x10),
        handled && bit_of(status, 0x8000) && (bit_of(status, 0x80) || bit_of(status, 0x10))
            ==> after.rx_need_kick,
{
    if handled && (bit_of(status, 0x1_0000) || bit_of(status, 0x8000)) {
        let k = if irq::stalled(status) {
            3int
        } else {
            2
        };
        assert(trace[k].access == Access::Write32(0x101c, 0));
    }
}

} // verus!
