//! What the ports of the controllers are told, and where received bytes go.

use vstd::prelude::*;
use crate::port;
use crate::port::{Access, Exchange};
use crate::usb::dwc2;
use crate::usb::dwc2::Dwc2PortReset;
use crate::usb::ehci;
use crate::usb::ehci::{PortResetRun, ScheduleRun};
use crate::usb::high;
use crate::usb::ohci;
use crate::usb::ohci::{OhciModel, OhciPortReset, QueueStop};
use crate::usb::transaction;
use crate::usb::transfer::{Schedule, TransferDma};

verus! {

/// Whether a bit of a word is set.
pub open spec fn bit_of(word: u32, value: int) -> bool {
    word as int / value % 2 == 1
}

/// Whether no payload that goes back to the caller shares a byte of the data with another.
pub open spec fn apart(maps: Seq<TransferDma>) -> bool {
    forall|i: int, j: int|
        0 <= i < j < maps.len() && (#[trigger] maps[i]).from_device && (
        #[trigger] maps[j]).from_device ==> maps[i].offset + maps[i].len <= maps[j].offset
            || maps[j].offset + maps[j].len <= maps[i].offset
}

/// What was read of a payload goes to the payload's own place in the data of the caller,
/// byte by byte.
pub proof fn received_bytes_go_to_their_place(
    maps: Seq<TransferDma>,
    loads: Seq<Seq<u8>>,
    successful: bool,
    data: Seq<u8>,
    m: int,
    k: int,
)
    requires
        apart(maps),
        transaction::maps_fit(maps, data.len() as int),
        transaction::loads_fit(maps, loads, successful),
        0 <= m < maps.len(),
        maps[m].from_device,
        successful || maps[m].borrowed,
        0 <= k < maps[m].len,
    ensures
        transaction::data_read(maps, loads, successful, data).len() == data.len(),
        transaction::data_read(maps, loads, successful, data)[maps[m].offset + k] == loads[m][k],
    decreases maps.len(),
{
    let front = maps.drop_last();
    let last = maps.len() - 1;
    lemma_read_len(front, loads.drop_last(), successful, data);
    assert(maps[m].copied(successful));
    assert(maps[m].offset + maps[m].len <= data.len());
    if m < last {
        assert forall|i: int, j: int|
            0 <= i < j < front.len() && (#[trigger] front[i]).from_device && (
            #[trigger] front[j]).from_device implies front[i].offset + front[i].len
            <= front[j].offset || front[j].offset + front[j].len <= front[i].offset by {
            assert(front[i] == maps[i] && front[j] == maps[j]);
        }
        assert forall|i: int| 0 <= i < front.len() && (#[trigger] front[i]).from_device implies front[i].offset
            + front[i].len <= data.len() by {
            assert(front[i] == maps[i]);
        }
        assert forall|i: int|
            0 <= i < front.len() && (#[trigger] front[i]).copied(
                successful,
            ) implies loads.drop_last()[i].len() == front[i].len by {
            assert(front[i] == maps[i]);
        }
        received_bytes_go_to_their_place(front, loads.drop_last(), successful, data, m, k);
        assert(maps[last] == maps.last());
        assert(front[m] == maps[m]);
        if maps[last].copied(successful) {
            assert(loads[last].len() == maps[last].len);
        }
    }
}

proof fn lemma_read_len(
    maps: Seq<TransferDma>,
    loads: Seq<Seq<u8>>,
    successful: bool,
    data: Seq<u8>,
)
    ensures
        transaction::data_read(maps, loads, successful, data).len() == data.len(),
    decreases maps.len(),
{
    if maps.len() > 0 {
        lemma_read_len(maps.drop_last(), loads.drop_last(), successful, data);
    }
}

/// Bytes of the data that no payload is for stay what they were.
pub proof fn other_bytes_stay(
    maps: Seq<TransferDma>,
    loads: Seq<Seq<u8>>,
    successful: bool,
    data: Seq<u8>,
    at: int,
)
    requires
        transaction::loads_fit(maps, loads, successful),
        0 <= at < data.len(),
        forall|i: int|
            0 <= i < maps.len() && (#[trigger] maps[i]).from_device ==> !(maps[i].offset <= at
                < maps[i].offset + maps[i].len),
    ensures
        transaction::data_read(maps, loads, successful, data)[at] == data[at],
    decreases maps.len(),
{
    if maps.len() > 0 {
        let front = maps.drop_last();
        let last = maps.len() - 1;
        lemma_read_len(front, loads.drop_last(), successful, data);
        assert forall|i: int| 0 <= i < front.len() && (#[trigger] front[i]).from_device implies !(
        front[i].offset <= at < front[i].offset + front[i].len) by {
            assert(front[i] == maps[i]);
        }
        assert forall|i: int|
            0 <= i < front.len() && (#[trigger] front[i]).copied(
                successful,
            ) implies loads.drop_last()[i].len() == front[i].len by {
            assert(front[i] == maps[i]);
        }
        other_bytes_stay(front, loads.drop_last(), successful, data, at);
        assert(maps[last] == maps.last());
        if maps[last].copied(successful) {
            assert(loads[last].len() == maps[last].len);
        }
    }
}

/// The bytes of a payload are read where the controller put them, after they were made
/// visible.
pub proof fn payload_is_read_where_it_is(
    maps: Seq<TransferDma>,
    loads: Seq<Seq<u8>>,
    successful: bool,
    k: int,
)
    requires
        maps.len() > 0,
        loads.len() == maps.len(),
        maps.last().from_device,
        successful || maps.last().borrowed,
        0 <= k < loads.last().len(),
    ensures
        ({
            let trace = transaction::maps_read(maps, loads, successful);
            let before = transaction::maps_read(maps.drop_last(), loads.drop_last(), successful);
            let n = before.len() as int;
            &&& trace.len() == n + 1 + loads.last().len()
            &&& trace[n].access == Access::Refresh(maps.last().dma as usize)
            &&& trace[n + 1 + k].access == Access::Load8((maps.last().dma + k) as usize)
            &&& trace[n + 1 + k].reply == loads.last()[k]
        }),
{
    assert(maps.last().copied(successful));
}

proof fn lemma_port_bits(value: u32)
    by (bit_vector)
    ensures
        ((value & 0xffff_ffd1) | 0x100) / 0x100 % 2 == 1,
        ((value & 0xffff_ffd1) | 0x100) / 4 % 2 == 0,
        ((value & 0xffff_ffd1) | 0x100) & 0x2a == 0,
        ((value & 0xffff_ffd1) | 0x100) / 0x1000 == value / 0x1000,
        (value & 0xffff_fed5) / 0x100 % 2 == 0,
        (value & 0xffff_fed5) & 0x2a == 0,
        (value & 0xffff_fed5) / 0x1000 == value / 0x1000,
        ((value & 0xffff_ffd5) | 0x2000) / 0x2000 % 2 == 1,
        ((value & 0xffff_ffd5) | 0x2000) & 0x2a == 0,
        ((value & 0xffff_ffd5) | 0x2000) / 0x1000 % 2 == value / 0x1000 % 2,
{
}

/// A port is reset by a bit that is held for 50 ms; the port is not enabled by it, and no
/// change is confirmed unseen. A device whose port is enabled afterwards is a fast one; the
/// port of another goes to the companion.
pub proof fn port_is_held_in_reset(
    w: PortResetRun,
    op: usize,
    index: int,
    trace: Seq<Exchange>,
    speed: u8,
)
    requires
        op <= 0xff,
        0 <= index < 16,
        ehci::port_was_reset(w, op, index, trace, Ok(speed)),
    ensures
        ({
            let at = (op + 0x44 + 4 * index) as usize;
            let n = trace.len() as int;
            &&& n >= 6
            &&& trace[0].access == Access::Read32(at)
            &&& bit_of(trace[0].reply as u32, 1)
            &&& trace[1].access matches Access::Write32(reg, value) && reg == at && bit_of(
                value,
                0x100,
            ) && !bit_of(value, 4) && value & 0x2a == 0 && value / 0x1000 == trace[0].reply as u32
                / 0x1000
            &&& trace[2].access == Access::Delay(50_000_000)
            &&& trace[4].access matches Access::Write32(reg, value) && reg == at && !bit_of(
                value,
                0x100,
            ) && value & 0x2a == 0
            &&& speed == 0 || speed == 1
            &&& speed == 0 ==> trace[n - 1].access == Access::Read32(at) && bit_of(
                trace[n - 1].reply as u32,
                4,
            )
            &&& speed == 1 ==> {
                &&& trace[n - 2].access == Access::Read32(at)
                &&& !bit_of(trace[n - 2].reply as u32, 4)
                &&& trace[n - 1].access matches Access::Write32(reg, value) && reg == at && bit_of(
                    value,
                    0x2000,
                ) && value & 0x2a == 0
            }
        }),
{
    lemma_port_bits(w.first);
    lemma_port_bits(w.second);
    lemma_port_bits(w.last);
    let reg = ehci::portsc(op, index);
    assert(trace[1].access is Write32);
    assert(trace[4].access is Write32);
}

/// The schedule is switched by bit 5 of the command, of which nothing else changes.
pub proof fn schedule_is_switched_by_its_bit(
    w: ScheduleRun,
    op: usize,
    started: Seq<Exchange>,
    stopped: Seq<Exchange>,
)
    requires
        op <= 0xff,
        ehci::schedule_started(w, op, false, started, Ok(()), false),
        ehci::schedule_stopped(
            w,
            op,
            false,
            stopped,
            Ok(ehci::AsyncStopState::ScheduleStopped),
            false,
        ),
    ensures
        started[0].access == Access::Read32(op),
        started[1].access matches Access::Write32(at, value) && at == op && bit_of(value, 0x20)
            && value % 0x20 == w.command % 0x20 && value / 0x40 == w.command / 0x40,
        stopped[1].access matches Access::Write32(at, value) && at == op && !bit_of(value, 0x20)
            && value % 0x20 == w.command % 0x20 && value / 0x40 == w.command / 0x40,
{
    let c = w.command;
    assert((c | 0x20) / 0x20 % 2 == 1 && (c | 0x20) % 0x20 == c % 0x20 && (c | 0x20) / 0x40 == c
        / 0x40 && (c & 0xffff_ffdf) / 0x20 % 2 == 0 && (c & 0xffff_ffdf) % 0x20 == c % 0x20 && (c
        & 0xffff_ffdf) / 0x40 == c / 0x40) by (bit_vector);
}

/// The controller gets its list of queues and its list of frames, which is empty, before it
/// runs and takes its ports.
pub proof fn controller_knows_its_lists(op: usize, frame: u64, qh: u64)
    requires
        op <= 0xff,
        frame <= u32::MAX,
        qh <= u32::MAX - 4096,
    ensures
        ({
            let trace = high::set_up(op, frame, qh);
            let n = trace.len() as int;
            &&& trace[6].access matches Access::Write32(at, head) && at == op + 0x18 && {
                &&& trace[0].access matches Access::Store32(word, value) && word == head + 4
                    && bit_of(value, 0x8000)
                &&& trace[1].access matches Access::Store32(word, link) && word == head && link
                    == head + 2
                &&& trace[2].access == Access::Store32((head + 16) as usize, 1)
                &&& trace[4].access matches Access::Store32(word, token) && word == head + 24
                    && bit_of(token, 0x40) && !bit_of(token, 0x80)
            }
            &&& n >= 13
            &&& trace[n - 6].access == Access::Write32((op + 0x14) as usize, frame as u32)
            &&& trace[n - 2].access matches Access::Write32(at, command) && at == op && bit_of(
                command,
                1,
            )
            &&& trace[n - 1].access == Access::Write32((op + 0x40) as usize, 1)
        }),
{
}

/// A port of the companion is reset by its bit, and a slow device is told by the port.
pub proof fn companion_tells_the_speed(
    w: OhciPortReset,
    index: usize,
    trace: Seq<Exchange>,
    speed: u8,
)
    requires
        index < 16,
        ohci::ohci_port_reset(w, index, trace, Ok(speed)),
    ensures
        ({
            let at = (0x54 + 4 * index) as usize;
            &&& trace[0].access == Access::Write32(at, 0x10)
            &&& trace.last().access == Access::Read32(at)
            &&& speed == (if bit_of(trace.last().reply as u32, 0x200) {
                2u8
            } else {
                1u8
            })
        }),
{
}

/// The port of the single-port controller is held in reset by bit 8, and says the speed in
/// two bits: fast, normal or slow.
pub proof fn single_port_tells_the_speed(w: Dwc2PortReset, trace: Seq<Exchange>, speed: u8)
    requires
        dwc2::dwc2_port_reset(w, trace, Ok(speed)),
    ensures
        trace[3].access matches Access::Write32(0x440, value) && bit_of(value, 0x100),
        trace[4].access matches Access::Delay(held) && held >= 10_000_000,
        trace[6].access matches Access::Write32(0x440, value) && !bit_of(value, 0x100) && value
            % 0x100 == trace[5].reply as u32 % 0x100,
        w.ended matches Some(status) && {
            let said = status as int / 0x2_0000 % 4;
            &&& status / 2 % 2 == 1
            &&& said == 0 ==> speed == 0
            &&& said == 1 ==> speed == 1
            &&& said == 2 ==> speed == 2
        },
{
    let second = w.second;
    let third = w.third;
    assert((second | 0x100) / 0x100 % 2 == 1) by (bit_vector);
    assert((third & 0xffff_feff) / 0x100 % 2 == 0 && (third & 0xffff_feff) % 0x100 == third % 0x100)
        by (bit_vector);
    assert(trace[3].access is Write32);
    assert(trace[6].access is Write32);
    assert(trace[5] == port::r32(0x440, third));
}

/// Where a link of the schedule leads: bits 1 and 2 say that it is a queue, and bit 0 that
/// it leads nowhere.
pub open spec fn leads_to(link: u32) -> Option<int> {
    if link % 2 == 0 && link / 2 % 4 == 1 {
        Some(link as int / 32 * 32)
    } else {
        None
    }
}

/// A queue that enters the schedule is reached from the fixed one, and leads back to it. It
/// leaves by the fixed one leading to itself.
pub proof fn queue_is_linked_into_the_ring(
    before: Schedule,
    qh: usize,
    maps: Seq<TransferDma>,
)
    requires
        before.qh_base % 32 == 0,
        before.qh_base + 4096 <= u32::MAX,
        before.head < 32,
        qh < 32,
    ensures
        ({
            let fixed = before.qh_base + 64 * before.head;
            let queue = before.qh_base + 64 * qh;
            let inside = transaction::entered(before, qh, maps);
            let outside = transaction::left_ring(before);
            &&& inside[0].access matches Access::Store32(at, link) && at == fixed && leads_to(link)
                == Some(queue)
            &&& inside[1].access matches Access::Store32(at, link) && at == queue && leads_to(link)
                == Some(fixed)
            &&& inside[2].access is Barrier
            &&& outside[1].access matches Access::Store32(at, link) && at == fixed && leads_to(link)
                == Some(fixed)
        }),
{
}

/// An endpoint of the companion enters its ring behind the fixed one, and leads on to what
/// was there before; that stands behind the fixed one again when it has left.
pub proof fn endpoint_is_linked_into_the_ring(before: OhciModel, control: bool, ed: usize)
    requires
        before.ed_base + 2048 <= 0x1_0000_0000,
        before.control_ed < 128,
        before.bulk_ed < 128,
        ed < 128,
    ensures
        ({
            let fixed = before.ed_base + 16 * (if control {
                before.control_ed
            } else {
                before.bulk_ed
            });
            let next = if control {
                before.control_next
            } else {
                before.bulk_next
            };
            let inside = ohci::ed_entered(before, control, ed);
            let outside = ohci::ed_left(before, control);
            &&& inside[0].access matches Access::Store32(at, link) && at == fixed && link
                == before.ed_base + 16 * ed
            &&& inside[1].access matches Access::Store32(at, link) && at == before.ed_base + 16 * ed
                && link == (if next == 0 {
                fixed
            } else {
                next as int
            })
            &&& outside[0].access matches Access::Store32(at, link) && at == fixed && link == (
            if next == 0 {
                fixed
            } else {
                next as int
            })
        }),
{
}

/// A queue of the companion is switched by its own bit, of which the other one is no part,
/// and the companion is told that there is something in it.
pub proof fn companion_queue_is_switched(w: QueueStop, value: u32, control: bool, trace: Seq<Exchange>)
    requires
        ohci::queue_stopped(w, control, trace),
    ensures
        ({
            let own = if control {
                0x10int
            } else {
                0x20
            };
            let started = ohci::queue_started(value, control);
            &&& trace[1].access matches Access::Write32(4, stopped) && {
                &&& !bit_of(stopped, own)
                &&& stopped % 0x10 == w.control % 0x10
                &&& stopped / 0x40 == w.control / 0x40
                &&& bit_of(stopped, 0x30 - own) == bit_of(w.control, 0x30 - own)
            }
            &&& started[1].access matches Access::Write32(4, running) && {
                &&& bit_of(running, own)
                &&& running % 0x10 == value % 0x10
                &&& running / 0x40 == value / 0x40
                &&& bit_of(running, 0x30 - own) == bit_of(value, 0x30 - own)
            }
            &&& started[2].access == Access::Write32(
                8,
                if control {
                    2
                } else {
                    4
                },
            )
        }),
{
    lemma_queue_bits(w.control);
    lemma_queue_bits(value);
    assert(trace[1].access is Write32);
}

proof fn lemma_queue_bits(value: u32)
    by (bit_vector)
    ensures
        (value & 0xffff_ffef) / 0x10 % 2 == 0,
        (value & 0xffff_ffef) % 0x10 == value % 0x10,
        (value & 0xffff_ffef) / 0x20 == value / 0x20,
        (value & 0xffff_ffef) / 0x40 == value / 0x40,
        (value & 0xffff_ffdf) / 0x20 % 2 == 0,
        (value & 0xffff_ffdf) % 0x20 == value % 0x20,
        (value & 0xffff_ffdf) % 0x10 == value % 0x10,
        (value & 0xffff_ffdf) / 0x10 % 2 == value / 0x10 % 2,
        (value & 0xffff_ffdf) / 0x40 == value / 0x40,
        (value | 0x10) / 0x10 % 2 == 1,
        (value | 0x10) % 0x10 == value % 0x10,
        (value | 0x10) / 0x20 == value / 0x20,
        (value | 0x10) / 0x40 == value / 0x40,
        (value | 0x20) / 0x20 % 2 == 1,
        (value | 0x20) % 0x10 == value % 0x10,
        (value | 0x20) / 0x10 % 2 == value / 0x10 % 2,
        (value | 0x20) / 0x40 == value / 0x40,
{
}

} // verus!
