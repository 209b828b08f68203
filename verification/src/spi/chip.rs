//! A serial flash as it stands on the bus: what it sees of the accesses to the bus, and
//! what it makes of the commands.

use vstd::prelude::*;
use crate::port;
use crate::port::{Access, BytePoll, Exchange};
use crate::spi::master;
use crate::spi::master::ByteRun;
use crate::spi::nor;
use crate::spi::nor::{CommandRun, Frame};

verus! {

/// What a device at the first select sees: whether it is selected, what was sent to it
/// since, and what was sent each time before.
pub ghost struct Wire {
    pub selected: bool,
    pub sent: Seq<u8>,
    pub frames: Seq<Seq<u8>>,
}

/// A device that is not selected.
pub open spec fn idle(frames: Seq<Seq<u8>>) -> Wire {
    Wire { selected: false, sent: Seq::empty(), frames }
}

/// What an access means to the device. A byte for the third register is sent on; the
/// sixth register selects the device if both of its bits are set.
pub open spec fn noticed(wire: Wire, exchange: Exchange) -> Wire {
    match exchange.access {
        Access::Write8(2, byte) => if wire.selected {
            Wire { sent: wire.sent.push(byte), ..wire }
        } else {
            wire
        },
        Access::Write8(5, value) => if value & 0x11 == 0x11 {
            if wire.selected {
                wire
            } else {
                Wire { selected: true, sent: Seq::empty(), ..wire }
            }
        } else if wire.selected {
            idle(wire.frames.push(wire.sent))
        } else {
            wire
        },
        _ => wire,
    }
}

/// What accesses mean to the device.
pub open spec fn observed(wire: Wire, trace: Seq<Exchange>) -> Wire
    decreases trace.len(),
{
    if trace.len() == 0 {
        wire
    } else {
        noticed(observed(wire, trace.drop_last()), trace.last())
    }
}

/// What was received over the bus.
pub open spec fn heard(trace: Seq<Exchange>) -> Seq<u8>
    decreases trace.len(),
{
    if trace.len() == 0 {
        Seq::empty()
    } else if trace.last().access == Access::Read8(2) {
        heard(trace.drop_last()).push(trace.last().reply as u8)
    } else {
        heard(trace.drop_last())
    }
}

/// The address in a command: three bytes, the highest first.
pub open spec fn address_in(frame: Seq<u8>) -> int {
    frame[1] * 0x1_0000 + frame[2] * 0x100 + frame[3]
}

/// A flash: its cells, and whether it may be changed.
pub ghost struct Chip {
    pub cells: Seq<u8>,
    pub enabled: bool,
}

/// The cells after bytes were programmed into a page. A bit that is clear stays clear,
/// and behind the last byte of the page comes its first.
pub open spec fn programmed(cells: Seq<u8>, frame: Seq<u8>) -> Seq<u8> {
    let at = address_in(frame);
    Seq::new(
        cells.len(),
        |k: int|
            if k / 256 == at / 256 && (k - at) % 256 < frame.len() - 4 {
                cells[k] & frame[4 + (k - at) % 256]
            } else {
                cells[k]
            },
    )
}

/// The cells after a sector of 4096 bytes was erased: every bit of it is set.
pub open spec fn erased(cells: Seq<u8>, frame: Seq<u8>) -> Seq<u8> {
    Seq::new(
        cells.len(),
        |k: int|
            if k / 4096 == address_in(frame) / 4096 {
                0xff
            } else {
                cells[k]
            },
    )
}

/// What a command does to the flash. Each change has to be enabled anew.
pub open spec fn obeyed(chip: Chip, frame: Seq<u8>) -> Chip {
    if frame.len() == 1 && frame[0] == 0x06 {
        Chip { enabled: true, ..chip }
    } else if 4 < frame.len() <= 260 && frame[0] == 0x02 && chip.enabled {
        Chip { cells: programmed(chip.cells, frame), enabled: false }
    } else if frame.len() == 4 && frame[0] == 0x20 && chip.enabled {
        Chip { cells: erased(chip.cells, frame), enabled: false }
    } else {
        chip
    }
}

/// What commands one after the other do to the flash.
pub open spec fn obeyed_all(chip: Chip, frames: Seq<Seq<u8>>) -> Chip
    decreases frames.len(),
{
    if frames.len() == 0 {
        chip
    } else {
        obeyed(obeyed_all(chip, frames.drop_last()), frames.last())
    }
}

/// Whether the bytes received against a command are those of a flash with such cells.
pub open spec fn answers(cells: Seq<u8>, frame: Seq<u8>, received: Seq<u8>) -> bool {
    frame.len() >= 4 && frame[0] == 0x03 ==> forall|i: int|
        4 <= i < received.len() ==> #[trigger] received[i] == cells[(address_in(frame) + i - 4)
            % cells.len() as int]
}

proof fn lemma_observed_concat(wire: Wire, a: Seq<Exchange>, b: Seq<Exchange>)
    ensures
        observed(wire, a + b) == observed(observed(wire, a), b),
    decreases b.len(),
{
    if b.len() == 0 {
        assert(a + b =~= a);
    } else {
        assert((a + b).drop_last() =~= a + b.drop_last());
        lemma_observed_concat(wire, a, b.drop_last());
    }
}

proof fn lemma_heard_concat(a: Seq<Exchange>, b: Seq<Exchange>)
    ensures
        heard(a + b) == heard(a) + heard(b),
    decreases b.len(),
{
    if b.len() == 0 {
        assert(a + b =~= a);
        assert(heard(a) + heard(b) =~= heard(a));
    } else {
        assert((a + b).drop_last() =~= a + b.drop_last());
        lemma_heard_concat(a, b.drop_last());
        assert(heard(a + b) =~= heard(a) + heard(b));
    }
}

proof fn lemma_one(wire: Wire, exchange: Exchange)
    ensures
        observed(wire, seq![exchange]) == noticed(wire, exchange),
        heard(seq![exchange]) == (if exchange.access == Access::Read8(2) {
            seq![exchange.reply as u8]
        } else {
            Seq::empty()
        }),
{
    let trace = seq![exchange];
    assert(trace.drop_last() =~= Seq::empty());
    assert(trace.last() == exchange);
    reveal_with_fuel(observed, 2);
    reveal_with_fuel(heard, 2);
    assert(Seq::<u8>::empty().push(exchange.reply as u8) =~= seq![exchange.reply as u8]);
}

proof fn lemma_two(wire: Wire, first: Exchange, second: Exchange)
    ensures
        observed(wire, seq![first, second]) == noticed(noticed(wire, first), second),
        heard(seq![first, second]) == heard(seq![first]) + heard(seq![second]),
{
    assert(seq![first, second] =~= seq![first] + seq![second]);
    lemma_observed_concat(wire, seq![first], seq![second]);
    lemma_heard_concat(seq![first], seq![second]);
    lemma_one(wire, first);
    lemma_one(noticed(wire, first), second);
}

proof fn lemma_misses(wire: Wire, poll: BytePoll, values: Seq<u8>)
    requires
        poll.offset == 1,
    ensures
        observed(wire, poll.misses(values)) == wire,
        heard(poll.misses(values)) == Seq::<u8>::empty(),
    decreases values.len(),
{
    if values.len() > 0 {
        lemma_misses(wire, poll, values.drop_last());
        let pair = seq![port::r8(poll.offset, values.last()), port::wait(poll.pause_ns)];
        lemma_observed_concat(wire, poll.misses(values.drop_last()), pair);
        lemma_heard_concat(poll.misses(values.drop_last()), pair);
        lemma_two(wire, pair[0], pair[1]);
        lemma_one(wire, pair[0]);
        lemma_one(wire, pair[1]);
        assert(heard(poll.misses(values)) =~= Seq::<u8>::empty());
    }
}

proof fn lemma_poll(wire: Wire, run: ByteRun)
    requires
        master::byte_poll().done(run.poll, run.ended),
    ensures
        observed(wire, run.poll) == wire,
        heard(run.poll) == Seq::<u8>::empty(),
{
    let poll = master::byte_poll();
    let values = choose|values: Seq<u8>| #[trigger]
        poll.all_missed(values) && match run.ended {
            Some(value) => values.len() < poll.tries && poll.met(value) && run.poll
                == poll.misses(values) + seq![port::r8(poll.offset, value)],
            None => values.len() == poll.tries && run.poll == poll.misses(values),
        };
    lemma_misses(wire, poll, values);
    if let Some(value) = run.ended {
        let last = seq![port::r8(poll.offset, value)];
        lemma_observed_concat(wire, poll.misses(values), last);
        lemma_heard_concat(poll.misses(values), last);
        lemma_one(wire, last[0]);
        assert(heard(run.poll) =~= Seq::<u8>::empty());
    }
}

proof fn lemma_byte(wire: Wire, run: ByteRun, byte: u8)
    requires
        wire.selected,
        master::byte_poll().done(run.poll, run.ended),
    ensures
        observed(wire, master::byte_trace(run, byte)) == (Wire {
            sent: wire.sent.push(byte),
            ..wire
        }),
        heard(master::byte_trace(run, byte)) == (if run.ended is Some {
            seq![run.input]
        } else {
            Seq::empty()
        }),
{
    let after = Wire { sent: wire.sent.push(byte), ..wire };
    let head = seq![port::w8(master::FIFO_REG, byte)];
    let tail = if run.ended is Some {
        seq![port::r8(master::FIFO_REG, run.input)]
    } else {
        Seq::empty()
    };
    lemma_one(wire, head[0]);
    lemma_poll(after, run);
    lemma_observed_concat(wire, head, run.poll);
    lemma_observed_concat(wire, head + run.poll, tail);
    lemma_heard_concat(head, run.poll);
    lemma_heard_concat(head + run.poll, tail);
    if run.ended is Some {
        lemma_one(after, tail[0]);
    }
    assert(heard(master::byte_trace(run, byte)) =~= if run.ended is Some {
        seq![run.input]
    } else {
        Seq::empty()
    });
}

proof fn lemma_bytes(wire: Wire, runs: Seq<ByteRun>, bytes: Seq<u8>)
    requires
        wire.selected,
        wire.sent == Seq::<u8>::empty(),
        runs.len() <= bytes.len(),
        forall|i: int|
            0 <= i < runs.len() ==> master::byte_poll().done(
                (#[trigger] runs[i]).poll,
                runs[i].ended,
            ),
    ensures
        observed(wire, master::bytes_trace(runs, bytes)) == (Wire {
            sent: bytes.take(runs.len() as int),
            ..wire
        }),
        (forall|i: int| 0 <= i < runs.len() ==> (#[trigger] runs[i]).ended is Some) ==> heard(
            master::bytes_trace(runs, bytes),
        ) == master::inputs(runs, runs.len() as int),
    decreases runs.len(),
{
    if runs.len() == 0 {
        assert(bytes.take(0) =~= Seq::<u8>::empty());
        assert(master::inputs(runs, 0) =~= Seq::<u8>::empty());
    } else {
        let n = runs.len() - 1;
        let earlier = runs.drop_last();
        assert forall|i: int| 0 <= i < earlier.len() implies master::byte_poll().done(
            (#[trigger] earlier[i]).poll,
            earlier[i].ended,
        ) by {
            assert(earlier[i] == runs[i]);
        }
        lemma_bytes(wire, earlier, bytes);
        let middle = Wire { sent: bytes.take(n), ..wire };
        assert(runs.last() == runs[n]);
        lemma_byte(middle, runs.last(), bytes[n]);
        let front = master::bytes_trace(earlier, bytes);
        let back = master::byte_trace(runs.last(), bytes[n]);
        lemma_observed_concat(wire, front, back);
        lemma_heard_concat(front, back);
        assert(bytes.take(n).push(bytes[n]) =~= bytes.take(n + 1));
        if forall|i: int| 0 <= i < runs.len() ==> (#[trigger] runs[i]).ended is Some {
            assert forall|i: int| 0 <= i < earlier.len() implies (#[trigger] earlier[i]).ended
                is Some by {
                assert(earlier[i] == runs[i]);
            }
            assert(heard(front) + heard(back) =~= master::inputs(runs, runs.len() as int));
        }
    }
}

proof fn lemma_select(value: u8)
    ensures
        ((value & !(0x11u8 << 0u8)) | (0x11u8 << 0u8)) & 0x11 == 0x11,
        ((value & !(0x11u8 << 0u8)) | (1u8 << 0u8)) & 0x11 != 0x11,
{
    assert(((value & !(0x11u8 << 0u8)) | (0x11u8 << 0u8)) & 0x11 == 0x11 && ((value & !(0x11u8
        << 0u8)) | (1u8 << 0u8)) & 0x11 != 0x11) by (bit_vector);
}

/// A frame reaches the device as it was sent, as far as the bus carried it.
proof fn lemma_frame(frames: Seq<Seq<u8>>, w: Frame, bytes: Seq<u8>)
    requires
        nor::frame_done(w, bytes),
    ensures
        observed(idle(frames), nor::frame_trace(w, bytes)) == idle(
            frames.push(bytes.take(w.runs.len() as int)),
        ),
        w.ok ==> heard(nor::frame_trace(w, bytes)) == w.received && bytes.take(w.runs.len() as int)
            == bytes,
        bytes.len() > 0 ==> w.runs.len() > 0,
{
    let start = idle(frames);
    let head = master::selecting(0, w.before);
    let body = master::bytes_trace(w.runs, bytes);
    let tail = master::releasing(0, w.after);
    lemma_select(w.before);
    lemma_select(w.after);
    lemma_two(start, head[0], head[1]);
    lemma_one(start, head[0]);
    lemma_one(start, head[1]);
    let chosen = Wire { selected: true, sent: Seq::empty(), frames };
    assert(head =~= seq![head[0], head[1]]);
    assert(observed(start, head) == chosen);
    lemma_bytes(chosen, w.runs, bytes);
    let full = Wire { sent: bytes.take(w.runs.len() as int), ..chosen };
    lemma_observed_concat(start, head, body);
    lemma_observed_concat(start, head + body, tail);
    lemma_two(full, tail[0], tail[1]);
    lemma_one(full, tail[0]);
    lemma_one(full, tail[1]);
    assert(tail =~= seq![tail[0], tail[1]]);
    lemma_heard_concat(head, body);
    lemma_heard_concat(head + body, tail);
    assert(heard(head) =~= Seq::<u8>::empty());
    assert(heard(tail) =~= Seq::<u8>::empty());
    if w.ok {
        assert(bytes.take(bytes.len() as int) =~= bytes);
        assert forall|i: int| 0 <= i < w.runs.len() implies (#[trigger] w.runs[i]).ended is Some by {
            if i == w.runs.len() - 1 {
                assert(w.runs.last() == w.runs[i]);
            }
        }
        assert(heard(head + body + tail) =~= w.received);
    }
}

/// What is read are the bytes that the flash has from the offset on.
pub proof fn read_gives_the_cells(
    w: Frame,
    size: u64,
    offset: usize,
    out: Seq<u8>,
    out_after: Seq<u8>,
    trace: Seq<Exchange>,
    cells: Seq<u8>,
    frames: Seq<Seq<u8>>,
)
    requires
        nor::read_went(w, size, offset, out, out_after, trace, Ok(())),
        offset < 0x100_0000,
        offset + out.len() <= cells.len(),
        answers(cells, observed(idle(frames), trace).frames.last(), heard(trace)),
    ensures
        observed(idle(frames), trace).frames.len() == frames.len() + 1,
        out_after == cells.subrange(offset as int, offset + out.len()),
{
    let bytes = nor::asking(nor::addressed(nor::CMD_READ, offset as int), out.len() as int);
    lemma_frame(frames, w, bytes);
    let frame = observed(idle(frames), trace).frames.last();
    assert(frame =~= bytes);
    assert(offset as int / 0x10000 % 256 * 0x1_0000 + offset as int / 0x100 % 256 * 0x100
        + offset as int % 256 == offset) by {
        let o = offset as int;
        assert(o / 0x100 == o / 0x10000 * 0x100 + o / 0x100 % 0x100);
    }
    assert(address_in(frame) == offset);
    assert(heard(trace) == w.received);
    assert(w.received.len() == out.len() + 4);
    assert forall|i: int| 0 <= i < out.len() implies out_after[i] == cells[offset + i] by {
        let k = offset + i;
        vstd::arithmetic::div_mod::lemma_small_mod(k as nat, cells.len());
        assert(w.received[4 + i] == cells[(address_in(frame) + (4 + i) - 4) % cells.len() as int]);
        assert(address_in(frame) + (4 + i) - 4 == k);
        assert(nor::payload(w.received, 4)[i] == w.received[4 + i]);
    }
    assert(out_after =~= cells.subrange(offset as int, offset + out.len()));
}

proof fn lemma_push(chip: Chip, frames: Seq<Seq<u8>>, frame: Seq<u8>)
    ensures
        obeyed_all(chip, frames.push(frame)) == obeyed(obeyed_all(chip, frames), frame),
{
    assert(frames.push(frame).drop_last() =~= frames);
}

/// Looking whether the flash is done changes nothing.
proof fn lemma_wait(chip: Chip, frames: Seq<Seq<u8>>, looks: Seq<Frame>) -> (after: Seq<Seq<u8>>)
    requires
        forall|i: int|
            0 <= i < looks.len() ==> nor::frame_done(
                #[trigger] looks[i],
                nor::asking(seq![nor::CMD_READ_STATUS], 1),
            ),
    ensures
        observed(idle(frames), nor::wait_trace(looks)) == idle(after),
        obeyed_all(chip, after) == obeyed_all(chip, frames),
    decreases looks.len(),
{
    if looks.len() == 0 {
        frames
    } else {
        let earlier = looks.drop_last();
        assert forall|i: int| 0 <= i < earlier.len() implies nor::frame_done(
            #[trigger] earlier[i],
            nor::asking(seq![nor::CMD_READ_STATUS], 1),
        ) by {
            assert(earlier[i] == looks[i]);
        }
        let middle = lemma_wait(chip, frames, earlier);
        let bytes = nor::asking(seq![nor::CMD_READ_STATUS], 1);
        let last = looks.last();
        assert(last == looks[looks.len() - 1]);
        lemma_frame(middle, last, bytes);
        let after = middle.push(bytes.take(last.runs.len() as int));
        let pause = if nor::busy(last) {
            seq![port::wait(100_000)]
        } else {
            Seq::empty()
        };
        let front = nor::wait_trace(earlier);
        let body = nor::frame_trace(last, bytes);
        lemma_observed_concat(idle(frames), front, body);
        lemma_observed_concat(idle(frames), front + body, pause);
        if nor::busy(last) {
            lemma_one(idle(after), pause[0]);
        }
        assert(bytes[0] == 0x05);
        assert(bytes.take(last.runs.len() as int)[0] == 0x05);
        lemma_push(chip, middle, bytes.take(last.runs.len() as int));
        after
    }
}

/// A command that changes the flash is obeyed once.
proof fn lemma_command(
    chip: Chip,
    frames: Seq<Seq<u8>>,
    w: CommandRun,
    bytes: Seq<u8>,
) -> (after: Seq<Seq<u8>>)
    requires
        nor::command_done(w, bytes),
        w.result is Ok,
    ensures
        observed(idle(frames), w.trace) == idle(after),
        obeyed_all(chip, after) == obeyed(
            Chip { enabled: true, ..obeyed_all(chip, frames) },
            bytes,
        ),
{
    let enable = seq![nor::CMD_WRITE_ENABLE];
    lemma_frame(frames, w.enable, enable);
    let first = frames.push(enable);
    lemma_frame(first, w.body, bytes);
    let second = first.push(bytes);
    let a = nor::frame_trace(w.enable, enable);
    let b = nor::frame_trace(w.body, bytes);
    lemma_observed_concat(idle(frames), a, b);
    lemma_observed_concat(idle(frames), a + b, nor::wait_trace(w.frames));
    let after = lemma_wait(chip, second, w.frames);
    lemma_push(chip, frames, enable);
    lemma_push(chip, first, bytes);
    after
}

/// The cells of which those from `offset` up to `to` went through a write of `data` at
/// `offset`.
spec fn overwritten(cells: Seq<u8>, offset: int, data: Seq<u8>, to: int) -> Seq<u8> {
    Seq::new(
        cells.len(),
        |k: int|
            if offset <= k < to {
                cells[k] & data[k - offset]
            } else {
                cells[k]
            },
    )
}

proof fn lemma_address(offset: int, command: u8, rest: Seq<u8>)
    requires
        0 <= offset < 0x100_0000,
    ensures
        address_in(nor::addressed(command, offset) + rest) == offset,
        (nor::addressed(command, offset) + rest)[0] == command,
        (nor::addressed(command, offset) + rest).len() == 4 + rest.len(),
{
    let o = offset;
    assert(o / 0x100 == o / 0x10000 * 0x100 + o / 0x100 % 0x100);
}

proof fn lemma_program(cells: Seq<u8>, offset: int, data: Seq<u8>, i: int)
    requires
        0 <= offset,
        offset + data.len() <= 0x100_0000,
        offset + data.len() <= cells.len(),
        0 <= i < nor::chunk_count(offset, data.len() as int),
    ensures
        ({
            let from = nor::chunk_start(offset, i);
            let to = nor::chunk_end(offset, data.len() as int, i);
            let frame = nor::write_commands(offset, data)[i];
            &&& 4 < frame.len() <= 260
            &&& frame[0] == 0x02
            &&& programmed(overwritten(cells, offset, data, from), frame) == overwritten(
                cells,
                offset,
                data,
                to,
            )
        }),
{
    let from = nor::chunk_start(offset, i);
    let to = nor::chunk_end(offset, data.len() as int, i);
    nor::parts_keep_to_pages(offset, data.len() as int, i);
    let part = data.subrange(from - offset, to - offset);
    let frame = nor::write_commands(offset, data)[i];
    assert(frame == nor::addressed(nor::CMD_PAGE_PROGRAM, from) + part);
    lemma_address(from, nor::CMD_PAGE_PROGRAM, part);
    let before = overwritten(cells, offset, data, from);
    assert forall|k: int| 0 <= k < cells.len() implies programmed(before, frame)[k] == overwritten(
        cells,
        offset,
        data,
        to,
    )[k] by {
        if from <= k < to {
            assert(k / 256 == from / 256);
            assert((k - from) % 256 == k - from);
            assert(frame[4 + (k - from)] == part[k - from]);
            assert(part[k - from] == data[k - offset]);
        } else if k / 256 == from / 256 {
            assert((k - from) % 256 >= to - from) by {
                if k >= to {
                    assert((k - from) % 256 == k - from);
                } else {
                    // Below the part the page has something of the write only if the part
                    // does not begin it.
                    assert(k < from);
                    assert((k - from) % 256 == k - from + 256);
                    assert(to - 1 < (from / 256 + 1) * 256);
                    assert(k >= from / 256 * 256);
                }
            }
        }
    }
    assert(programmed(before, frame) =~= overwritten(cells, offset, data, to));
}

proof fn lemma_writes(
    chip: Chip,
    frames: Seq<Seq<u8>>,
    offset: int,
    data: Seq<u8>,
    runs: Seq<CommandRun>,
) -> (after: Seq<Seq<u8>>)
    requires
        0 <= offset,
        offset + data.len() <= 0x100_0000,
        offset + data.len() <= chip.cells.len(),
        obeyed_all(chip, frames) == chip,
        runs.len() <= nor::chunk_count(offset, data.len() as int),
        forall|i: int|
            0 <= i < runs.len() ==> nor::command_done(
                #[trigger] runs[i],
                nor::write_commands(offset, data)[i],
            ) && runs[i].result is Ok,
    ensures
        observed(idle(frames), nor::commands_trace(runs)) == idle(after),
        obeyed_all(chip, after).cells == overwritten(
            chip.cells,
            offset,
            data,
            if runs.len() == 0 {
                offset
            } else {
                nor::chunk_end(offset, data.len() as int, runs.len() - 1)
            },
        ),
    decreases runs.len(),
{
    if runs.len() == 0 {
        assert(overwritten(chip.cells, offset, data, offset) =~= chip.cells);
        frames
    } else {
        let n = runs.len() - 1;
        let earlier = runs.drop_last();
        assert forall|i: int| 0 <= i < earlier.len() implies nor::command_done(
            #[trigger] earlier[i],
            nor::write_commands(offset, data)[i],
        ) && earlier[i].result is Ok by {
            assert(earlier[i] == runs[i]);
        }
        let middle = lemma_writes(chip, frames, offset, data, earlier);
        assert(runs.last() == runs[n]);
        let bytes = nor::write_commands(offset, data)[n];
        let after = lemma_command(chip, middle, runs.last(), bytes);
        lemma_observed_concat(idle(frames), nor::commands_trace(earlier), runs.last().trace);
        nor::parts_keep_to_pages(offset, data.len() as int, n);
        if n > 0 {
            nor::parts_keep_to_pages(offset, data.len() as int, n - 1);
        }
        lemma_program(chip.cells, offset, data, n);
        after
    }
}

/// A write that succeeded puts its data into the cells from the offset on, as far as
/// clearing bits can do that, and touches no other cell.
pub proof fn write_changes_its_cells(
    runs: Seq<CommandRun>,
    size: u64,
    offset: usize,
    data: Seq<u8>,
    trace: Seq<Exchange>,
    chip: Chip,
)
    requires
        nor::change_went(
            runs,
            nor::write_refusal(size, offset, data.len() as int),
            nor::write_commands(offset as int, data),
            trace,
            Ok(()),
        ),
        offset + data.len() <= 0x100_0000,
        offset + data.len() <= chip.cells.len(),
    ensures
        !observed(idle(Seq::empty()), trace).selected,
        ({
            let cells = obeyed_all(chip, observed(idle(Seq::empty()), trace).frames).cells;
            &&& cells.len() == chip.cells.len()
            &&& forall|k: int|
                offset <= k < offset + data.len() ==> #[trigger] cells[k] == chip.cells[k] & data[k
                    - offset]
            &&& forall|k: int|
                0 <= k < cells.len() && !(offset <= k < offset + data.len()) ==> #[trigger] cells[k]
                    == chip.cells[k]
        }),
{
    let none = Seq::<Seq<u8>>::empty();
    assert forall|i: int| 0 <= i < runs.len() implies nor::command_done(
        #[trigger] runs[i],
        nor::write_commands(offset as int, data)[i],
    ) && runs[i].result is Ok by {
        if i == runs.len() - 1 {
            assert(runs.last() == runs[i]);
        }
    }
    let after = lemma_writes(chip, none, offset as int, data, runs);
    let count = nor::chunk_count(offset as int, data.len() as int);
    if data.len() > 0 {
        assert(count > 0) by {
            assert((offset + data.len() - 1) / 256 >= offset as int / 256);
        }
        nor::parts_keep_to_pages(offset as int, data.len() as int, 0);
    }
}

proof fn lemma_same_sector(k: int, at: int)
    requires
        at % 4096 == 0,
    ensures
        k / 4096 == at / 4096 <==> at <= k < at + 4096,
{
}

#[verifier::spinoff_prover]
#[verifier::rlimit(60)]
proof fn lemma_erasures(
    chip: Chip,
    frames: Seq<Seq<u8>>,
    offset: int,
    len: int,
    runs: Seq<CommandRun>,
) -> (after: Seq<Seq<u8>>)
    requires
        0 <= offset,
        offset % 4096 == 0,
        len % 4096 == 0,
        0 <= len,
        offset + len <= 0x100_0000,
        obeyed_all(chip, frames) == chip,
        runs.len() <= len / 4096,
        forall|i: int|
            0 <= i < runs.len() ==> nor::command_done(
                #[trigger] runs[i],
                nor::erase_commands(offset, len)[i],
            ) && runs[i].result is Ok,
    ensures
        observed(idle(frames), nor::commands_trace(runs)) == idle(after),
        ({
            let cells = obeyed_all(chip, after).cells;
            &&& cells.len() == chip.cells.len()
            &&& forall|k: int|
                0 <= k < cells.len() ==> #[trigger] cells[k] == (if offset <= k < offset + 4096
                    * runs.len() {
                    0xff
                } else {
                    chip.cells[k]
                })
        }),
    decreases runs.len(),
{
    if runs.len() == 0 {
        frames
    } else {
        let n = runs.len() - 1;
        let earlier = runs.drop_last();
        assert forall|i: int| 0 <= i < earlier.len() implies nor::command_done(
            #[trigger] earlier[i],
            nor::erase_commands(offset, len)[i],
        ) && earlier[i].result is Ok by {
            assert(earlier[i] == runs[i]);
        }
        let middle = lemma_erasures(chip, frames, offset, len, earlier);
        assert(runs.last() == runs[n]);
        let bytes = nor::erase_commands(offset, len)[n];
        let after = lemma_command(chip, middle, runs.last(), bytes);
        lemma_observed_concat(idle(frames), nor::commands_trace(earlier), runs.last().trace);
        let at = offset + n * 4096;
        assert(bytes == nor::addressed(nor::CMD_SECTOR_ERASE, at));
        assert(bytes =~= nor::addressed(nor::CMD_SECTOR_ERASE, at) + Seq::<u8>::empty());
        lemma_address(at, nor::CMD_SECTOR_ERASE, Seq::empty());
        let cells = obeyed_all(chip, after).cells;
        assert forall|k: int| 0 <= k < cells.len() implies #[trigger] cells[k] == (if offset <= k
            < offset + 4096 * runs.len() {
            0xff
        } else {
            chip.cells[k]
        }) by {
            lemma_same_sector(k, at);
        }
        after
    }
}

/// An erasure that succeeded sets every bit of its sectors and touches no other cell.
pub proof fn erasure_clears_its_sectors(
    runs: Seq<CommandRun>,
    size: u64,
    offset: usize,
    len: usize,
    trace: Seq<Exchange>,
    chip: Chip,
)
    requires
        nor::change_went(
            runs,
            nor::erase_refusal(size, offset, len),
            nor::erase_commands(offset as int, len as int),
            trace,
            Ok(()),
        ),
        offset + len <= 0x100_0000,
    ensures
        offset % 4096 == 0,
        len % 4096 == 0,
        !observed(idle(Seq::empty()), trace).selected,
        ({
            let cells = obeyed_all(chip, observed(idle(Seq::empty()), trace).frames).cells;
            &&& cells.len() == chip.cells.len()
            &&& forall|k: int|
                0 <= k < cells.len() ==> #[trigger] cells[k] == (if offset <= k < offset + len {
                    0xff
                } else {
                    chip.cells[k]
                })
        }),
{
    let none = Seq::<Seq<u8>>::empty();
    assert forall|i: int| 0 <= i < runs.len() implies nor::command_done(
        #[trigger] runs[i],
        nor::erase_commands(offset as int, len as int)[i],
    ) && runs[i].result is Ok by {
        if i == runs.len() - 1 {
            assert(runs.last() == runs[i]);
        }
    }
    let after = lemma_erasures(chip, none, offset as int, len as int, runs);
}

/// What was written into erased cells is what a read gives back.
pub proof fn written_is_read_back(
    runs: Seq<CommandRun>,
    size: u64,
    offset: usize,
    data: Seq<u8>,
    write_trace: Seq<Exchange>,
    chip: Chip,
    w: Frame,
    out: Seq<u8>,
    out_after: Seq<u8>,
    read_trace: Seq<Exchange>,
)
    requires
        nor::change_went(
            runs,
            nor::write_refusal(size, offset, data.len() as int),
            nor::write_commands(offset as int, data),
            write_trace,
            Ok(()),
        ),
        offset + data.len() <= 0x100_0000,
        offset < 0x100_0000,
        offset + data.len() <= chip.cells.len(),
        forall|k: int| offset <= k < offset + data.len() ==> #[trigger] chip.cells[k] == 0xff,
        out.len() == data.len(),
        nor::read_went(w, size, offset, out, out_after, read_trace, Ok(())),
        ({
            let frames = observed(idle(Seq::empty()), write_trace).frames;
            answers(
                obeyed_all(chip, frames).cells,
                observed(idle(frames), read_trace).frames.last(),
                heard(read_trace),
            )
        }),
    ensures
        out_after == data,
{
    let frames = observed(idle(Seq::empty()), write_trace).frames;
    let cells = obeyed_all(chip, frames).cells;
    write_changes_its_cells(runs, size, offset, data, write_trace, chip);
    read_gives_the_cells(w, size, offset, out, out_after, read_trace, cells, frames);
    assert forall|i: int| 0 <= i < data.len() implies out_after[i] == data[i] by {
        let d = data[i];
        assert(cells[offset + i] == chip.cells[offset + i] & data[offset + i - offset]);
        assert(chip.cells[offset + i] == 0xff);
        assert(0xffu8 & d == d) by (bit_vector);
    }
    assert(out_after =~= data);
}

/// The three bytes of an identity come back in the order in which they were received.
pub proof fn identity_is_what_was_received(
    w: Frame,
    trace: Seq<Exchange>,
    id: [u8; 3],
    frames: Seq<Seq<u8>>,
)
    requires
        nor::identified(w, trace, Ok(id)),
    ensures
        observed(idle(frames), trace).frames.last() == seq![0x9fu8, 0u8, 0u8, 0u8],
        heard(trace).len() == 4,
        id@ == heard(trace).skip(1),
{
    let bytes = nor::asking(seq![nor::CMD_READ_ID], 3);
    lemma_frame(frames, w, bytes);
    assert(bytes =~= seq![0x9fu8, 0u8, 0u8, 0u8]);
}

} // verus!
