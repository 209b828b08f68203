//! What goes over the wires of the bus.

use vstd::prelude::*;
use crate::i2c;
use crate::i2c::{BusStep, Ls2kI2cError, StepRun};
use crate::port::{Access, BytePoll, Exchange};

verus! {

/// What happens on the wires.
pub ghost enum Event {
    /// The bus is taken and a device called, to be read or not.
    Start(int, bool),
    Sent(u8),
    /// A device is let send a byte, and told to go on or not.
    Asked(bool),
    /// The byte that a device sent is picked up.
    Taken(u8),
    Stop,
}

/// A controller: the byte that it is to send next, and what it has done.
pub ghost struct Line {
    pub data: u8,
    pub events: Seq<Event>,
}

/// What a controller does at a command.
pub open spec fn commanded(data: u8, command: u8) -> Seq<Event> {
    if command / 0x80 % 2 == 1 && command / 0x10 % 2 == 1 {
        seq![Event::Start(data as int / 2, data % 2 == 1)]
    } else if command / 0x10 % 2 == 1 {
        seq![Event::Sent(data)]
    } else if command / 0x20 % 2 == 1 {
        seq![Event::Asked(command / 8 % 2 == 0)]
    } else if command / 0x40 % 2 == 1 {
        seq![Event::Stop]
    } else {
        Seq::empty()
    }
}

/// What a controller makes of an access.
pub open spec fn noticed(line: Line, exchange: Exchange) -> Line {
    match exchange.access {
        Access::Write8(at, value) => if at == 3 {
            Line { data: value, ..line }
        } else if at == 4 {
            Line { events: line.events + commanded(line.data, value), ..line }
        } else {
            line
        },
        Access::Read8(at) => if at == 3 {
            Line { events: line.events.push(Event::Taken(exchange.reply as u8)), ..line }
        } else {
            line
        },
        _ => line,
    }
}

/// What a controller makes of accesses, one after the other.
pub open spec fn observed(line: Line, trace: Seq<Exchange>) -> Line
    decreases trace.len(),
{
    if trace.len() == 0 {
        line
    } else {
        noticed(observed(line, trace.drop_last()), trace.last())
    }
}

proof fn lemma_concat(line: Line, a: Seq<Exchange>, b: Seq<Exchange>)
    ensures
        observed(line, a + b) == observed(observed(line, a), b),
    decreases b.len(),
{
    if b.len() == 0 {
        assert(a + b =~= a);
    } else {
        assert((a + b).drop_last() =~= a + b.drop_last());
        lemma_concat(line, a, b.drop_last());
    }
}

proof fn lemma_two(line: Line, a: Exchange, b: Exchange)
    ensures
        observed(line, seq![a, b]) == noticed(noticed(line, a), b),
        observed(line, seq![a]) == noticed(line, a),
{
    reveal_with_fuel(observed, 3);
    assert(seq![a, b].drop_last() =~= seq![a]);
    assert(seq![a].drop_last() =~= Seq::<Exchange>::empty());
}

proof fn lemma_misses(line: Line, poll: BytePoll, values: Seq<u8>)
    requires
        poll.offset == 4,
    ensures
        observed(line, poll.misses(values)) == line,
    decreases values.len(),
{
    if values.len() > 0 {
        let front = poll.misses(values.drop_last());
        let miss = seq![
            crate::port::r8(poll.offset, values.last()),
            crate::port::wait(poll.pause_ns),
        ];
        lemma_misses(line, poll, values.drop_last());
        lemma_concat(line, front, miss);
        lemma_two(line, miss[0], miss[1]);
    }
}

/// A poll of the state does nothing on the wires.
proof fn lemma_poll(line: Line, poll: BytePoll, trace: Seq<Exchange>, ended: Option<u8>)
    requires
        poll.offset == 4,
        poll.done(trace, ended),
    ensures
        observed(line, trace) == line,
{
    let values = choose|values: Seq<u8>| #[trigger]
        poll.all_missed(values) && match ended {
            Some(value) => values.len() < poll.tries && poll.met(value) && trace == poll.misses(
                values,
            ) + seq![crate::port::r8(poll.offset, value)],
            None => values.len() == poll.tries && trace == poll.misses(values),
        };
    lemma_misses(line, poll, values);
    if let Some(value) = ended {
        let last = crate::port::r8(poll.offset, value);
        lemma_concat(line, poll.misses(values), seq![last]);
        lemma_two(line, last, last);
    }
}

/// What a step does on the wires, if it goes well.
spec fn step_events(step: BusStep, value: u8) -> Seq<Event> {
    match step {
        BusStep::Start(address, read) => seq![Event::Start(address as int, read)],
        BusStep::Send(byte) => seq![Event::Sent(byte)],
        BusStep::Receive(last) => seq![Event::Asked(!last), Event::Taken(value)],
        BusStep::Stop => seq![Event::Stop],
    }
}

proof fn lemma_sent(line: Line, w: StepRun, byte: u8, command: u8)
    requires
        i2c::sent(w, byte, command),
        w.value is Ok,
    ensures
        observed(line, w.trace).events == line.events + commanded(byte, command),
{
    let asked = seq![crate::port::w8(3, byte), crate::port::w8(4, command)];
    let tail = seq![crate::port::w8(4, 1), crate::port::r8(4, w.status)];
    lemma_two(line, asked[0], asked[1]);
    let mid = observed(line, asked);
    lemma_poll(mid, i2c::done_poll(), w.poll, w.ended);
    lemma_concat(line, asked, w.poll);
    lemma_concat(line, asked + w.poll, tail);
    lemma_two(mid, tail[0], tail[1]);
    assert(mid.events + commanded(mid.data, 1) =~= mid.events);
}

proof fn lemma_step(line: Line, w: StepRun, step: BusStep)
    requires
        i2c::step_done(w, step),
        w.value is Ok,
        step matches BusStep::Start(address, _) ==> address < 128,
    ensures
        observed(line, w.trace).events == line.events + step_events(step, w.value->Ok_0),
{
    match step {
        BusStep::Start(address, read) => {
            let byte = ((address * 2) % 256 + (if read {
                1int
            } else {
                0
            })) as u8;
            lemma_sent(line, w, byte, 0x90);
        },
        BusStep::Send(byte) => {
            lemma_sent(line, w, byte, 0x10);
        },
        BusStep::Receive(last) => {
            let command = crate::port::w8(
                4,
                if last {
                    0x28
                } else {
                    0x20
                },
            );
            let asked = seq![command];
            let tail = seq![crate::port::w8(4, 1), crate::port::r8(3, w.status)];
            lemma_two(line, command, command);
            let mid = observed(line, asked);
            lemma_poll(mid, i2c::done_poll(), w.poll, w.ended);
            lemma_concat(line, asked, w.poll);
            lemma_concat(line, asked + w.poll, tail);
            lemma_two(mid, tail[0], tail[1]);
            assert(mid.events + commanded(mid.data, 1) =~= mid.events);
            assert(observed(line, w.trace).events =~= line.events + step_events(
                step,
                w.value->Ok_0,
            ));
        },
        BusStep::Stop => {
            let command = crate::port::w8(4, 0x40);
            lemma_two(line, command, command);
            lemma_poll(observed(line, seq![command]), i2c::free_poll(), w.poll, w.ended);
            lemma_concat(line, seq![command], w.poll);
        },
    }
}

/// What steps do on the wires.
spec fn script_events(runs: Seq<StepRun>, steps: Seq<BusStep>) -> Seq<Event>
    decreases runs.len(),
{
    if runs.len() == 0 {
        Seq::empty()
    } else {
        script_events(runs.drop_last(), steps) + step_events(
            steps[runs.len() - 1],
            runs.last().value->Ok_0,
        )
    }
}

proof fn lemma_script(line: Line, runs: Seq<StepRun>, steps: Seq<BusStep>)
    requires
        runs.len() <= steps.len(),
        forall|i: int|
            0 <= i < runs.len() ==> i2c::step_done(#[trigger] runs[i], steps[i])
                && runs[i].value is Ok && (steps[i] matches BusStep::Start(address, _) ==> address
                < 128),
    ensures
        observed(line, i2c::steps_trace(runs)).events == line.events + script_events(runs, steps),
    decreases runs.len(),
{
    if runs.len() == 0 {
        assert(line.events + script_events(runs, steps) =~= line.events);
    } else {
        let front = runs.drop_last();
        assert forall|i: int| 0 <= i < front.len() implies i2c::step_done(
            #[trigger] front[i],
            steps[i],
        ) && front[i].value is Ok && (steps[i] matches BusStep::Start(address, _) ==> address
            < 128) by {
            assert(front[i] == runs[i]);
        }
        lemma_script(line, front, steps);
        assert(runs[runs.len() - 1] == runs.last());
        lemma_concat(line, i2c::steps_trace(front), runs.last().trace);
        lemma_step(observed(line, i2c::steps_trace(front)), runs.last(), steps[runs.len() - 1]);
        assert(observed(line, i2c::steps_trace(runs)).events =~= line.events + script_events(
            runs,
            steps,
        ));
    }
}

/// Bytes as they are sent.
pub open spec fn bytes_sent(data: Seq<u8>) -> Seq<Event> {
    data.map_values(|byte: u8| Event::Sent(byte))
}

/// Bytes as they are received out of `len` ones: the device is told to go on until the
/// last.
pub open spec fn bytes_received(data: Seq<u8>, len: int) -> Seq<Event>
    decreases data.len(),
{
    if data.len() == 0 {
        Seq::empty()
    } else {
        bytes_received(data.drop_last(), len) + seq![
            Event::Asked(data.len() < len),
            Event::Taken(data.last()),
        ]
    }
}

proof fn lemma_prefix(runs: Seq<StepRun>, steps: Seq<BusStep>, n: int)
    requires
        0 < n <= runs.len(),
    ensures
        script_events(runs.take(n), steps) == script_events(runs.take(n - 1), steps) + step_events(
            steps[n - 1],
            runs[n - 1].value->Ok_0,
        ),
        script_events(runs.take(0), steps).len() == 0,
        i2c::received_by(runs.take(n), steps) == (if steps[n - 1] is Receive && runs[n - 1].value
            is Ok {
            i2c::received_by(runs.take(n - 1), steps).push(runs[n - 1].value->Ok_0)
        } else {
            i2c::received_by(runs.take(n - 1), steps)
        }),
        i2c::received_by(runs.take(0), steps).len() == 0,
{
    assert(runs.take(n).drop_last() =~= runs.take(n - 1));
}

/// What the bytes of a write do, `n` of them, behind steps that did `head`.
proof fn lemma_sending(
    runs: Seq<StepRun>,
    steps: Seq<BusStep>,
    from: int,
    data: Seq<u8>,
    n: int,
)
    requires
        0 <= n <= data.len(),
        0 <= from,
        from + data.len() <= runs.len(),
        forall|i: int| 0 <= i < data.len() ==> steps[from + i] == BusStep::Send(#[trigger] data[i]),
    ensures
        script_events(runs.take(from + n), steps) == script_events(runs.take(from), steps)
            + bytes_sent(data.take(n)),
    decreases n,
{
    if n == 0 {
        assert(script_events(runs.take(from), steps) + bytes_sent(data.take(0)) =~= script_events(
            runs.take(from),
            steps,
        ));
    } else {
        lemma_sending(runs, steps, from, data, n - 1);
        lemma_prefix(runs, steps, from + n);
        assert(data[n - 1] == data[n - 1]);
        assert(bytes_sent(data.take(n)) =~= bytes_sent(data.take(n - 1)) + seq![
            Event::Sent(data[n - 1]),
        ]);
        assert(script_events(runs.take(from + n), steps) =~= script_events(runs.take(from), steps)
            + bytes_sent(data.take(n)));
    }
}

proof fn lemma_receiving(runs: Seq<StepRun>, steps: Seq<BusStep>, from: int, len: int, n: int)
    requires
        0 <= n <= len,
        0 <= from,
        from + len <= runs.len(),
        i2c::received_by(runs.take(from), steps).len() == 0,
        forall|i: int|
            from <= i < from + len ==> steps[i] == BusStep::Receive(i - from == len - 1)
                && (#[trigger] runs[i]).value is Ok,
    ensures
        ({
            let received = i2c::received_by(runs.take(from + n), steps);
            &&& received.len() == n
            &&& script_events(runs.take(from + n), steps) == script_events(runs.take(from), steps)
                + bytes_received(received, len)
        }),
    decreases n,
{
    if n == 0 {
        assert(script_events(runs.take(from), steps) + bytes_received(Seq::empty(), len)
            =~= script_events(runs.take(from), steps));
        assert(i2c::received_by(runs.take(from), steps) =~= Seq::<u8>::empty());
    } else {
        lemma_receiving(runs, steps, from, len, n - 1);
        lemma_prefix(runs, steps, from + n);
        assert(runs[from + n - 1].value is Ok);
        let before = i2c::received_by(runs.take(from + n - 1), steps);
        let received = i2c::received_by(runs.take(from + n), steps);
        assert(received.drop_last() =~= before);
        assert(script_events(runs.take(from + n), steps) =~= script_events(runs.take(from), steps)
            + bytes_received(received, len));
    }
}

/// A write that goes well calls its device and sends it the bytes in their order, and then
/// frees the bus.
pub proof fn written_bytes_are_sent(
    line: Line,
    runs: Seq<StepRun>,
    address: u8,
    data: Seq<u8>,
    trace: Seq<Exchange>,
    received: Seq<u8>,
)
    requires
        address < 128,
        i2c::steps_went(runs, i2c::write_steps(address, data), trace, received, Ok(())),
    ensures
        observed(line, trace).events == line.events + (seq![Event::Start(address as int, false)]
            + bytes_sent(data) + seq![Event::Stop]),
{
    let steps = i2c::write_steps(address, data);
    let len = data.len() as int;
    assert(runs[runs.len() - 1] == runs.last());
    lemma_script(line, runs, steps);
    lemma_prefix(runs, steps, 1);
    lemma_prefix(runs, steps, len + 2);
    lemma_sending(runs, steps, 1, data, len);
    assert(data.take(len) =~= data);
    assert(runs.take(len + 2) =~= runs);
    assert(script_events(runs, steps) =~= seq![Event::Start(address as int, false)] + bytes_sent(
        data,
    ) + seq![Event::Stop]);
}

/// A write to a register sends the number of the register before the bytes.
pub proof fn register_is_written_first(
    line: Line,
    runs: Seq<StepRun>,
    address: u8,
    reg: u8,
    data: Seq<u8>,
    trace: Seq<Exchange>,
    received: Seq<u8>,
)
    requires
        address < 128,
        i2c::steps_went(runs, i2c::write_regs_steps(address, reg, data), trace, received, Ok(())),
    ensures
        observed(line, trace).events == line.events + (seq![
            Event::Start(address as int, false),
            Event::Sent(reg),
        ] + bytes_sent(data) + seq![Event::Stop]),
{
    let steps = i2c::write_regs_steps(address, reg, data);
    let len = data.len() as int;
    assert(runs[runs.len() - 1] == runs.last());
    lemma_script(line, runs, steps);
    lemma_prefix(runs, steps, 1);
    lemma_prefix(runs, steps, 2);
    lemma_prefix(runs, steps, len + 3);
    lemma_sending(runs, steps, 2, data, len);
    assert(data.take(len) =~= data);
    assert(runs.take(len + 3) =~= runs);
    assert(script_events(runs, steps) =~= seq![
        Event::Start(address as int, false),
        Event::Sent(reg),
    ] + bytes_sent(data) + seq![Event::Stop]);
}

/// A read that goes well calls its device and hands out the bytes that it sends, in their
/// order.
pub proof fn read_bytes_are_received(
    line: Line,
    runs: Seq<StepRun>,
    address: u8,
    out: Seq<u8>,
    trace: Seq<Exchange>,
    received: Seq<u8>,
)
    requires
        address < 128,
        i2c::steps_went(
            runs,
            i2c::read_steps(address, out.len() as int),
            trace,
            received,
            Ok(()),
        ),
    ensures
        i2c::overwritten(out, received) == received,
        received.len() == out.len(),
        observed(line, trace).events == line.events + (seq![Event::Start(address as int, true)]
            + bytes_received(received, out.len() as int) + seq![Event::Stop]),
{
    let len = out.len() as int;
    let steps = i2c::read_steps(address, len);
    i2c::complete_read_fills(runs, address, out, trace, received);
    assert(runs[runs.len() - 1] == runs.last());
    lemma_script(line, runs, steps);
    lemma_prefix(runs, steps, 1);
    lemma_prefix(runs, steps, len + 2);
    lemma_receiving(runs, steps, 1, len, len);
    assert(runs.take(len + 2) =~= runs);
    assert(script_events(runs, steps) =~= seq![Event::Start(address as int, true)]
        + bytes_received(received, len) + seq![Event::Stop]);
}

/// A read from a register sends the number of the register, and calls the device again to
/// receive.
pub proof fn register_is_read_behind_its_number(
    line: Line,
    runs: Seq<StepRun>,
    address: u8,
    reg: u8,
    out: Seq<u8>,
    trace: Seq<Exchange>,
    received: Seq<u8>,
)
    requires
        address < 128,
        i2c::steps_went(
            runs,
            i2c::read_regs_steps(address, reg, out.len() as int),
            trace,
            received,
            Ok(()),
        ),
    ensures
        i2c::overwritten(out, received) == received,
        received.len() == out.len(),
        observed(line, trace).events == line.events + (seq![
            Event::Start(address as int, false),
            Event::Sent(reg),
            Event::Start(address as int, true),
        ] + bytes_received(received, out.len() as int) + seq![Event::Stop]),
{
    let len = out.len() as int;
    let steps = i2c::read_regs_steps(address, reg, len);
    assert(runs[runs.len() - 1] == runs.last());
    lemma_script(line, runs, steps);
    lemma_prefix(runs, steps, 1);
    lemma_prefix(runs, steps, 2);
    lemma_prefix(runs, steps, 3);
    lemma_prefix(runs, steps, len + 4);
    lemma_receiving(runs, steps, 3, len, len);
    assert(runs.take(len + 4) =~= runs);
    assert(i2c::overwritten(out, received) =~= received);
    assert(script_events(runs, steps) =~= seq![
        Event::Start(address as int, false),
        Event::Sent(reg),
        Event::Start(address as int, true),
    ] + bytes_received(received, len) + seq![Event::Stop]);
}

/// Whether an access shows that what was sent was acknowledged, with the bus still held.
pub open spec fn acknowledged(exchange: Exchange) -> bool {
    &&& exchange.access == Access::Read8(4)
    &&& exchange.reply / 0x80 % 2 == 0
    &&& exchange.reply / 0x20 % 2 == 0
}

/// Steps go well only if each byte that was sent was acknowledged. A byte that nobody
/// acknowledged and a bus that was lost to another are told apart.
pub proof fn unanswered_bytes_are_told(
    runs: Seq<StepRun>,
    steps: Seq<BusStep>,
    trace: Seq<Exchange>,
    received: Seq<u8>,
    result: Result<(), Ls2kI2cError>,
)
    requires
        i2c::steps_went(runs, steps, trace, received, result),
    ensures
        result is Ok ==> forall|i: int|
            0 <= i < steps.len() && (steps[i] is Start || steps[i] is Send) ==> acknowledged(
                (#[trigger] runs[i]).trace.last(),
            ),
        result == Err::<(), Ls2kI2cError>(Ls2kI2cError::NoAck) ==> {
            &&& trace.last().access == Access::Read8(4)
            &&& trace.last().reply / 0x80 % 2 == 1
            &&& trace.last().reply / 0x20 % 2 == 0
        },
        result == Err::<(), Ls2kI2cError>(Ls2kI2cError::ArbitrationLost) ==> {
            &&& trace.last().access == Access::Read8(4)
            &&& trace.last().reply / 0x20 % 2 == 1
        },
{
    if result is Ok {
        assert forall|i: int|
            0 <= i < steps.len() && (steps[i] is Start || steps[i] is Send) implies acknowledged(
            (#[trigger] runs[i]).trace.last(),
        ) by {
            assert(runs[runs.len() - 1] == runs.last());
            assert(runs[i].value is Ok);
        }
    } else {
        let n = runs.len() - 1;
        assert(runs[n] == runs.last());
        assert(i2c::step_done(runs[n], steps[n]));
        if runs[n].trace.len() > 0 {
            assert(trace.last() == runs[n].trace.last());
        }
    }
}

/// A bus is clocked at its rate: five steps of the divided clock make a bit, and the
/// divider is the largest that keeps to the rate. The bus is off while it is set.
pub proof fn bus_keeps_its_rate(first: u8, second: u8, clk_rate: u64)
    requires
        165_000 <= clk_rate,
        clk_rate < 165_000 * 0x1_0001,
    ensures
        ({
            let trace = i2c::bus_set_up(first, second, clk_rate);
            &&& trace.len() == 6
            &&& trace[1].access matches Access::Write8(2, off) && off & 0x80 == 0
            &&& trace[2].access is Write8
            &&& trace[3].access is Write8
            &&& trace[5].access matches Access::Write8(2, on) && on & 0xe0 == 0xe0
            &&& match (trace[2].access, trace[3].access) {
                (Access::Write8(0, low), Access::Write8(1, high)) => {
                    let divider = low + high * 256 + 1;
                    &&& divider * 5 * 33_000 <= clk_rate
                    &&& clk_rate < (divider + 1) * 5 * 33_000
                },
                _ => false,
            }
        }),
{
    assert((first & 0x3f) & 0x80 == 0) by (bit_vector);
    assert((second | 0xe0) & 0xe0 == 0xe0) by (bit_vector);
}

} // verus!
