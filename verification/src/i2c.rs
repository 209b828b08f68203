//! The two-wire bus of the board.

pub mod wire;

use vstd::prelude::*;
use crate::platform;
use crate::platform::{PnpError, PnpResourceKind, has_id};
use crate::port;
use crate::port::{Access, BytePoll, Exchange, Port};
use crate::text;
use crate::tsensor::InvokeError;

verus! {

pub const COMPAT_LOONGSON_LS_I2C: &'static str = "loongson,ls-i2c";

pub const PRER_LO_REG: usize = 0;

pub const PRER_HI_REG: usize = 1;

pub const CTR_REG: usize = 2;

pub const TXR_REG: usize = 3;

pub const RXR_REG: usize = 3;

pub const CR_REG: usize = 4;

pub const SR_REG: usize = 4;

pub const CTR_READY_MASK: u8 = 0xe0;

pub const CR_START: u8 = 0x80;

pub const CR_STOP: u8 = 0x40;

pub const CR_READ: u8 = 0x20;

pub const CR_WRITE: u8 = 0x10;

pub const CR_ACK: u8 = 8;

pub const CR_IACK: u8 = 1;

pub const SR_NOACK: u8 = 0x80;

pub const SR_BUSY: u8 = 0x40;

pub const SR_AL: u8 = 0x20;

pub const SR_IF: u8 = 1;

pub const DEFAULT_BUS_HZ: u64 = 33_000;

/// The class of the function of a bus.
pub const I2C_CLASS: u64 = 0x6c73_326b_6932_6362;

/// The requests that the function of a bus answers.
pub const I2C_CONTRACT: &'static str =
    "mygo.device.i2c-bus@1;1=write;2=read;3=write_regs;4=read_regs";

pub const XFER_TIMEOUT_LOOPS: u32 = 50_000;

pub const STOP_TIMEOUT_LOOPS: u32 = 50_000;

#[derive(Clone, Copy, PartialEq, Eq, Structural, Debug)]
pub enum Ls2kI2cError {
    Timeout,
    NoAck,
    ArbitrationLost,
    Invalid,
}

/// A step on the bus.
#[derive(Clone, Copy, PartialEq, Eq, Structural, Debug)]
pub enum BusStep {
    /// Take the bus and call a device, to read from it or not.
    Start(u8, bool),
    Send(u8),
    /// Receive a byte, the last one or not.
    Receive(bool),
    /// Free the bus.
    Stop,
}

/// How a step went.
pub ghost struct StepRun {
    pub poll: Seq<Exchange>,
    pub ended: Option<u8>,
    pub status: u8,
    pub trace: Seq<Exchange>,
    pub value: Result<u8, Ls2kI2cError>,
}

/// The poll that a command is done.
pub open spec fn done_poll() -> BytePoll {
    BytePoll {
        offset: SR_REG,
        mask: SR_IF,
        set: true,
        tries: XFER_TIMEOUT_LOOPS,
        pause_ns: 1_000,
    }
}

/// The poll that the bus is free.
pub open spec fn free_poll() -> BytePoll {
    BytePoll {
        offset: SR_REG,
        mask: SR_BUSY,
        set: false,
        tries: STOP_TIMEOUT_LOOPS,
        pause_ns: 1_000,
    }
}

/// What the state of the bus says after a command.
pub open spec fn command_value(status: u8) -> Result<u8, Ls2kI2cError> {
    if status / SR_AL % 2 == 1 {
        Err(Ls2kI2cError::ArbitrationLost)
    } else if status / SR_NOACK % 2 == 1 {
        Err(Ls2kI2cError::NoAck)
    } else {
        Ok(0)
    }
}

/// Whether a byte was sent so, with a command.
pub open spec fn sent(w: StepRun, byte: u8, command: u8) -> bool {
    let asked = seq![port::w8(TXR_REG, byte), port::w8(CR_REG, command)] + w.poll;
    &&& done_poll().done(w.poll, w.ended)
    &&& if w.ended is None {
        w.trace == asked && w.value == Err::<u8, Ls2kI2cError>(Ls2kI2cError::Timeout)
    } else {
        &&& w.trace == asked + seq![port::w8(CR_REG, CR_IACK), port::r8(SR_REG, w.status)]
        &&& w.value == command_value(w.status)
    }
}

/// Whether a step went so.
pub open spec fn step_done(w: StepRun, step: BusStep) -> bool {
    match step {
        BusStep::Start(address, read) => sent(
            w,
            ((address * 2) % 256 + (if read {
                1int
            } else {
                0
            })) as u8,
            0x90,
        ),
        BusStep::Send(byte) => sent(w, byte, CR_WRITE),
        BusStep::Receive(last) => {
            let asked = seq![
                port::w8(
                    CR_REG,
                    if last {
                        0x28
                    } else {
                        CR_READ
                    },
                ),
            ] + w.poll;
            &&& done_poll().done(w.poll, w.ended)
            &&& if w.ended is None {
                w.trace == asked && w.value == Err::<u8, Ls2kI2cError>(Ls2kI2cError::Timeout)
            } else {
                &&& w.trace == asked + seq![port::w8(CR_REG, CR_IACK), port::r8(RXR_REG, w.status)]
                &&& w.value == Ok::<u8, Ls2kI2cError>(w.status)
            }
        },
        BusStep::Stop => {
            &&& free_poll().done(w.poll, w.ended)
            &&& w.trace == seq![port::w8(CR_REG, CR_STOP)] + w.poll
            &&& w.value == (if w.ended is Some {
                Ok::<u8, Ls2kI2cError>(0)
            } else {
                Err(Ls2kI2cError::Timeout)
            })
        },
    }
}

/// The accesses of steps one after the other.
pub open spec fn steps_trace(runs: Seq<StepRun>) -> Seq<Exchange>
    decreases runs.len(),
{
    if runs.len() == 0 {
        Seq::empty()
    } else {
        steps_trace(runs.drop_last()) + runs.last().trace
    }
}

/// The bytes that steps received.
pub open spec fn received_by(runs: Seq<StepRun>, steps: Seq<BusStep>) -> Seq<u8>
    decreases runs.len(),
{
    if runs.len() == 0 {
        Seq::empty()
    } else {
        let before = received_by(runs.drop_last(), steps);
        let last = runs.last();
        if steps[runs.len() - 1] is Receive && last.value is Ok {
            before.push(last.value->Ok_0)
        } else {
            before
        }
    }
}

/// Whether steps went so: each one until the first that failed.
pub open spec fn steps_went(
    runs: Seq<StepRun>,
    steps: Seq<BusStep>,
    trace: Seq<Exchange>,
    received: Seq<u8>,
    result: Result<(), Ls2kI2cError>,
) -> bool {
    &&& runs.len() <= steps.len()
    &&& forall|i: int| 0 <= i < runs.len() ==> step_done(#[trigger] runs[i], steps[i])
    &&& forall|i: int| 0 <= i < runs.len() - 1 ==> (#[trigger] runs[i]).value is Ok
    &&& trace == steps_trace(runs)
    &&& received == received_by(runs, steps)
    &&& match result {
        Ok(_) => runs.len() == steps.len() && (runs.len() > 0 ==> runs.last().value is Ok),
        Err(error) => runs.len() > 0 && runs.last().value == Err::<u8, Ls2kI2cError>(error),
    }
}

/// A byte and its command are sent, or a command alone.
fn command<F: FnMut(Access) -> u64>(
    port: &mut Port<F>,
    byte: Option<u8>,
    cmd: u8,
) -> (result: (Result<(), Ls2kI2cError>, Ghost<Seq<Exchange>>, Ghost<Option<u8>>))
    requires
        old(port).wf(),
    ensures
        final(port).wf(),
        final(port).performs() == old(port).performs(),
        done_poll().done(result.1@, result.2@),
        (result.0 is Ok) == (result.2@ is Some),
        result.0 is Err ==> result.0 == Err::<(), Ls2kI2cError>(Ls2kI2cError::Timeout),
        final(port).log() == old(port).log() + ((match byte {
            Some(byte) => seq![port::w8(TXR_REG, byte), port::w8(CR_REG, cmd)],
            None => seq![port::w8(CR_REG, cmd)],
        }) + result.1@ + (if result.0 is Ok {
            seq![port::w8(CR_REG, CR_IACK)]
        } else {
            Seq::empty()
        })),
{
    let ghost start = port.log();
    if let Some(byte) = byte {
        port.write8(TXR_REG, byte);
    }
    port.write8(CR_REG, cmd);
    let ghost head = match byte {
        Some(byte) => seq![port::w8(TXR_REG, byte), port::w8(CR_REG, cmd)],
        None => seq![port::w8(CR_REG, cmd)],
    };
    assert(port.log() =~= start + head);
    let ghost middle = port.log();
    let ended = port.poll8(
        BytePoll {
            offset: SR_REG,
            mask: SR_IF,
            set: true,
            tries: XFER_TIMEOUT_LOOPS,
            pause_ns: 1_000,
        },
    );
    let ghost poll = port::since(port.log(), middle);
    if ended.is_none() {
        assert(port.log() =~= start + (head + poll + Seq::<Exchange>::empty()));
        return (Err(Ls2kI2cError::Timeout), Ghost(poll), Ghost(ended));
    }
    port.write8(CR_REG, CR_IACK);
    assert(port.log() =~= start + (head + poll + seq![port::w8(CR_REG, CR_IACK)]));
    (Ok(()), Ghost(poll), Ghost(ended))
}

/// Takes one step.
fn take_step<F: FnMut(Access) -> u64>(port: &mut Port<F>, step: BusStep) -> (result: (
    Result<u8, Ls2kI2cError>,
    Ghost<StepRun>,
))
    requires
        old(port).wf(),
    ensures
        final(port).wf(),
        final(port).performs() == old(port).performs(),
        step_done(result.1@, step),
        result.1@.value == result.0,
        final(port).log() == old(port).log() + result.1@.trace,
{
    let ghost start = port.log();
    let ghost mut w: StepRun = arbitrary();
    match step {
        BusStep::Start(_, _) | BusStep::Send(_) => {
            let byte: u8 = match step {
                BusStep::Start(address, read) => ((address as u16) * 2 % 256) as u8 + if read {
                    1
                } else {
                    0
                },
                BusStep::Send(byte) => byte,
                _ => 0,
            };
            let cmd: u8 = match step {
                BusStep::Send(_) => CR_WRITE,
                _ => 0x90,
            };
            let (result, poll, ended) = command(port, Some(byte), cmd);
            proof {
                w = StepRun { poll: poll@, ended: ended@, ..w };
            }
            let ghost asked = seq![port::w8(TXR_REG, byte), port::w8(CR_REG, cmd)] + poll@;
            if let Err(error) = result {
                proof {
                    w = StepRun { trace: asked, value: Err(error), ..w };
                    assert(port.log() =~= start + asked);
                }
                return (Err(error), Ghost(w));
            }
            let status: u8 = port.read8(SR_REG);
            let value: Result<u8, Ls2kI2cError> = if status / SR_AL % 2 == 1 {
                Err(Ls2kI2cError::ArbitrationLost)
            } else if status / SR_NOACK % 2 == 1 {
                Err(Ls2kI2cError::NoAck)
            } else {
                Ok(0)
            };
            proof {
                let trace = asked + seq![port::w8(CR_REG, CR_IACK), port::r8(SR_REG, status)];
                w = StepRun { status, trace, value, ..w };
                assert(port.log() =~= start + trace);
            }
            (value, Ghost(w))
        },
        BusStep::Receive(last) => {
            let cmd: u8 = if last {
                0x28
            } else {
                CR_READ
            };
            let (result, poll, ended) = command(port, None, cmd);
            proof {
                w = StepRun { poll: poll@, ended: ended@, ..w };
            }
            let ghost asked = seq![port::w8(CR_REG, cmd)] + poll@;
            if let Err(error) = result {
                proof {
                    w = StepRun { trace: asked, value: Err(error), ..w };
                    assert(port.log() =~= start + asked);
                }
                return (Err(error), Ghost(w));
            }
            let byte: u8 = port.read8(RXR_REG);
            proof {
                let trace = asked + seq![port::w8(CR_REG, CR_IACK), port::r8(RXR_REG, byte)];
                w = StepRun { status: byte, trace, value: Ok(byte), ..w };
                assert(port.log() =~= start + trace);
            }
            (Ok(byte), Ghost(w))
        },
        BusStep::Stop => {
            port.write8(CR_REG, CR_STOP);
            let ghost middle = port.log();
            let ended = port.poll8(
                BytePoll {
                    offset: SR_REG,
                    mask: SR_BUSY,
                    set: false,
                    tries: STOP_TIMEOUT_LOOPS,
                    pause_ns: 1_000,
                },
            );
            let value: Result<u8, Ls2kI2cError> = if ended.is_some() {
                Ok(0)
            } else {
                Err(Ls2kI2cError::Timeout)
            };
            proof {
                let poll = port::since(port.log(), middle);
                let trace = seq![port::w8(CR_REG, CR_STOP)] + poll;
                w = StepRun { poll, ended, trace, value, ..w };
                assert(port.log() =~= start + trace);
            }
            (value, Ghost(w))
        },
    }
}

/// What came of steps.
pub struct Outcome {
    pub received: Vec<u8>,
    pub result: Result<(), Ls2kI2cError>,
}

/// Takes steps until one fails.
pub fn take_steps<F: FnMut(Access) -> u64>(port: &mut Port<F>, steps: &Vec<BusStep>) -> (outcome:
    Outcome)
    requires
        old(port).wf(),
    ensures
        final(port).wf(),
        final(port).performs() == old(port).performs(),
        port::grown(final(port).log(), old(port).log()),
        exists|runs: Seq<StepRun>| #[trigger]
            steps_went(
                runs,
                steps@,
                port::since(final(port).log(), old(port).log()),
                outcome.received@,
                outcome.result,
            ),
        outcome.received@.len() <= receives(steps@),
{
    let ghost start = port.log();
    let ghost mut runs: Seq<StepRun> = Seq::empty();
    let mut received: Vec<u8> = Vec::new();
    let mut i: usize = 0;
    assert(start + steps_trace(runs) =~= start);
    while i < steps.len()
        invariant
            i <= steps@.len(),
            port.wf(),
            port.performs() == old(port).performs(),
            start == old(port).log(),
            runs.len() == i,
            forall|k: int| 0 <= k < runs.len() ==> step_done(#[trigger] runs[k], steps@[k]),
            forall|k: int| 0 <= k < runs.len() ==> (#[trigger] runs[k]).value is Ok,
            received@ == received_by(runs, steps@),
            received@.len() <= receives(steps@.take(i as int)),
            port.log() == start + steps_trace(runs),
        decreases steps@.len() - i,
    {
        let ghost earlier = runs;
        let step = steps[i];
        let (value, run) = take_step(port, step);
        proof {
            runs = runs.push(run@);
            assert(runs.drop_last() =~= earlier);
            assert(steps@.take(i + 1).drop_last() =~= steps@.take(i as int));
            assert(port.log() =~= start + steps_trace(runs));
            port::lemma_grown(start, steps_trace(runs));
            assert forall|k: int| 0 <= k < runs.len() implies step_done(
                #[trigger] runs[k],
                steps@[k],
            ) by {
                if k < i {
                    assert(runs[k] == earlier[k]);
                }
            }
            assert forall|k: int| 0 <= k < runs.len() - 1 implies (#[trigger] runs[k]).value
                is Ok by {
                assert(runs[k] == earlier[k]);
            }
        }
        i += 1;
        match value {
            Ok(byte) => {
                if let BusStep::Receive(_) = step {
                    received.push(byte);
                }
            },
            Err(error) => {
                let outcome = Outcome { received, result: Err(error) };
                proof {
                    lemma_receives(steps@, i as int);
                    assert(steps_went(
                        runs,
                        steps@,
                        steps_trace(runs),
                        outcome.received@,
                        outcome.result,
                    ));
                }
                return outcome;
            },
        }
    }
    proof {
        assert(steps@.take(i as int) =~= steps@);
        port::lemma_grown(start, steps_trace(runs));
    }
    let outcome = Outcome { received, result: Ok(()) };
    assert(steps_went(runs, steps@, steps_trace(runs), outcome.received@, outcome.result));
    outcome
}

/// How many bytes steps receive at most.
pub open spec fn receives(steps: Seq<BusStep>) -> int
    decreases steps.len(),
{
    if steps.len() == 0 {
        0
    } else {
        receives(steps.drop_last()) + if steps.last() is Receive {
            1int
        } else {
            0
        }
    }
}

proof fn lemma_receives(steps: Seq<BusStep>, n: int)
    requires
        0 <= n <= steps.len(),
    ensures
        receives(steps.take(n)) <= receives(steps),
    decreases steps.len() - n,
{
    if n < steps.len() {
        assert(steps.take(n + 1).drop_last() =~= steps.take(n));
        lemma_receives(steps, n + 1);
    } else {
        assert(steps.take(n) =~= steps);
    }
}

proof fn lemma_received_all(runs: Seq<StepRun>, steps: Seq<BusStep>, n: int)
    requires
        0 <= n <= runs.len(),
        runs.len() <= steps.len(),
        forall|i: int| 0 <= i < runs.len() ==> (#[trigger] runs[i]).value is Ok,
    ensures
        received_by(runs.take(n), steps).len() == receives(steps.take(n)),
    decreases n,
{
    if n > 0 {
        lemma_received_all(runs, steps, n - 1);
        assert(runs.take(n).drop_last() =~= runs.take(n - 1));
        assert(steps.take(n).drop_last() =~= steps.take(n - 1));
        assert(runs.take(n).last() == runs[n - 1]);
    }
}

/// Steps that all went well received every byte that they were to receive.
pub proof fn complete_steps_receive_all(
    runs: Seq<StepRun>,
    steps: Seq<BusStep>,
    trace: Seq<Exchange>,
    received: Seq<u8>,
)
    requires
        steps_went(runs, steps, trace, received, Ok(())),
    ensures
        received.len() == receives(steps),
{
    lemma_received_all(runs, steps, runs.len() as int);
    assert(runs.take(runs.len() as int) =~= runs);
    assert(steps.take(steps.len() as int) =~= steps);
}

/// A read that goes well fills all that it was to fill with what came in.
pub proof fn complete_read_fills(
    runs: Seq<StepRun>,
    address: u8,
    out: Seq<u8>,
    trace: Seq<Exchange>,
    received: Seq<u8>,
)
    requires
        steps_went(runs, read_steps(address, out.len() as int), trace, received, Ok(())),
    ensures
        overwritten(out, received) == received,
        received.len() == out.len(),
{
    let len = out.len() as int;
    let head = seq![BusStep::Start(address, true)];
    let steps = read_steps(address, len);
    complete_steps_receive_all(runs, steps, trace, received);
    assert(head.drop_last() =~= Seq::<BusStep>::empty());
    reveal_with_fuel(receives, 2);
    lemma_receiving(head, len, len);
    assert(receiving(len).take(len) =~= receiving(len));
    assert(steps.drop_last() =~= head + receiving(len));
    assert(overwritten(out, received) =~= received);
}

/// The steps that send bytes.
pub open spec fn sending(data: Seq<u8>) -> Seq<BusStep> {
    Seq::new(data.len(), |i: int| BusStep::Send(data[i]))
}

/// The steps that receive bytes.
pub open spec fn receiving(len: int) -> Seq<BusStep> {
    Seq::new(len as nat, |i: int| BusStep::Receive(i == len - 1))
}

/// The steps of a write.
pub open spec fn write_steps(address: u8, data: Seq<u8>) -> Seq<BusStep> {
    seq![BusStep::Start(address, false)] + sending(data) + seq![BusStep::Stop]
}

/// The steps of a read.
pub open spec fn read_steps(address: u8, len: int) -> Seq<BusStep> {
    seq![BusStep::Start(address, true)] + receiving(len) + seq![BusStep::Stop]
}

/// The steps of a read from a register: its number is written first.
pub open spec fn read_regs_steps(address: u8, reg: u8, len: int) -> Seq<BusStep> {
    seq![
        BusStep::Start(address, false),
        BusStep::Send(reg),
        BusStep::Start(address, true),
    ] + receiving(len) + seq![BusStep::Stop]
}

/// The steps of a write to a register.
pub open spec fn write_regs_steps(address: u8, reg: u8, data: Seq<u8>) -> Seq<BusStep> {
    seq![BusStep::Start(address, false), BusStep::Send(reg)] + sending(data) + seq![BusStep::Stop]
}

proof fn lemma_receiving(head: Seq<BusStep>, len: int, n: int)
    requires
        0 <= n <= len,
        receives(head) == 0,
    ensures
        receives(head + receiving(len).take(n)) == n,
    decreases n,
{
    let steps = head + receiving(len).take(n);
    if n > 0 {
        assert(steps.drop_last() =~= head + receiving(len).take(n - 1));
        lemma_receiving(head, len, n - 1);
    } else {
        assert(steps =~= head);
    }
}

proof fn lemma_sending(head: Seq<BusStep>, data: Seq<u8>, n: int)
    requires
        0 <= n <= data.len(),
        receives(head) == 0,
    ensures
        receives(head + sending(data).take(n)) == 0,
    decreases n,
{
    let steps = head + sending(data).take(n);
    if n > 0 {
        assert(steps.drop_last() =~= head + sending(data).take(n - 1));
        lemma_sending(head, data, n - 1);
    } else {
        assert(steps =~= head);
    }
}

fn push_sending(steps: &mut Vec<BusStep>, data: &Vec<u8>, from: usize)
    requires
        from <= data@.len(),
    ensures
        final(steps)@ == old(steps)@ + sending(data@.skip(from as int)),
{
    let ghost before = steps@;
    let ghost rest = data@.skip(from as int);
    let mut i: usize = from;
    assert(before + sending(rest).take(0) =~= before);
    while i < data.len()
        invariant
            from <= i <= data@.len(),
            rest == data@.skip(from as int),
            steps@ == before + sending(rest).take(i - from),
        decreases data@.len() - i,
    {
        steps.push(BusStep::Send(data[i]));
        assert(steps@ =~= before + sending(rest).take(i + 1 - from));
        i += 1;
    }
    assert(sending(rest).take(i - from) =~= sending(rest));
}

fn push_receiving(steps: &mut Vec<BusStep>, len: usize)
    ensures
        final(steps)@ == old(steps)@ + receiving(len as int),
{
    let ghost before = steps@;
    let mut i: usize = 0;
    assert(before + receiving(len as int).take(0) =~= before);
    while i < len
        invariant
            i <= len,
            steps@ == before + receiving(len as int).take(i as int),
        decreases len - i,
    {
        steps.push(BusStep::Receive(i == len - 1));
        assert(steps@ =~= before + receiving(len as int).take(i + 1));
        i += 1;
    }
    assert(receiving(len as int).take(i as int) =~= receiving(len as int));
}

/// Builds the steps of a write.
fn write_script(address: u8, data: &Vec<u8>, from: usize) -> (steps: Vec<BusStep>)
    requires
        from <= data@.len(),
    ensures
        steps@ == write_steps(address, data@.skip(from as int)),
        receives(steps@) == 0,
{
    let mut steps: Vec<BusStep> = Vec::new();
    steps.push(BusStep::Start(address, false));
    let ghost head = steps@;
    push_sending(&mut steps, data, from);
    let ghost body = steps@;
    steps.push(BusStep::Stop);
    proof {
        let rest = data@.skip(from as int);
        assert(head.drop_last() =~= Seq::<BusStep>::empty());
        reveal_with_fuel(receives, 2);
        lemma_sending(head, rest, rest.len() as int);
        assert(sending(rest).take(rest.len() as int) =~= sending(rest));
        assert(steps@.drop_last() =~= body);
        assert(steps@ =~= write_steps(address, rest));
    }
    steps
}

/// Builds the steps of a write to a register.
fn write_regs_script(address: u8, reg: u8, data: &Vec<u8>, from: usize) -> (steps: Vec<BusStep>)
    requires
        from <= data@.len(),
    ensures
        steps@ == write_regs_steps(address, reg, data@.skip(from as int)),
        receives(steps@) == 0,
{
    let mut steps: Vec<BusStep> = Vec::new();
    steps.push(BusStep::Start(address, false));
    let ghost one = steps@;
    steps.push(BusStep::Send(reg));
    let ghost head = steps@;
    push_sending(&mut steps, data, from);
    let ghost body = steps@;
    steps.push(BusStep::Stop);
    proof {
        let rest = data@.skip(from as int);
        assert(one.drop_last() =~= Seq::<BusStep>::empty());
        assert(head.drop_last() =~= one);
        reveal_with_fuel(receives, 3);
        lemma_sending(head, rest, rest.len() as int);
        assert(sending(rest).take(rest.len() as int) =~= sending(rest));
        assert(steps@.drop_last() =~= body);
        assert(steps@ =~= write_regs_steps(address, reg, rest));
    }
    steps
}

/// Builds the steps of a read.
fn read_script(address: u8, len: usize) -> (steps: Vec<BusStep>)
    ensures
        steps@ == read_steps(address, len as int),
        receives(steps@) == len,
{
    let mut steps: Vec<BusStep> = Vec::new();
    steps.push(BusStep::Start(address, true));
    let ghost head = steps@;
    push_receiving(&mut steps, len);
    let ghost body = steps@;
    steps.push(BusStep::Stop);
    proof {
        assert(head.drop_last() =~= Seq::<BusStep>::empty());
        reveal_with_fuel(receives, 2);
        lemma_receiving(head, len as int, len as int);
        assert(receiving(len as int).take(len as int) =~= receiving(len as int));
        assert(steps@.drop_last() =~= body);
        assert(steps@ =~= read_steps(address, len as int));
    }
    steps
}

/// Builds the steps of a read from a register.
fn read_regs_script(address: u8, reg: u8, len: usize) -> (steps: Vec<BusStep>)
    ensures
        steps@ == read_regs_steps(address, reg, len as int),
        receives(steps@) == len,
{
    let mut steps: Vec<BusStep> = Vec::new();
    steps.push(BusStep::Start(address, false));
    let ghost one = steps@;
    steps.push(BusStep::Send(reg));
    let ghost two = steps@;
    steps.push(BusStep::Start(address, true));
    let ghost head = steps@;
    push_receiving(&mut steps, len);
    let ghost body = steps@;
    steps.push(BusStep::Stop);
    proof {
        assert(one.drop_last() =~= Seq::<BusStep>::empty());
        assert(two.drop_last() =~= one);
        assert(head.drop_last() =~= two);
        reveal_with_fuel(receives, 4);
        lemma_receiving(head, len as int, len as int);
        assert(receiving(len as int).take(len as int) =~= receiving(len as int));
        assert(steps@.drop_last() =~= body);
        assert(steps@ =~= read_regs_steps(address, reg, len as int));
    }
    steps
}

/// Data whose first bytes were replaced.
pub open spec fn overwritten(data: Seq<u8>, received: Seq<u8>) -> Seq<u8> {
    received + data.skip(received.len() as int)
}

fn overwrite(out: &mut Vec<u8>, received: &Vec<u8>)
    requires
        received@.len() <= old(out)@.len(),
    ensures
        final(out)@ == overwritten(old(out)@, received@),
{
    let ghost before = out@;
    let mut i: usize = 0;
    assert(out@ =~= overwritten(before, received@.take(0)));
    while i < received.len()
        invariant
            i <= received@.len(),
            received@.len() <= out@.len(),
            out@.len() == before.len(),
            out@ == overwritten(before, received@.take(i as int)),
        decreases received@.len() - i,
    {
        out.set(i, received[i]);
        assert(out@ =~= overwritten(before, received@.take(i + 1)));
        i += 1;
    }
    assert(received@.take(i as int) =~= received@);
}

/// What a bus was asked.
#[derive(Clone, Copy, PartialEq, Eq, Structural, Debug)]
pub struct Ls2xI2cBus {
    pub clk_rate: u64,
}

/// The divider of the clock.
pub open spec fn prescale(clk_rate: u64) -> int {
    let clk = if clk_rate == 0 {
        50_000_000
    } else {
        clk_rate as int
    };
    let divided = clk / 165_000;
    if divided == 0 {
        0
    } else if divided - 1 > 0xffff {
        0xffff
    } else {
        divided - 1
    }
}

/// The accesses by which a bus is set up.
pub open spec fn bus_set_up(first: u8, second: u8, clk_rate: u64) -> Seq<Exchange> {
    seq![
        port::r8(CTR_REG, first),
        port::w8(CTR_REG, first & 0x3f),
        port::w8(PRER_LO_REG, (prescale(clk_rate) % 256) as u8),
        port::w8(PRER_HI_REG, (prescale(clk_rate) / 256) as u8),
        port::r8(CTR_REG, second),
        port::w8(CTR_REG, second | CTR_READY_MASK),
    ]
}

impl Ls2xI2cBus {
    /// Sets a bus up for its speed.
    pub fn new<F: FnMut(Access) -> u64>(port: &mut Port<F>, clk_rate: u64) -> (bus: Self)
        requires
            old(port).wf(),
        ensures
            final(port).wf(),
            final(port).performs() == old(port).performs(),
            bus.clk_rate == clk_rate,
            exists|first: u8, second: u8|
                final(port).log() == old(port).log() + #[trigger] bus_set_up(
                    first,
                    second,
                    clk_rate,
                ),
    {
        let ghost start = port.log();
        let first: u8 = port.read8(CTR_REG);
        port.write8(CTR_REG, first & 0x3f);
        let clk: u64 = if clk_rate == 0 {
            50_000_000
        } else {
            clk_rate
        };
        let divided: u64 = clk / (5 * DEFAULT_BUS_HZ);
        let scale: u64 = if divided == 0 {
            0
        } else if divided - 1 > 0xffff {
            0xffff
        } else {
            divided - 1
        };
        port.write8(PRER_LO_REG, (scale % 256) as u8);
        port.write8(PRER_HI_REG, (scale / 256) as u8);
        let second: u8 = port.read8(CTR_REG);
        port.write8(CTR_REG, second | CTR_READY_MASK);
        assert(port.log() =~= start + bus_set_up(first, second, clk_rate));
        Ls2xI2cBus { clk_rate }
    }

    /// Writes to a device.
    pub fn write<F: FnMut(Access) -> u64>(&self, port: &mut Port<F>, address: u8, data: &Vec<u8>) -> (result:
        Result<(), Ls2kI2cError>)
        requires
            old(port).wf(),
        ensures
            final(port).wf(),
            final(port).performs() == old(port).performs(),
            port::grown(final(port).log(), old(port).log()),
            exists|runs: Seq<StepRun>, received: Seq<u8>| #[trigger]
                steps_went(
                    runs,
                    write_steps(address, data@),
                    port::since(final(port).log(), old(port).log()),
                    received,
                    result,
                ),
    {
        let ghost start = port.log();
        let steps = write_script(address, data, 0);
        assert(data@.skip(0) =~= data@);
        let outcome = take_steps(port, &steps);
        let ghost runs = choose|runs: Seq<StepRun>| #[trigger]
            steps_went(
                runs,
                steps@,
                port::since(port.log(), start),
                outcome.received@,
                outcome.result,
            );
        assert(steps_went(
            runs,
            write_steps(address, data@),
            port::since(port.log(), start),
            outcome.received@,
            outcome.result,
        ));
        outcome.result
    }

    /// Writes to a register of a device.
    pub fn write_regs<F: FnMut(Access) -> u64>(
        &self,
        port: &mut Port<F>,
        address: u8,
        reg: u8,
        data: &Vec<u8>,
    ) -> (result: Result<(), Ls2kI2cError>)
        requires
            old(port).wf(),
        ensures
            final(port).wf(),
            final(port).performs() == old(port).performs(),
            port::grown(final(port).log(), old(port).log()),
            exists|runs: Seq<StepRun>, received: Seq<u8>| #[trigger]
                steps_went(
                    runs,
                    write_regs_steps(address, reg, data@),
                    port::since(final(port).log(), old(port).log()),
                    received,
                    result,
                ),
    {
        let ghost start = port.log();
        let steps = write_regs_script(address, reg, data, 0);
        assert(data@.skip(0) =~= data@);
        let outcome = take_steps(port, &steps);
        let ghost runs = choose|runs: Seq<StepRun>| #[trigger]
            steps_went(
                runs,
                steps@,
                port::since(port.log(), start),
                outcome.received@,
                outcome.result,
            );
        assert(steps_went(
            runs,
            write_regs_steps(address, reg, data@),
            port::since(port.log(), start),
            outcome.received@,
            outcome.result,
        ));
        outcome.result
    }

    /// Reads from a device as many bytes as `out` has. What was received before a
    /// failure is in `out` too.
    pub fn read<F: FnMut(Access) -> u64>(&self, port: &mut Port<F>, address: u8, out: &mut Vec<u8>) -> (result:
        Result<(), Ls2kI2cError>)
        requires
            old(port).wf(),
        ensures
            final(port).wf(),
            final(port).performs() == old(port).performs(),
            final(out)@.len() == old(out)@.len(),
            port::grown(final(port).log(), old(port).log()),
            exists|runs: Seq<StepRun>, received: Seq<u8>| #[trigger]
                steps_went(
                    runs,
                    read_steps(address, old(out)@.len() as int),
                    port::since(final(port).log(), old(port).log()),
                    received,
                    result,
                ) && final(out)@ == overwritten(old(out)@, received),
    {
        let ghost start = port.log();
        let ghost len = out@.len() as int;
        let steps = read_script(address, out.len());
        let outcome = take_steps(port, &steps);
        let ghost runs = choose|runs: Seq<StepRun>| #[trigger]
            steps_went(
                runs,
                steps@,
                port::since(port.log(), start),
                outcome.received@,
                outcome.result,
            );
        overwrite(out, &outcome.received);
        assert(steps_went(
            runs,
            read_steps(address, len),
            port::since(port.log(), start),
            outcome.received@,
            outcome.result,
        ));
        outcome.result
    }

    /// Reads from a register of a device.
    pub fn read_regs<F: FnMut(Access) -> u64>(
        &self,
        port: &mut Port<F>,
        address: u8,
        reg: u8,
        out: &mut Vec<u8>,
    ) -> (result: Result<(), Ls2kI2cError>)
        requires
            old(port).wf(),
        ensures
            final(port).wf(),
            final(port).performs() == old(port).performs(),
            final(out)@.len() == old(out)@.len(),
            port::grown(final(port).log(), old(port).log()),
            exists|runs: Seq<StepRun>, received: Seq<u8>| #[trigger]
                steps_went(
                    runs,
                    read_regs_steps(address, reg, old(out)@.len() as int),
                    port::since(final(port).log(), old(port).log()),
                    received,
                    result,
                ) && final(out)@ == overwritten(old(out)@, received),
    {
        let ghost start = port.log();
        let ghost len = out@.len() as int;
        let steps = read_regs_script(address, reg, out.len());
        let outcome = take_steps(port, &steps);
        let ghost runs = choose|runs: Seq<StepRun>| #[trigger]
            steps_went(
                runs,
                steps@,
                port::since(port.log(), start),
                outcome.received@,
                outcome.result,
            );
        overwrite(out, &outcome.received);
        assert(steps_went(
            runs,
            read_regs_steps(address, reg, len),
            port::since(port.log(), start),
            outcome.received@,
            outcome.result,
        ));
        outcome.result
    }
}

/// What a caller sees of an error.
pub open spec fn outside_error(error: Ls2kI2cError) -> InvokeError {
    match error {
        Ls2kI2cError::Timeout => InvokeError::Busy,
        Ls2kI2cError::NoAck | Ls2kI2cError::ArbitrationLost => InvokeError::Fault,
        Ls2kI2cError::Invalid => InvokeError::Invalid,
    }
}

pub fn map_i2c_error(error: Ls2kI2cError) -> (mapped: InvokeError)
    ensures
        mapped == outside_error(error),
{
    match error {
        Ls2kI2cError::Timeout => InvokeError::Busy,
        Ls2kI2cError::NoAck | Ls2kI2cError::ArbitrationLost => InvokeError::Fault,
        Ls2kI2cError::Invalid => InvokeError::Invalid,
    }
}

/// The bus as a function of its device.
pub struct Ls2xI2cFunction {
    pub bus: Ls2xI2cBus,
    pub name: String,
    pub gone: bool,
}

/// The steps of a request and how many bytes it gives: 1 writes, 2 reads, 3 writes
/// to a register and 4 reads from one.
pub open spec fn request_steps(gone: bool, opcode: u32, input: Seq<u8>, room: int) -> Result<
    (Seq<BusStep>, int),
    InvokeError,
> {
    if gone {
        Err(InvokeError::Gone)
    } else if opcode == 1 {
        if input.len() == 0 || room != 0 {
            Err(InvokeError::Invalid)
        } else {
            Ok((write_steps(input[0], input.skip(1)), 0))
        }
    } else if opcode == 2 {
        if input.len() != 2 || room < input[1] {
            Err(InvokeError::Invalid)
        } else {
            Ok((read_steps(input[0], input[1] as int), input[1] as int))
        }
    } else if opcode == 3 {
        if input.len() < 2 || room != 0 {
            Err(InvokeError::Invalid)
        } else {
            Ok((write_regs_steps(input[0], input[1], input.skip(2)), 0))
        }
    } else if opcode == 4 {
        if input.len() != 3 || room < input[2] {
            Err(InvokeError::Invalid)
        } else {
            Ok((read_regs_steps(input[0], input[1], input[2] as int), input[2] as int))
        }
    } else {
        Err(InvokeError::Unsupported)
    }
}

/// Whether a request was answered so.
pub open spec fn answered(
    runs: Seq<StepRun>,
    received: Seq<u8>,
    steps_result: Result<(), Ls2kI2cError>,
    plan: Result<(Seq<BusStep>, int), InvokeError>,
    output: Seq<u8>,
    output_after: Seq<u8>,
    trace: Seq<Exchange>,
    result: Result<usize, InvokeError>,
) -> bool {
    match plan {
        Err(error) => {
            &&& trace == Seq::<Exchange>::empty()
            &&& output_after == output
            &&& result == Err::<usize, InvokeError>(error)
        },
        Ok(plan) => {
            &&& steps_went(runs, plan.0, trace, received, steps_result)
            &&& output_after == overwritten(output, received)
            &&& result == match steps_result {
                Ok(_) => Ok::<usize, InvokeError>(plan.1 as usize),
                Err(error) => Err(outside_error(error)),
            }
        },
    }
}

impl Ls2xI2cFunction {
    pub fn new(bus: Ls2xI2cBus, name: String) -> (function: Self)
        ensures
            function.bus == bus,
            function.name == name,
            !function.gone,
    {
        Ls2xI2cFunction { bus, name, gone: false }
    }

    pub fn class_id(&self) -> (class: u64)
        ensures
            class == I2C_CLASS,
    {
        I2C_CLASS
    }

    pub fn dev_name(&self) -> (name: &str)
        ensures
            name@ == self.name@,
    {
        self.name.as_str()
    }

    pub fn operation_contract(&self) -> (contract: Option<&'static str>)
        ensures
            contract == Some(I2C_CONTRACT),
    {
        Some(I2C_CONTRACT)
    }

    /// What a request asks of the bus, and how many bytes it gives.
    fn plan(&self, opcode: u32, input: &Vec<u8>, room: usize) -> (result: Result<
        (Vec<BusStep>, usize),
        InvokeError,
    >)
        ensures
            match request_steps(self.gone, opcode, input@, room as int) {
                Ok(plan) => {
                    &&& result is Ok
                    &&& result->Ok_0.0@ == plan.0
                    &&& result->Ok_0.1 == plan.1
                    &&& receives(plan.0) <= room
                },
                Err(error) => result == Err::<(Vec<BusStep>, usize), InvokeError>(error),
            },
    {
        if self.gone {
            return Err(InvokeError::Gone);
        }
        if opcode == 1 {
            if input.len() == 0 || room != 0 {
                return Err(InvokeError::Invalid);
            }
            return Ok((write_script(input[0], input, 1), 0));
        }
        if opcode == 2 {
            if input.len() != 2 || room < input[1] as usize {
                return Err(InvokeError::Invalid);
            }
            let len: usize = input[1] as usize;
            return Ok((read_script(input[0], len), len));
        }
        if opcode == 3 {
            if input.len() < 2 || room != 0 {
                return Err(InvokeError::Invalid);
            }
            return Ok((write_regs_script(input[0], input[1], input, 2), 0));
        }
        if opcode == 4 {
            if input.len() != 3 || room < input[2] as usize {
                return Err(InvokeError::Invalid);
            }
            let len: usize = input[2] as usize;
            return Ok((read_regs_script(input[0], input[1], len), len));
        }
        Err(InvokeError::Unsupported)
    }

    /// Answers a request.
    pub fn invoke<F: FnMut(Access) -> u64>(
        &self,
        port: &mut Port<F>,
        opcode: u32,
        input: &Vec<u8>,
        output: &mut Vec<u8>,
    ) -> (result: Result<usize, InvokeError>)
        requires
            old(port).wf(),
        ensures
            final(port).wf(),
            final(port).performs() == old(port).performs(),
            final(output)@.len() == old(output)@.len(),
            port::grown(final(port).log(), old(port).log()),
            exists|runs: Seq<StepRun>, received: Seq<u8>, steps_result: Result<(), Ls2kI2cError>|
             #[trigger]
                answered(
                    runs,
                    received,
                    steps_result,
                    request_steps(self.gone, opcode, input@, old(output)@.len() as int),
                    old(output)@,
                    final(output)@,
                    port::since(final(port).log(), old(port).log()),
                    result,
                ),
    {
        let ghost start = port.log();
        let ghost given = output@;
        let ghost plan = request_steps(self.gone, opcode, input@, given.len() as int);
        proof {
            assert(start + Seq::<Exchange>::empty() =~= start);
            port::lemma_grown(start, Seq::empty());
        }
        let (steps, len) = match self.plan(opcode, input, output.len()) {
            Ok(planned) => planned,
            Err(error) => {
                assert(answered(
                    Seq::empty(),
                    Seq::empty(),
                    Ok(()),
                    plan,
                    given,
                    output@,
                    Seq::empty(),
                    Err(error),
                ));
                return Err(error);
            },
        };
        let outcome = take_steps(port, &steps);
        let ghost trace = port::since(port.log(), start);
        let ghost runs = choose|runs: Seq<StepRun>| #[trigger]
            steps_went(runs, steps@, trace, outcome.received@, outcome.result);
        overwrite(output, &outcome.received);
        let result: Result<usize, InvokeError> = match outcome.result {
            Ok(_) => Ok(len),
            Err(error) => Err(map_i2c_error(error)),
        };
        assert(answered(
            runs,
            outcome.received@,
            outcome.result,
            plan,
            given,
            output@,
            trace,
            result,
        ));
        result
    }

    pub fn mark_gone(&mut self)
        ensures
            final(self).gone,
            final(self).bus == old(self).bus,
            final(self).name == old(self).name,
    {
        self.gone = true;
    }

    pub fn is_gone(&self) -> (gone: bool)
        ensures
            gone == self.gone,
    {
        self.gone
    }
}

/// The driver, with the function that maps the registers of a device.
pub struct Ls2kI2cDriver<M> {
    pub device_mmio_to_virt: M,
}

impl<M> Ls2kI2cDriver<M> {
    pub fn new(device_mmio_to_virt: M) -> (driver: Self)
        ensures
            driver.device_mmio_to_virt == device_mmio_to_virt,
    {
        Ls2kI2cDriver { device_mmio_to_virt }
    }
}

/// Whether a device with these names is a bus of this driver.
pub fn matches_platform(ids: &Vec<String>) -> (matching: bool)
    ensures
        matching == platform::compatible(ids@, COMPAT_LOONGSON_LS_I2C@),
{
    has_id(ids, COMPAT_LOONGSON_LS_I2C)
}

/// The registers of a bus.
pub fn check_window(first: Option<(usize, usize)>) -> (result: Result<(usize, usize), PnpError>)
    ensures
        result == match first {
            None => Err::<(usize, usize), PnpError>(
                PnpError::Missing(PnpResourceKind::Mmio, "i2c reg missing"),
            ),
            Some(range) => if range.1 < 8 {
                Err(PnpError::Malformed(PnpResourceKind::Mmio, "i2c register window too small"))
            } else {
                Ok(range)
            },
        },
{
    match first {
        None => Err(PnpError::Missing(PnpResourceKind::Mmio, "i2c reg missing")),
        Some(range) => {
            if range.1 < 8 {
                Err(PnpError::Malformed(PnpResourceKind::Mmio, "i2c register window too small"))
            } else {
                Ok(range)
            }
        },
    }
}

/// What the board said of the clock of a bus.
#[derive(Clone, Copy, PartialEq, Eq, Debug)]
pub enum ClockAnswer {
    Rate(u64),
    NoRate,
    /// No clock is described.
    Undescribed,
    Failed(PnpError),
}

/// The rate of the clock, or zero for a bus without one.
pub fn acquire_clock_hz(answer: ClockAnswer) -> (result: Result<u64, PnpError>)
    ensures
        result == match answer {
            ClockAnswer::Rate(hz) => Ok::<u64, PnpError>(hz),
            ClockAnswer::NoRate => Err(PnpError::HardwareFailure("i2c clock has no rate")),
            ClockAnswer::Undescribed => Ok(0),
            ClockAnswer::Failed(error) => Err(error),
        },
{
    match answer {
        ClockAnswer::Rate(hz) => Ok(hz),
        ClockAnswer::NoRate => Err(PnpError::HardwareFailure("i2c clock has no rate")),
        ClockAnswer::Undescribed => Ok(0),
        ClockAnswer::Failed(error) => Err(error),
    }
}

/// The name of a bus, by the number that firmware may give it.
pub fn function_name(bus_id: Option<u32>) -> (name: Vec<char>)
    ensures
        name@ == "i2c-"@ + text::decimal(
            match bus_id {
                Some(id) => id as nat,
                None => 0,
            },
        ),
{
    match bus_id {
        Some(id) => text::numbered("i2c-", id),
        None => text::numbered("i2c-", 0),
    }
}

} // verus!
