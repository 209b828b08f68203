//! The queue of commands to the unit and the queue of faults from it.

use vstd::prelude::*;
use crate::iommu::bits;
use crate::iommu::bits::{Command, FaultRecord};
use crate::port;
use crate::port::{Access, Exchange, NO_PAGE, Poll, PollTest, Port};

verus! {

/// What goes wrong with the unit.
#[derive(Clone, Copy, Debug, PartialEq, Eq, Structural)]
pub enum HardwareError {
    Invalid,
    OutOfMemory,
    Busy,
    Unsupported,
    Timeout,
    Queue,
    Directory,
}

/// A write of a register, with everything before it ordered against everything
/// after.
pub open spec fn put32(offset: usize, value: u32) -> Seq<Exchange> {
    seq![port::w32(offset, value), port::fence()]
}

/// A write of a wide register.
pub open spec fn put64(offset: usize, value: u64) -> Seq<Exchange> {
    seq![port::w64(offset, value), port::fence()]
}

pub fn write_register32<F: FnMut(Access) -> u64>(port: &mut Port<F>, offset: usize, value: u32)
    requires
        old(port).wf(),
    ensures
        final(port).wf(),
        final(port).performs() == old(port).performs(),
        final(port).log() == old(port).log() + put32(offset, value),
{
    port.write32(offset, value);
    port.barrier();
    assert(port.log() =~= old(port).log() + put32(offset, value));
}

pub fn write_register64<F: FnMut(Access) -> u64>(port: &mut Port<F>, offset: usize, value: u64)
    requires
        old(port).wf(),
    ensures
        final(port).wf(),
        final(port).performs() == old(port).performs(),
        final(port).log() == old(port).log() + put64(offset, value),
{
    port.write64(offset, value);
    port.barrier();
    assert(port.log() =~= old(port).log() + put64(offset, value));
}

/// A poll of a register as often as the unit is polled, without a pause.
pub open spec fn watch(offset: usize, wide: bool, test: PollTest) -> Poll {
    Poll { offset, wide, test, tries: bits::POLL_LIMIT, pause_ns: None }
}

/// The test that the bits of `mask` are all clear.
pub open spec fn all_clear(mask: u64) -> PollTest {
    PollTest { mask, expected: 0, equal: true }
}

/// The test that some bit of `mask` is set.
pub open spec fn any_set(mask: u64) -> PollTest {
    PollTest { mask, expected: 0, equal: false }
}

pub fn wait_register<F: FnMut(Access) -> u64>(
    port: &mut Port<F>,
    offset: usize,
    wide: bool,
    test: PollTest,
) -> (result: Option<u64>)
    requires
        old(port).wf(),
    ensures
        final(port).wf(),
        final(port).performs() == old(port).performs(),
        port::grown(final(port).log(), old(port).log()),
        watch(offset, wide, test).done(
            port::since(final(port).log(), old(port).log()),
            result,
        ),
        result is Some && !wide ==> result->0 <= u32::MAX,
{
    port.poll(Poll { offset, wide, test, tries: bits::POLL_LIMIT, pause_ns: None })
}

/// The registers of a queue.
#[derive(Clone, Copy)]
pub struct QueueRegisters {
    pub base: usize,
    /// The index that software moves.
    pub index: usize,
    pub csr: usize,
}

/// How a queue was started.
pub ghost struct QueueStart {
    pub reply: u64,
    pub readback: u64,
    pub poll: Seq<Exchange>,
    pub ended: Option<u64>,
}

/// The number of entries of a queue, less one.
pub open spec fn mask_of(log2: u64) -> u32 {
    if log2 == 0 {
        1
    } else if log2 == 1 {
        3
    } else if log2 == 2 {
        7
    } else if log2 == 3 {
        15
    } else if log2 == 4 {
        31
    } else {
        63
    }
}

/// The base register of a queue in a page.
pub open spec fn queue_base(paddr: u64) -> u64 {
    (bits::ppn(paddr as int) + bits::QUEUE_LOG2SZ) as u64
}

/// Whether a queue was started so: its page is programmed, the unit says how many
/// entries it takes, and the queue is enabled. A page that is not used is given
/// back.
pub open spec fn started(
    w: QueueStart,
    regs: QueueRegisters,
    enable: u32,
    trace: Seq<Exchange>,
    result: Result<(u64, u32), HardwareError>,
) -> bool {
    let asked = seq![port::allocated(w.reply)];
    let base = queue_base(w.reply);
    let opened = asked + put64(regs.base, base) + seq![port::r64(regs.base, w.readback)];
    if w.reply == NO_PAGE {
        trace == asked && result == Err::<(u64, u32), HardwareError>(HardwareError::OutOfMemory)
    } else if w.readback / 32 != base / 32 || w.readback % 32 > bits::QUEUE_LOG2SZ {
        &&& trace == opened + seq![port::released(w.reply)]
        &&& result == Err::<(u64, u32), HardwareError>(HardwareError::Queue)
    } else {
        let enabled = opened + put32(regs.index, 0) + put32(regs.csr, enable) + w.poll;
        &&& watch(regs.csr, false, any_set(bits::QUEUE_ACTIVE as u64)).done(w.poll, w.ended)
        &&& if w.ended is Some {
            &&& trace == enabled
            &&& result == Ok::<(u64, u32), HardwareError>(
                (w.reply, mask_of((w.readback % 32) as u64)),
            )
        } else {
            &&& trace == enabled + seq![port::released(w.reply)]
            &&& result == Err::<(u64, u32), HardwareError>(HardwareError::Timeout)
        }
    }
}

pub fn start_queue<F: FnMut(Access) -> u64>(
    port: &mut Port<F>,
    regs: QueueRegisters,
    enable: u32,
) -> (result: Result<(u64, u32), HardwareError>)
    requires
        old(port).wf(),
    ensures
        final(port).wf(),
        final(port).performs() == old(port).performs(),
        port::grown(final(port).log(), old(port).log()),
        exists|w: QueueStart| #[trigger]
            started(
                w,
                regs,
                enable,
                port::since(final(port).log(), old(port).log()),
                result,
            ),
        result matches Ok((_, mask)) ==> sized(mask),
{
    let ghost start = port.log();
    let reply: u64 = port.allocate_page();
    let ghost asked = seq![port::allocated(reply)];
    if reply == NO_PAGE {
        proof {
            assert(port.log() =~= start + asked);
            port::lemma_grown(start, asked);
            let w = QueueStart { reply, readback: 0, poll: Seq::empty(), ended: None };
            assert(started(
                w,
                regs,
                enable,
                asked,
                Err::<(u64, u32), HardwareError>(HardwareError::OutOfMemory),
            ));
        }
        return Err(HardwareError::OutOfMemory);
    }
    let base: u64 = reply / 4096 * 1024 + bits::QUEUE_LOG2SZ;
    write_register64(port, regs.base, base);
    let readback: u64 = port.read64(regs.base);
    let ghost opened = asked + put64(regs.base, base) + seq![port::r64(regs.base, readback)];
    assert(port.log() =~= start + opened);
    let log2: u64 = readback % 32;
    if readback / 32 != base / 32 || log2 > bits::QUEUE_LOG2SZ {
        port.release_page(reply);
        proof {
            let trace = opened + seq![port::released(reply)];
            assert(port.log() =~= start + trace);
            port::lemma_grown(start, trace);
            let w = QueueStart { reply, readback, poll: Seq::empty(), ended: None };
            assert(started(
                w,
                regs,
                enable,
                trace,
                Err::<(u64, u32), HardwareError>(HardwareError::Queue),
            ));
        }
        return Err(HardwareError::Queue);
    }
    let mask: u32 = if log2 == 0 {
        1
    } else if log2 == 1 {
        3
    } else if log2 == 2 {
        7
    } else if log2 == 3 {
        15
    } else if log2 == 4 {
        31
    } else {
        63
    };
    write_register32(port, regs.index, 0);
    write_register32(port, regs.csr, enable);
    let ghost before = port.log();
    let ended = wait_register(port, regs.csr, false, PollTest::any(bits::QUEUE_ACTIVE as u64));
    let ghost poll = port::since(port.log(), before);
    let ghost enabled = opened + put32(regs.index, 0) + put32(regs.csr, enable) + poll;
    let ghost w = QueueStart { reply, readback, poll, ended };
    assert(port.log() =~= start + enabled);
    if ended.is_none() {
        port.release_page(reply);
        proof {
            let trace = enabled + seq![port::released(reply)];
            assert(port.log() =~= start + trace);
            port::lemma_grown(start, trace);
            assert(started(
                w,
                regs,
                enable,
                trace,
                Err::<(u64, u32), HardwareError>(HardwareError::Timeout),
            ));
        }
        return Err(HardwareError::Timeout);
    }
    proof {
        port::lemma_grown(start, enabled);
        assert(started(
            w,
            regs,
            enable,
            enabled,
            Ok::<(u64, u32), HardwareError>((reply, mask)),
        ));
    }
    Ok((reply, mask))
}

/// Whether a queue has one of the sizes that there are.
pub open spec fn sized(mask: u32) -> bool {
    mask == 1 || mask == 3 || mask == 7 || mask == 15 || mask == 31 || mask == 63
}

/// Whether a queue was stopped so, and whether it did stop.
pub open spec fn stopping(
    csr: usize,
    poll: Seq<Exchange>,
    ended: Option<u64>,
    trace: Seq<Exchange>,
    stopped: bool,
) -> bool {
    &&& watch(csr, false, all_clear((bits::QUEUE_ACTIVE + bits::QUEUE_BUSY) as u64)).done(
        poll,
        ended,
    )
    &&& trace == put32(csr, 0) + poll
    &&& stopped == ended is Some
}

/// Switches a queue off and says whether it went quiet.
pub fn disable_queue<F: FnMut(Access) -> u64>(port: &mut Port<F>, csr: usize) -> (stopped: bool)
    requires
        old(port).wf(),
    ensures
        final(port).wf(),
        final(port).performs() == old(port).performs(),
        port::grown(final(port).log(), old(port).log()),
        exists|poll: Seq<Exchange>, ended: Option<u64>| #[trigger]
            stopping(
                csr,
                poll,
                ended,
                port::since(final(port).log(), old(port).log()),
                stopped,
            ),
{
    let ghost start = port.log();
    write_register32(port, csr, 0);
    let ghost before = port.log();
    let ended = wait_register(
        port,
        csr,
        false,
        PollTest::clear((bits::QUEUE_ACTIVE + bits::QUEUE_BUSY) as u64),
    );
    proof {
        let poll = port::since(port.log(), before);
        let trace = put32(csr, 0) + poll;
        assert(port.log() =~= start + trace);
        port::lemma_grown(start, trace);
        assert(stopping(csr, poll, ended, trace, ended is Some));
    }
    ended.is_some()
}

/// The queue of commands.
pub struct CommandQueue {
    /// The page of the queue; none once it was given up, because the unit may
    /// still use it.
    pub memory: Option<u64>,
    pub tail: u32,
    pub mask: u32,
}

/// Enable the queue and clear every error.
pub const CQ_ENABLE: u32 = 0xf01;

/// The error bits of the queue of commands.
pub open spec fn command_errors(status: u32) -> u32 {
    (status as int / 0x100 % 16 * 0x100) as u32
}

/// The value that keeps a queue enabled.
pub open spec fn enabled_value(interrupt: bool) -> u32 {
    if interrupt {
        3
    } else {
        1
    }
}

/// The index behind another one.
pub open spec fn next_index(index: u32, mask: u32) -> u32 {
    if index == mask {
        0
    } else {
        (index + 1) as u32
    }
}

/// The slot of an index that may be once round the queue.
pub open spec fn wrapped(index: int, mask: u32) -> int {
    if index <= mask {
        index
    } else {
        index - (mask + 1)
    }
}

/// How a command was pushed.
pub ghost struct PushRun {
    pub poll: Seq<Exchange>,
    pub ended: Option<u64>,
}

impl CommandQueue {
    pub open spec fn wf(&self) -> bool {
        sized(self.mask) && self.tail <= self.mask
    }

    /// The poll for room.
    pub open spec fn room(mask: u32, tail: u32) -> Poll {
        watch(
            bits::REG_CQH,
            false,
            PollTest {
                mask: mask as u64,
                expected: next_index(tail, mask) as u64,
                equal: false,
            },
        )
    }

    /// The accesses that hand a command over: it is in memory before the unit hears
    /// of it.
    pub open spec fn handed(memory: u64, mask: u32, tail: u32, command: Command) -> Seq<Exchange> {
        seq![
            port::s64((memory + 16 * tail) as usize, command.dword0),
            port::s64((memory + 16 * tail + 8) as usize, command.dword1),
            port::flushed(memory as usize),
            port::fence(),
        ] + put32(bits::REG_CQT, next_index(tail, mask))
    }

    /// Whether a command was pushed so.
    pub open spec fn pushed(
        memory: u64,
        mask: u32,
        tail: u32,
        command: Command,
        run: PushRun,
        trace: Seq<Exchange>,
    ) -> bool {
        &&& Self::room(mask, tail).done(run.poll, run.ended)
        &&& trace == (if run.ended is Some {
            run.poll + Self::handed(memory, mask, tail, command)
        } else {
            run.poll
        })
    }

    pub open spec fn registers() -> QueueRegisters {
        QueueRegisters { base: bits::REG_CQB, index: bits::REG_CQT, csr: bits::REG_CQCSR }
    }

    pub fn new<F: FnMut(Access) -> u64>(port: &mut Port<F>) -> (result: Result<Self, HardwareError>)
        requires
            old(port).wf(),
        ensures
            final(port).wf(),
            final(port).performs() == old(port).performs(),
            port::grown(final(port).log(), old(port).log()),
            exists|w: QueueStart, started_as: Result<(u64, u32), HardwareError>| #[trigger]
                started(
                    w,
                    Self::registers(),
                    CQ_ENABLE,
                    port::since(final(port).log(), old(port).log()),
                    started_as,
                ) && match started_as {
                    Ok((memory, mask)) => result == Ok::<CommandQueue, HardwareError>(
                        CommandQueue { memory: Some(memory), tail: 0, mask },
                    ),
                    Err(error) => result == Err::<CommandQueue, HardwareError>(error),
                },
            result is Ok ==> result->Ok_0.wf(),
    {
        let regs = QueueRegisters {
            base: bits::REG_CQB,
            index: bits::REG_CQT,
            csr: bits::REG_CQCSR,
        };
        assert(regs == Self::registers());
        match start_queue(port, regs, CQ_ENABLE) {
            Ok((memory, mask)) => Ok(CommandQueue { memory: Some(memory), tail: 0, mask }),
            Err(error) => Err(error),
        }
    }

    /// Pushes a command as soon as there is room.
    pub fn push<F: FnMut(Access) -> u64>(&mut self, port: &mut Port<F>, command: Command) -> (result:
        Result<(), HardwareError>)
        requires
            old(self).wf(),
            old(self).memory is Some,
            old(port).wf(),
        ensures
            final(self).wf(),
            final(port).wf(),
            final(port).performs() == old(port).performs(),
            port::grown(final(port).log(), old(port).log()),
            exists|run: PushRun| #[trigger]
                Self::pushed(
                    old(self).memory->0,
                    old(self).mask,
                    old(self).tail,
                    command,
                    run,
                    port::since(final(port).log(), old(port).log()),
                ) && if run.ended is Some {
                    result is Ok && *final(self) == (CommandQueue {
                        tail: next_index(old(self).tail, old(self).mask),
                        ..*old(self)
                    })
                } else {
                    result == Err::<(), HardwareError>(HardwareError::Timeout) && *final(self)
                        == *old(self)
                },
    {
        let ghost start = port.log();
        let next: u32 = if self.tail == self.mask {
            0
        } else {
            self.tail + 1
        };
        let ended = wait_register(
            port,
            bits::REG_CQH,
            false,
            PollTest { mask: self.mask as u64, expected: next as u64, equal: false },
        );
        let ghost poll = port::since(port.log(), start);
        let ghost run = PushRun { poll, ended };
        if ended.is_none() {
            assert(Self::pushed(
                old(self).memory->0,
                old(self).mask,
                old(self).tail,
                command,
                run,
                poll,
            ));
            return Err(HardwareError::Timeout);
        }
        if let Some(memory) = self.memory {
            let address: u128 = memory as u128 + 16 * (self.tail as u128);
            port.store64(address as usize, command.dword0);
            port.store64((address + 8) as usize, command.dword1);
            port.flush(memory as usize);
            port.barrier();
            self.tail = next;
            write_register32(port, bits::REG_CQT, next);
            proof {
                let trace = poll + Self::handed(
                    memory,
                    old(self).mask,
                    old(self).tail,
                    command,
                );
                assert(port.log() =~= start + trace);
                port::lemma_grown(start, trace);
                assert(Self::pushed(
                    old(self).memory->0,
                    old(self).mask,
                    old(self).tail,
                    command,
                    run,
                    trace,
                ));
            }
        }
        Ok(())
    }

    /// The poll for the last command.
    pub open spec fn idle(mask: u32, tail: u32) -> Poll {
        watch(
            bits::REG_CQH,
            false,
            PollTest { mask: mask as u64, expected: tail as u64, equal: true },
        )
    }

    /// Whether the queue was waited for so: every command was taken, and none went
    /// wrong. Errors are cleared.
    pub open spec fn idled(
        &self,
        poll: Seq<Exchange>,
        ended: Option<u64>,
        status: u32,
        trace: Seq<Exchange>,
        result: Result<(), HardwareError>,
    ) -> bool {
        &&& Self::idle(self.mask, self.tail).done(poll, ended)
        &&& if ended is None {
            trace == poll && result == Err::<(), HardwareError>(HardwareError::Timeout)
        } else {
            let looked = poll + seq![port::r32(bits::REG_CQCSR, status)];
            if command_errors(status) == 0 {
                trace == looked && result is Ok
            } else {
                &&& trace == looked + put32(
                    bits::REG_CQCSR,
                    (1 + status as int / 2 % 2 * 2 + command_errors(status)) as u32,
                )
                &&& result == Err::<(), HardwareError>(HardwareError::Queue)
            }
        }
    }

    pub fn wait_idle<F: FnMut(Access) -> u64>(&self, port: &mut Port<F>) -> (result: Result<
        (),
        HardwareError,
    >)
        requires
            self.wf(),
            old(port).wf(),
        ensures
            final(port).wf(),
            final(port).performs() == old(port).performs(),
            port::grown(final(port).log(), old(port).log()),
            exists|poll: Seq<Exchange>, ended: Option<u64>, status: u32| #[trigger]
                self.idled(
                    poll,
                    ended,
                    status,
                    port::since(final(port).log(), old(port).log()),
                    result,
                ),
    {
        let ghost start = port.log();
        let ended = wait_register(
            port,
            bits::REG_CQH,
            false,
            PollTest { mask: self.mask as u64, expected: self.tail as u64, equal: true },
        );
        let ghost poll = port::since(port.log(), start);
        if ended.is_none() {
            assert(self.idled(poll, ended, 0, poll, Err(HardwareError::Timeout)));
            return Err(HardwareError::Timeout);
        }
        let status: u32 = port.read32(bits::REG_CQCSR);
        let ghost looked = poll + seq![port::r32(bits::REG_CQCSR, status)];
        assert(port.log() =~= start + looked);
        let errors: u32 = status / 0x100 % 16 * 0x100;
        if errors != 0 {
            let value: u32 = 1 + status / 2 % 2 * 2 + errors;
            write_register32(port, bits::REG_CQCSR, value);
            proof {
                let trace = looked + put32(bits::REG_CQCSR, value);
                assert(port.log() =~= start + trace);
                port::lemma_grown(start, trace);
                assert(self.idled(poll, ended, status, trace, Err(HardwareError::Queue)));
            }
            return Err(HardwareError::Queue);
        }
        proof {
            port::lemma_grown(start, looked);
            assert(self.idled(poll, ended, status, looked, Ok(())));
        }
        Ok(())
    }

    pub fn set_interrupt_enabled<F: FnMut(Access) -> u64>(&self, port: &mut Port<F>, enabled: bool)
        requires
            old(port).wf(),
        ensures
            final(port).wf(),
            final(port).performs() == old(port).performs(),
            final(port).log() == old(port).log() + put32(bits::REG_CQCSR, enabled_value(enabled)),
    {
        write_register32(
            port,
            bits::REG_CQCSR,
            if enabled {
                3
            } else {
                1
            },
        );
    }

    /// The accesses of an interrupt of the queue, by what its status was.
    pub open spec fn interrupt_trace(status: u32, interrupt: bool) -> Seq<Exchange> {
        seq![port::r32(bits::REG_CQCSR, status)] + (if command_errors(status) == 0 {
            Seq::empty()
        } else {
            put32(
                bits::REG_CQCSR,
                (enabled_value(interrupt) + command_errors(status)) as u32,
            )
        }) + put32(bits::REG_IPSR, bits::IPSR_CQ)
    }

    /// Clears the errors of the queue and then the interrupt.
    pub fn service_interrupt<F: FnMut(Access) -> u64>(&self, port: &mut Port<F>, interrupt: bool)
        requires
            old(port).wf(),
        ensures
            final(port).wf(),
            final(port).performs() == old(port).performs(),
            exists|status: u32|
                final(port).log() == old(port).log() + #[trigger] Self::interrupt_trace(
                    status,
                    interrupt,
                ),
    {
        let ghost start = port.log();
        let status: u32 = port.read32(bits::REG_CQCSR);
        let errors: u32 = status / 0x100 % 16 * 0x100;
        if errors != 0 {
            let keep: u32 = if interrupt {
                3
            } else {
                1
            };
            write_register32(port, bits::REG_CQCSR, keep + errors);
        }
        write_register32(port, bits::REG_IPSR, bits::IPSR_CQ);
        assert(port.log() =~= start + Self::interrupt_trace(status, interrupt));
    }

    /// Switches the queue off. A queue that does not go quiet keeps its page for
    /// good.
    pub fn stop_or_leak<F: FnMut(Access) -> u64>(&mut self, port: &mut Port<F>) -> (stopped: bool)
        requires
            old(port).wf(),
            old(self).wf(),
        ensures
            final(port).wf(),
            final(port).performs() == old(port).performs(),
            final(self).wf(),
            port::grown(final(port).log(), old(port).log()),
            exists|poll: Seq<Exchange>, ended: Option<u64>| #[trigger]
                stopping(
                    bits::REG_CQCSR,
                    poll,
                    ended,
                    port::since(final(port).log(), old(port).log()),
                    stopped,
                ),
            *final(self) == (CommandQueue {
                memory: if stopped {
                    old(self).memory
                } else {
                    None
                },
                ..*old(self)
            }),
    {
        let stopped = disable_queue(port, bits::REG_CQCSR);
        if !stopped {
            self.memory = None;
        }
        stopped
    }
}

/// The queue of faults.
pub struct FaultQueue {
    pub memory: Option<u64>,
    pub head: u32,
    pub mask: u32,
    /// The faults that were taken off the queue.
    pub reports: Vec<FaultRecord>,
}

/// Enable the queue and clear every error.
pub const FQ_ENABLE: u32 = 0x301;

/// The error bits of the queue of faults.
pub open spec fn fault_errors(status: u32) -> u32 {
    (status as int / 0x100 % 4 * 0x100) as u32
}

/// A pass over the queue: how far it was filled, and what was in it.
pub ghost struct FaultPass {
    pub tail: u32,
    pub records: Seq<FaultRecord>,
}

/// The reads of a record.
pub open spec fn record_trace(memory: u64, slot: int, record: FaultRecord) -> Seq<Exchange> {
    seq![
        port::l64((memory + 32 * slot) as usize, record.header),
        port::l64((memory + 32 * slot + 8) as usize, record.reserved),
        port::l64((memory + 32 * slot + 16) as usize, record.iotval),
        port::l64((memory + 32 * slot + 24) as usize, record.iotval2),
    ]
}

/// The reads of several records, from a slot on and round the end.
pub open spec fn records_trace(
    memory: u64,
    mask: u32,
    head: int,
    records: Seq<FaultRecord>,
) -> Seq<Exchange>
    decreases records.len(),
{
    if records.len() == 0 {
        Seq::empty()
    } else {
        records_trace(memory, mask, head, records.drop_last()) + record_trace(
            memory,
            wrapped(head + records.len() - 1, mask),
            records.last(),
        )
    }
}

/// Whether a pass takes all that the queue held.
pub open spec fn pass_complete(mask: u32, head: int, pass: FaultPass) -> bool {
    &&& 1 <= pass.records.len() <= mask
    &&& wrapped(head + pass.records.len(), mask) == pass.tail as int % (mask + 1)
}

/// The accesses of several passes.
pub open spec fn passes_trace(memory: u64, mask: u32, head: int, passes: Seq<FaultPass>) -> Seq<
    Exchange,
>
    decreases passes.len(),
{
    if passes.len() == 0 {
        Seq::empty()
    } else {
        passes_trace(memory, mask, head, passes.drop_last()) + pass_trace(
            memory,
            mask,
            head_after(mask, head, passes.drop_last()),
            passes.last(),
        )
    }
}

/// The accesses of a pass.
pub open spec fn pass_trace(memory: u64, mask: u32, head: int, pass: FaultPass) -> Seq<Exchange> {
    seq![port::r32(bits::REG_FQT, pass.tail)] + records_trace(memory, mask, head, pass.records)
        + put32(bits::REG_FQH, (pass.tail as int % (mask + 1)) as u32) + seq![
        port::refreshed(memory as usize),
    ]
}

/// Where the queue begins after several passes.
pub open spec fn head_after(mask: u32, head: int, passes: Seq<FaultPass>) -> int {
    if passes.len() == 0 {
        head
    } else {
        passes.last().tail as int % (mask + 1)
    }
}

/// What several passes took off the queue.
pub open spec fn taken(passes: Seq<FaultPass>) -> Seq<FaultRecord>
    decreases passes.len(),
{
    if passes.len() == 0 {
        Seq::empty()
    } else {
        taken(passes.drop_last()) + passes.last().records
    }
}

/// Whether each pass takes all that the queue held then.
#[verifier::opaque]
pub open spec fn passes_complete(mask: u32, head: int, passes: Seq<FaultPass>) -> bool {
    forall|i: int|
        0 <= i < passes.len() ==> pass_complete(
            mask,
            head_after(mask, head, passes.take(i)),
            #[trigger] passes[i],
        )
}

proof fn lemma_one_more(mask: u32, head: int, passes: Seq<FaultPass>, pass: FaultPass)
    requires
        passes_complete(mask, head, passes),
        pass_complete(mask, head_after(mask, head, passes), pass),
    ensures
        passes_complete(mask, head, passes.push(pass)),
{
    reveal(passes_complete);
    let longer = passes.push(pass);
    assert forall|i: int| 0 <= i < longer.len() implies pass_complete(
        mask,
        head_after(mask, head, longer.take(i)),
        #[trigger] longer[i],
    ) by {
        if i < passes.len() {
            assert(longer.take(i) =~= passes.take(i));
            assert(longer[i] == passes[i]);
        } else {
            assert(longer.take(i) =~= passes);
        }
    }
}

/// The accesses before the first pass.
pub open spec fn drain_opening(memory: u64, pending: u32) -> Seq<Exchange> {
    seq![port::r32(bits::REG_IPSR, pending)] + (if pending / 2 % 2 == 1 {
        put32(bits::REG_IPSR, bits::IPSR_FQ)
    } else {
        Seq::empty()
    }) + seq![port::refreshed(memory as usize)]
}

/// The look that finds no more records.
pub open spec fn last_look(passes: Seq<FaultPass>, tail: u32) -> Seq<Exchange> {
    if passes.len() < u64::MAX {
        seq![port::r32(bits::REG_FQT, tail)]
    } else {
        Seq::empty()
    }
}

/// The accesses after the last pass.
pub open spec fn drain_closing(status: u32, interrupt: bool) -> Seq<Exchange> {
    seq![port::r32(bits::REG_FQCSR, status)] + (if fault_errors(status) == 0 {
        Seq::empty()
    } else {
        put32(bits::REG_FQCSR, (enabled_value(interrupt) + fault_errors(status)) as u32)
    })
}

fn open_drain<F: FnMut(Access) -> u64>(port: &mut Port<F>, memory: u64) -> (pending: u32)
    requires
        old(port).wf(),
    ensures
        final(port).wf(),
        final(port).performs() == old(port).performs(),
        final(port).log() == old(port).log() + drain_opening(memory, pending),
{
    let ghost start = port.log();
    let pending: u32 = port.read32(bits::REG_IPSR);
    if pending / 2 % 2 == 1 {
        write_register32(port, bits::REG_IPSR, bits::IPSR_FQ);
    }
    port.refresh(memory as usize);
    assert(port.log() =~= start + drain_opening(memory, pending));
    pending
}

fn close_drain<F: FnMut(Access) -> u64>(port: &mut Port<F>, interrupt: bool) -> (status: u32)
    requires
        old(port).wf(),
    ensures
        final(port).wf(),
        final(port).performs() == old(port).performs(),
        final(port).log() == old(port).log() + drain_closing(status, interrupt),
{
    let ghost start = port.log();
    let status: u32 = port.read32(bits::REG_FQCSR);
    let errors: u32 = status / 0x100 % 4 * 0x100;
    if errors != 0 {
        let keep: u32 = if interrupt {
            3
        } else {
            1
        };
        write_register32(port, bits::REG_FQCSR, keep + errors);
    }
    assert(port.log() =~= start + drain_closing(status, interrupt));
    status
}

/// How the queue was drained.
pub ghost struct Drain {
    pub pending: u32,
    pub passes: Seq<FaultPass>,
    pub tail: u32,
    pub status: u32,
}

impl FaultQueue {
    pub open spec fn wf(&self) -> bool {
        sized(self.mask) && self.head <= self.mask
    }

    pub open spec fn registers() -> QueueRegisters {
        QueueRegisters { base: bits::REG_FQB, index: bits::REG_FQH, csr: bits::REG_FQCSR }
    }

    pub fn new<F: FnMut(Access) -> u64>(port: &mut Port<F>) -> (result: Result<Self, HardwareError>)
        requires
            old(port).wf(),
        ensures
            final(port).wf(),
            final(port).performs() == old(port).performs(),
            port::grown(final(port).log(), old(port).log()),
            exists|w: QueueStart, started_as: Result<(u64, u32), HardwareError>| #[trigger]
                started(
                    w,
                    Self::registers(),
                    FQ_ENABLE,
                    port::since(final(port).log(), old(port).log()),
                    started_as,
                ) && match started_as {
                    Ok((memory, mask)) => result matches Ok(queue) && queue.memory == Some(memory)
                        && queue.head == 0 && queue.mask == mask && queue.reports@.len() == 0,
                    Err(error) => result == Err::<FaultQueue, HardwareError>(error),
                },
            result is Ok ==> result->Ok_0.wf(),
    {
        let regs = QueueRegisters {
            base: bits::REG_FQB,
            index: bits::REG_FQH,
            csr: bits::REG_FQCSR,
        };
        assert(regs == Self::registers());
        match start_queue(port, regs, FQ_ENABLE) {
            Ok((memory, mask)) => Ok(
                FaultQueue { memory: Some(memory), head: 0, mask, reports: Vec::new() },
            ),
            Err(error) => Err(error),
        }
    }

    /// Takes the records up to `tail` off the queue.
    fn take_records<F: FnMut(Access) -> u64>(&mut self, port: &mut Port<F>, memory: u64, tail: u32)
        requires
            old(self).wf(),
            old(port).wf(),
            old(self).memory == Some(memory),
            tail <= old(self).mask,
            tail != old(self).head,
        ensures
            final(self).wf(),
            final(port).wf(),
            final(port).performs() == old(port).performs(),
            final(self).memory == old(self).memory,
            final(self).mask == old(self).mask,
            final(self).head == tail,
            exists|records: Seq<FaultRecord>|
                final(port).log() == old(port).log() + #[trigger] records_trace(
                    memory,
                    old(self).mask,
                    old(self).head as int,
                    records,
                ) && final(self).reports@ == old(self).reports@ + records && 1 <= records.len()
                    <= old(self).mask && wrapped(
                    old(self).head + records.len(),
                    old(self).mask,
                ) == tail,
    {
        let ghost start = port.log();
        let ghost first = self.head as int;
        let ghost mask = self.mask;
        let ghost size = self.mask + 1;
        let ghost earlier = self.reports@;
        let ghost mut records: Seq<FaultRecord> = Seq::empty();
        let ghost wanted = if tail > first {
            tail - first
        } else {
            size - first + tail
        };
        assert(start + records_trace(memory, mask, first, records) =~= start);
        assert(earlier + records =~= earlier);
        while self.head != tail
            invariant
                self.wf(),
                port.wf(),
                port.performs() == old(port).performs(),
                self.memory == Some(memory),
                self.mask == mask,
                self.memory == old(self).memory,
                size == mask + 1,
                tail <= mask,
                0 <= first <= mask,
                first == old(self).head,
                wanted == (if tail > first {
                    tail - first
                } else {
                    size - first + tail
                }),
                tail != first,
                records.len() <= wanted,
                self.head == wrapped(first + records.len(), mask),
                port.log() == start + records_trace(memory, mask, first, records),
                self.reports@ == earlier + records,
            decreases wanted - records.len(),
        {
            let ghost before = records;
            proof {
                if before.len() == wanted {
                    assert(self.head == tail);
                }
            }
            let base: u128 = memory as u128 + 32 * (self.head as u128);
            let header: u64 = port.load64(base as usize);
            let reserved: u64 = port.load64((base + 8) as usize);
            let iotval: u64 = port.load64((base + 16) as usize);
            let iotval2: u64 = port.load64((base + 24) as usize);
            let record = FaultRecord { header, reserved, iotval, iotval2 };
            self.reports.push(record);
            proof {
                records = records.push(record);
                assert(records.drop_last() =~= before);
                assert(port.log() =~= start + records_trace(memory, mask, first, records));
                assert(self.reports@ =~= earlier + records);
            }
            self.head = if self.head == self.mask {
                0
            } else {
                self.head + 1
            };
        }
        proof {
            assert(records.len() > 0);
            assert(port.log() == start + records_trace(memory, mask, first, records));
        }
    }

    /// Whether the queue was drained so: the interrupt is cleared first, so that a
    /// record that comes later raises it again; records are taken until the unit
    /// has no more; then errors are cleared.
    #[verifier::opaque]
    pub open spec fn drained(
        &self,
        after: &FaultQueue,
        interrupt: bool,
        drain: Drain,
        trace: Seq<Exchange>,
    ) -> bool {
        let memory = self.memory->0;
        &&& after.memory == self.memory
        &&& after.mask == self.mask
        &&& after.head == head_after(self.mask, self.head as int, drain.passes)
        &&& after.reports@ == self.reports@ + taken(drain.passes)
        &&& passes_complete(self.mask, self.head as int, drain.passes)
        &&& drain.passes.len() < u64::MAX ==> drain.tail as int % (self.mask + 1) == after.head
        &&& trace == drain_opening(memory, drain.pending) + passes_trace(
            memory,
            self.mask,
            self.head as int,
            drain.passes,
        ) + last_look(drain.passes, drain.tail) + drain_closing(drain.status, interrupt)
    }

    /// Takes the records off the queue that it held when the unit was asked, unless
    /// there are none.
    fn make_pass<F: FnMut(Access) -> u64>(&mut self, port: &mut Port<F>, memory: u64) -> (more: bool)
        requires
            old(self).wf(),
            old(port).wf(),
            old(self).memory == Some(memory),
        ensures
            final(self).wf(),
            final(port).wf(),
            final(port).performs() == old(port).performs(),
            final(self).memory == old(self).memory,
            final(self).mask == old(self).mask,
            exists|pass: FaultPass| #[trigger]
                old(self).made(final(self), memory, pass, more, old(port).log(), final(port).log()),
    {
        let ghost start = port.log();
        let ghost mask = self.mask;
        let raw: u32 = port.read32(bits::REG_FQT);
        let tail: u32 = raw % (self.mask + 1);
        if self.head == tail {
            proof {
                let pass = FaultPass { tail: raw, records: Seq::empty() };
                assert(old(self).made(self, memory, pass, false, start, port.log()));
            }
            return false;
        }
        let ghost looked = port.log();
        let ghost was = self.reports@;
        let ghost head = self.head as int;
        self.take_records(port, memory, tail);
        let ghost records = choose|records: Seq<FaultRecord>|
            port.log() == looked + #[trigger] records_trace(memory, mask, head, records)
                && self.reports@ == was + records && 1 <= records.len() <= mask && wrapped(
                head + records.len(),
                mask,
            ) == tail;
        write_register32(port, bits::REG_FQH, self.head);
        port.refresh(memory as usize);
        proof {
            let pass = FaultPass { tail: raw, records };
            assert(port.log() =~= start + pass_trace(memory, mask, head, pass));
            assert(old(self).made(self, memory, pass, true, start, port.log()));
        }
        true
    }

    /// Whether a pass was made, or no records were there.
    pub open spec fn made(
        &self,
        after: &FaultQueue,
        memory: u64,
        pass: FaultPass,
        more: bool,
        log: Seq<Exchange>,
        now: Seq<Exchange>,
    ) -> bool {
        &&& after.head == pass.tail as int % (self.mask + 1)
        &&& if more {
            &&& pass_complete(self.mask, self.head as int, pass)
            &&& after.reports@ == self.reports@ + pass.records
            &&& now == log + pass_trace(memory, self.mask, self.head as int, pass)
        } else {
            &&& after.head == self.head
            &&& after.reports@ == self.reports@
            &&& now == log.push(port::r32(bits::REG_FQT, pass.tail))
        }
    }

    /// Makes passes until the unit has no more records.
    fn make_passes<F: FnMut(Access) -> u64>(&mut self, port: &mut Port<F>, memory: u64)
        requires
            old(self).wf(),
            old(port).wf(),
            old(self).memory == Some(memory),
        ensures
            final(self).wf(),
            final(port).wf(),
            final(port).performs() == old(port).performs(),
            exists|passes: Seq<FaultPass>, tail: u32| #[trigger]
                old(self).passed(final(self), passes, tail, old(port).log(), final(port).log()),
    {
        let ghost start = port.log();
        let ghost first = self.head as int;
        let ghost mask = self.mask;
        let ghost earlier = self.reports@;
        let ghost mut passes: Seq<FaultPass> = Seq::empty();
        let mut count: u64 = 0;
        assert(start + passes_trace(memory, mask, first, passes) =~= start);
        assert(earlier + taken(passes) =~= earlier);
        assert(passes_complete(mask, first, passes)) by {
            reveal(passes_complete);
        }
        while count < u64::MAX
            invariant
                self.wf(),
                port.wf(),
                port.performs() == old(port).performs(),
                self.memory == Some(memory),
                self.mask == mask,
                mask == old(self).mask,
                first == old(self).head,
                earlier == old(self).reports@,
                start == old(port).log(),
                self.memory == old(self).memory,
                count == passes.len(),
                self.head == head_after(mask, first, passes),
                self.reports@ == earlier + taken(passes),
                passes_complete(mask, first, passes),
                port.log() == start + passes_trace(memory, mask, first, passes),
            decreases u64::MAX - count,
        {
            let ghost before = port.log();
            let ghost queue = *self;
            let more = self.make_pass(port, memory);
            let ghost pass = choose|pass: FaultPass| #[trigger]
                queue.made(self, memory, pass, more, before, port.log());
            if !more {
                assert(port.log() =~= start + passes_trace(memory, mask, first, passes) + last_look(
                    passes,
                    pass.tail,
                ));
                assert(old(self).passed(self, passes, pass.tail, start, port.log()));
                return ;
            }
            proof {
                let done = passes;
                passes = passes.push(pass);
                assert(passes.drop_last() =~= done);
                assert(passes.last() == pass);
                assert(port.log() =~= start + passes_trace(memory, mask, first, passes));
                assert(self.reports@ =~= earlier + taken(passes));
                lemma_one_more(mask, first, done, pass);
            }
            count += 1;
        }
        assert(old(self).passed(self, passes, 0, start, port.log()));
    }

    /// Whether passes were made until there were no more records.
    pub open spec fn passed(
        &self,
        after: &FaultQueue,
        passes: Seq<FaultPass>,
        tail: u32,
        log: Seq<Exchange>,
        now: Seq<Exchange>,
    ) -> bool {
        let memory = self.memory->0;
        &&& after.memory == self.memory
        &&& after.mask == self.mask
        &&& after.head == head_after(self.mask, self.head as int, passes)
        &&& after.reports@ == self.reports@ + taken(passes)
        &&& passes_complete(self.mask, self.head as int, passes)
        &&& passes.len() < u64::MAX ==> tail as int % (self.mask + 1) == after.head
        &&& now == log + passes_trace(memory, self.mask, self.head as int, passes) + last_look(
            passes,
            tail,
        )
    }

    /// Takes every record off the queue.
    pub fn drain<F: FnMut(Access) -> u64>(&mut self, port: &mut Port<F>, interrupt: bool)
        requires
            old(self).wf(),
            old(port).wf(),
            old(self).memory is Some,
        ensures
            final(self).wf(),
            final(port).wf(),
            final(port).performs() == old(port).performs(),
            final(self).memory == old(self).memory,
            final(self).mask == old(self).mask,
            port::grown(final(port).log(), old(port).log()),
            exists|drain: Drain| #[trigger]
                old(self).drained(
                    final(self),
                    interrupt,
                    drain,
                    port::since(final(port).log(), old(port).log()),
                ),
    {
        let ghost start = port.log();
        let memory: u64 = match self.memory {
            Some(memory) => memory,
            None => 0,
        };
        let pending: u32 = open_drain(port, memory);
        let ghost opened = port.log();
        self.make_passes(port, memory);
        let ghost (passes, tail) = choose|passes: Seq<FaultPass>, tail: u32| #[trigger]
            old(self).passed(self, passes, tail, opened, port.log());
        let status: u32 = close_drain(port, interrupt);
        proof {
            let drain = Drain { pending, passes, tail, status };
            let a = drain_opening(memory, pending);
            let b = passes_trace(memory, old(self).mask, old(self).head as int, passes);
            let c = last_look(passes, tail);
            let d = drain_closing(status, interrupt);
            let trace = a + b + c + d;
            assert(port.log() == start + a + b + c + d);
            port::lemma_four(start, a, b, c, d);
            port::lemma_grown(start, trace);
            reveal(FaultQueue::drained);
            assert(old(self).drained(self, interrupt, drain, trace));
        }
    }

    pub fn set_interrupt_enabled<F: FnMut(Access) -> u64>(&self, port: &mut Port<F>, enabled: bool)
        requires
            old(port).wf(),
        ensures
            final(port).wf(),
            final(port).performs() == old(port).performs(),
            final(port).log() == old(port).log() + put32(bits::REG_FQCSR, enabled_value(enabled)),
    {
        write_register32(
            port,
            bits::REG_FQCSR,
            if enabled {
                3
            } else {
                1
            },
        );
    }

    /// Switches the queue off. A queue that does not go quiet keeps its page for
    /// good.
    pub fn stop_or_leak<F: FnMut(Access) -> u64>(&mut self, port: &mut Port<F>) -> (stopped: bool)
        requires
            old(port).wf(),
            old(self).wf(),
        ensures
            final(port).wf(),
            final(port).performs() == old(port).performs(),
            final(self).wf(),
            port::grown(final(port).log(), old(port).log()),
            exists|poll: Seq<Exchange>, ended: Option<u64>| #[trigger]
                stopping(
                    bits::REG_FQCSR,
                    poll,
                    ended,
                    port::since(final(port).log(), old(port).log()),
                    stopped,
                ),
            *final(self) == (FaultQueue {
                memory: if stopped {
                    old(self).memory
                } else {
                    None
                },
                ..*old(self)
            }),
    {
        let stopped = disable_queue(port, bits::REG_FQCSR);
        if !stopped {
            self.memory = None;
        }
        stopped
    }
}

} // verus!
