//! The unit as a whole: its state, and how it is driven.

use vstd::prelude::*;
use crate::iommu::bits;
use crate::iommu::bits::Command;
use crate::iommu::directory::DeviceDirectory;
use crate::iommu::queue;
use crate::iommu::queue::{
    CommandQueue, Drain, FaultQueue, HardwareError, PushRun, wait_register, write_register32,
    write_register64,
};
use crate::port;
use crate::port::{Access, Exchange, PollTest, Port};

verus! {

/// The place of a command in the queue, some pushes later.
pub open spec fn tail_after(mask: u32, tail: u32, count: int) -> u32
    decreases count,
{
    if count <= 0 {
        tail
    } else {
        queue::next_index(tail_after(mask, tail, count - 1), mask)
    }
}

/// The accesses of several pushes that found room.
pub open spec fn pushes_trace(
    memory: u64,
    mask: u32,
    tail: u32,
    commands: Seq<Command>,
    runs: Seq<PushRun>,
    count: int,
) -> Seq<Exchange>
    decreases count,
{
    if count <= 0 {
        Seq::empty()
    } else {
        pushes_trace(memory, mask, tail, commands, runs, count - 1) + (runs[count - 1].poll
            + CommandQueue::handed(
            memory,
            mask,
            tail_after(mask, tail, count - 1),
            commands[count - 1],
        ))
    }
}

/// Whether a push found room.
pub open spec fn found_room(mask: u32, tail: u32, run: PushRun) -> bool {
    CommandQueue::room(mask, tail).done(run.poll, run.ended) && run.ended is Some
}

/// Whether commands were pushed so: in order, until one finds no room.
pub open spec fn all_pushed(
    before: CommandQueue,
    after: CommandQueue,
    commands: Seq<Command>,
    runs: Seq<PushRun>,
    trace: Seq<Exchange>,
    result: Result<(), HardwareError>,
) -> bool {
    let count = if result is Ok {
        runs.len() as int
    } else {
        runs.len() - 1
    };
    let done = pushes_trace(
        before.memory->0,
        before.mask,
        before.tail,
        commands,
        runs,
        count,
    );
    &&& 0 <= count
    &&& runs.len() <= commands.len()
    &&& forall|i: int|
        0 <= i < count ==> found_room(
            before.mask,
            tail_after(before.mask, before.tail, i),
            #[trigger] runs[i],
        )
    &&& after == (CommandQueue { tail: tail_after(before.mask, before.tail, count), ..before })
    &&& if result is Ok {
        runs.len() == commands.len() && trace == done
    } else {
        &&& result == Err::<(), HardwareError>(HardwareError::Timeout)
        &&& CommandQueue::room(before.mask, tail_after(before.mask, before.tail, count)).done(
            runs.last().poll,
            None,
        )
        &&& trace == done + runs.last().poll
    }
}

proof fn lemma_pushes_local(
    memory: u64,
    mask: u32,
    tail: u32,
    commands: Seq<Command>,
    runs: Seq<PushRun>,
    longer: Seq<PushRun>,
    count: int,
)
    requires
        count <= runs.len() <= longer.len(),
        forall|i: int| 0 <= i < count ==> #[trigger] runs[i] == longer[i],
    ensures
        pushes_trace(memory, mask, tail, commands, runs, count) == pushes_trace(
            memory,
            mask,
            tail,
            commands,
            longer,
            count,
        ),
    decreases count,
{
    if count > 0 {
        lemma_pushes_local(memory, mask, tail, commands, runs, longer, count - 1);
        assert(runs[count - 1] == longer[count - 1]);
    }
}

/// Pushes commands in order.
#[verifier::rlimit(40)]
pub fn push_all<F: FnMut(Access) -> u64>(
    queue: &mut CommandQueue,
    port: &mut Port<F>,
    commands: &Vec<Command>,
) -> (result: Result<(), HardwareError>)
    requires
        old(queue).wf(),
        old(queue).memory is Some,
        old(port).wf(),
    ensures
        final(queue).wf(),
        final(port).wf(),
        final(port).performs() == old(port).performs(),
        port::grown(final(port).log(), old(port).log()),
        exists|runs: Seq<PushRun>| #[trigger]
            all_pushed(
                *old(queue),
                *final(queue),
                commands@,
                runs,
                port::since(final(port).log(), old(port).log()),
                result,
            ),
{
    let ghost start = port.log();
    let ghost first = *queue;
    let ghost memory = queue.memory->0;
    let ghost mut runs: Seq<PushRun> = Seq::empty();
    let mut i: usize = 0;
    assert(start + pushes_trace(memory, first.mask, first.tail, commands@, runs, 0) =~= start);
    while i < commands.len()
        invariant
            i <= commands@.len(),
            runs.len() == i,
            queue.wf(),
            port.wf(),
            port.performs() == old(port).performs(),
            first == *old(queue),
            start == old(port).log(),
            first.memory == Some(memory),
            *queue == (CommandQueue {
                tail: tail_after(first.mask, first.tail, i as int),
                ..first
            }),
            forall|k: int|
                0 <= k < i ==> found_room(
                    first.mask,
                    tail_after(first.mask, first.tail, k),
                    #[trigger] runs[k],
                ),
            port.log() == start + pushes_trace(
                memory,
                first.mask,
                first.tail,
                commands@,
                runs,
                i as int,
            ),
        decreases commands@.len() - i,
    {
        let ghost before = port.log();
        let ghost tail = queue.tail;
        let pushed = queue.push(port, commands[i]);
        let ghost run = choose|run: PushRun| #[trigger]
            CommandQueue::pushed(
                memory,
                first.mask,
                tail,
                commands@[i as int],
                run,
                port::since(port.log(), before),
            ) && run.ended is Some == pushed is Ok;
        proof {
            let earlier = runs;
            let done = pushes_trace(
                memory,
                first.mask,
                first.tail,
                commands@,
                earlier,
                i as int,
            );
            runs = runs.push(run);
            lemma_pushes_local(
                memory,
                first.mask,
                first.tail,
                commands@,
                earlier,
                runs,
                i as int,
            );
            assert(runs[i as int] == run);
            assert(runs.last() == run);
            let step = port::since(port.log(), before);
            assert(port.log() =~= start + (done + step));
            port::lemma_grown(start, done + step);
        }
        if pushed.is_err() {
            assert(all_pushed(
                first,
                *queue,
                commands@,
                runs,
                port::since(port.log(), start),
                pushed,
            ));
            return pushed;
        }
        i += 1;
    }
    proof {
        port::lemma_grown(
            start,
            pushes_trace(memory, first.mask, first.tail, commands@, runs, i as int),
        );
        assert(all_pushed(
            first,
            *queue,
            commands@,
            runs,
            port::since(port.log(), start),
            Ok(()),
        ));
    }
    Ok(())
}

/// The register of a counter: the cycles come first, then the events.
pub open spec fn counter_register(counter: int) -> usize {
    if counter == 0 {
        bits::REG_IOHPMCYCLES
    } else {
        (bits::REG_IOHPMEVT_BASE + 8 * (counter - 1)) as usize
    }
}

/// Whether a counter overflowed.
pub open spec fn overflowed(overflow: u32, counter: int) -> bool {
    (overflow >> (counter as u32)) & 1 == 1
}

/// The accesses that clear the mark of the first `count` counters that overflowed.
pub open spec fn counters_trace(overflow: u32, values: Seq<u64>, count: int) -> Seq<Exchange>
    decreases count,
{
    if count <= 0 {
        Seq::empty()
    } else if overflowed(overflow, count - 1) {
        counters_trace(overflow, values, count - 1) + (seq![
            port::r64(counter_register(count - 1), values[count - 1]),
        ] + queue::put64(
            counter_register(count - 1),
            (values[count - 1] % bits::HPM_OVERFLOW) as u64,
        ))
    } else {
        counters_trace(overflow, values, count - 1)
    }
}

/// The accesses of an interrupt of the counters.
pub open spec fn performance_trace(overflow: u32, values: Seq<u64>) -> Seq<Exchange> {
    seq![port::r32(bits::REG_IOCOUNTOVF, overflow)] + counters_trace(overflow, values, 32)
        + queue::put32(bits::REG_IPSR, bits::IPSR_PM)
}

proof fn lemma_counters_local(overflow: u32, values: Seq<u64>, longer: Seq<u64>, count: int)
    requires
        count <= values.len() <= longer.len(),
        forall|i: int| 0 <= i < count ==> #[trigger] values[i] == longer[i],
    ensures
        counters_trace(overflow, values, count) == counters_trace(overflow, longer, count),
    decreases count,
{
    if count > 0 {
        lemma_counters_local(overflow, values, longer, count - 1);
        assert(values[count - 1] == longer[count - 1]);
    }
}

/// Clears the mark of each counter that overflowed, and then the interrupt.
pub fn service_performance_interrupt<F: FnMut(Access) -> u64>(port: &mut Port<F>)
    requires
        old(port).wf(),
    ensures
        final(port).wf(),
        final(port).performs() == old(port).performs(),
        exists|overflow: u32, values: Seq<u64>|
            final(port).log() == old(port).log() + #[trigger] performance_trace(overflow, values),
{
    let ghost start = port.log();
    let overflow: u32 = port.read32(bits::REG_IOCOUNTOVF);
    let ghost looked = port.log();
    let ghost mut values: Seq<u64> = Seq::empty();
    let mut counter: u32 = 0;
    assert(looked + counters_trace(overflow, values, 0) =~= looked);
    while counter < 32
        invariant
            counter <= 32,
            port.wf(),
            port.performs() == old(port).performs(),
            values.len() == counter,
            port.log() == looked + counters_trace(overflow, values, counter as int),
        decreases 32 - counter,
    {
        let ghost earlier = values;
        if (overflow >> counter) & 1 == 1 {
            let register: usize = if counter == 0 {
                bits::REG_IOHPMCYCLES
            } else {
                bits::REG_IOHPMEVT_BASE + 8 * (counter as usize - 1)
            };
            let value: u64 = port.read64(register);
            write_register64(port, register, value % bits::HPM_OVERFLOW);
            proof {
                values = values.push(value);
                assert(register == counter_register(counter as int));
            }
        } else {
            proof {
                values = values.push(0);
            }
        }
        proof {
            lemma_counters_local(overflow, earlier, values, counter as int);
            assert(port.log() =~= looked + counters_trace(overflow, values, counter + 1));
        }
        counter += 1;
    }
    write_register32(port, bits::REG_IPSR, bits::IPSR_PM);
    assert(port.log() =~= start + performance_trace(overflow, values));
}

/// The accesses of an interrupt of page requests, which are not used: only errors
/// that are set are cleared.
pub open spec fn request_trace(status: u32) -> Seq<Exchange> {
    seq![port::r32(bits::REG_PQCSR, status)] + (if queue::fault_errors(status) == 0 {
        Seq::empty()
    } else {
        queue::put32(bits::REG_PQCSR, (status % 4 + queue::fault_errors(status)) as u32)
    }) + queue::put32(bits::REG_IPSR, bits::IPSR_PQ)
}

pub fn service_page_request_interrupt<F: FnMut(Access) -> u64>(port: &mut Port<F>)
    requires
        old(port).wf(),
    ensures
        final(port).wf(),
        final(port).performs() == old(port).performs(),
        exists|status: u32|
            final(port).log() == old(port).log() + #[trigger] request_trace(status),
{
    let ghost start = port.log();
    let status: u32 = port.read32(bits::REG_PQCSR);
    let errors: u32 = status / 0x100 % 4 * 0x100;
    if errors != 0 {
        write_register32(port, bits::REG_PQCSR, status % 4 + errors);
    }
    write_register32(port, bits::REG_IPSR, bits::IPSR_PQ);
    assert(port.log() =~= start + request_trace(status));
}

/// How pending interrupts were serviced.
pub ghost struct Service {
    pub ipsr: u32,
    pub command: u32,
    pub drain: Drain,
    pub drain_trace: Seq<Exchange>,
    pub overflow: u32,
    pub counters: Seq<u64>,
    pub requests: u32,
}

/// A part of a trace, if it is there.
pub open spec fn when(there: bool, trace: Seq<Exchange>) -> Seq<Exchange> {
    if there {
        trace
    } else {
        Seq::empty()
    }
}

/// The state of the unit.
pub struct ControllerState {
    pub command: CommandQueue,
    pub fault: FaultQueue,
    pub directory: DeviceDirectory,
    pub attached: Vec<u32>,
    pub enabled: bool,
    pub interrupts_enabled: bool,
}

/// How commands were executed.
pub ghost struct Execution {
    pub runs: Seq<PushRun>,
    pub pushed: Result<(), HardwareError>,
    pub push_trace: Seq<Exchange>,
    pub idle_poll: Seq<Exchange>,
    pub idle_ended: Option<u64>,
    pub idle_status: u32,
    pub idle: Result<(), HardwareError>,
    pub idle_trace: Seq<Exchange>,
    pub queue: CommandQueue,
    pub service: Service,
    pub service_trace: Seq<Exchange>,
}

/// How the unit was stopped.
pub ghost struct Stop {
    pub off_poll: Seq<Exchange>,
    pub off_ended: Option<u64>,
    pub drain: Drain,
    pub drain_trace: Seq<Exchange>,
    pub fault_poll: Seq<Exchange>,
    pub fault_ended: Option<u64>,
    pub fault_trace: Seq<Exchange>,
    pub command_poll: Seq<Exchange>,
    pub command_ended: Option<u64>,
    pub command_trace: Seq<Exchange>,
}

/// The test that the directory is off.
pub open spec fn directory_off() -> port::Poll {
    queue::watch(bits::REG_DDTP, true, queue::all_clear(0x1f))
}

impl ControllerState {
    pub open spec fn wf(&self) -> bool {
        &&& self.command.wf()
        &&& self.fault.wf()
        &&& self.directory.wf()
        &&& self.enabled ==> self.command.memory is Some && self.fault.memory is Some
    }

    /// Whether everything but the queues is as before.
    pub open spec fn same_but_queues(&self, other: &ControllerState) -> bool {
        &&& self.directory == other.directory
        &&& self.attached == other.attached
        &&& self.enabled == other.enabled
        &&& self.interrupts_enabled == other.interrupts_enabled
    }

    /// Whether pending interrupts were serviced so, each by what it is for.
    pub open spec fn serviced(
        &self,
        fault: &FaultQueue,
        service: Service,
        trace: Seq<Exchange>,
        pending: u32,
    ) -> bool {
        &&& pending == service.ipsr % 16
        &&& if pending / 2 % 2 == 1 {
            self.fault.drained(
                fault,
                self.interrupts_enabled,
                service.drain,
                service.drain_trace,
            )
        } else {
            *fault == self.fault && service.drain_trace == Seq::<Exchange>::empty()
        }
        &&& trace == seq![port::r32(bits::REG_IPSR, service.ipsr)] + when(
            pending % 2 == 1,
            CommandQueue::interrupt_trace(service.command, self.interrupts_enabled),
        ) + service.drain_trace + when(
            pending / 4 % 2 == 1,
            performance_trace(service.overflow, service.counters),
        ) + when(pending / 8 % 2 == 1, request_trace(service.requests))
    }

    /// Services the interrupts that are pending.
    pub fn service_pending<F: FnMut(Access) -> u64>(&mut self, port: &mut Port<F>) -> (pending: u32)
        requires
            old(self).wf(),
            old(self).enabled,
            old(port).wf(),
        ensures
            final(self).wf(),
            final(port).wf(),
            final(port).performs() == old(port).performs(),
            final(self).same_but_queues(old(self)),
            final(self).command == old(self).command,
            port::grown(final(port).log(), old(port).log()),
            exists|service: Service| #[trigger]
                old(self).serviced(
                    &final(self).fault,
                    service,
                    port::since(final(port).log(), old(port).log()),
                    pending,
                ),
    {
        let ghost start = port.log();
        let ipsr: u32 = port.read32(bits::REG_IPSR);
        let pending: u32 = ipsr % 16;
        let ghost a = seq![port::r32(bits::REG_IPSR, ipsr)];
        assert(port.log() =~= start + a);
        let interrupts = self.interrupts_enabled;
        let command = self.service_command(port, pending % 2 == 1);
        let ghost b = when(pending % 2 == 1, CommandQueue::interrupt_trace(command@, interrupts));
        let ghost before_drain = port.log();
        let ghost mut drain: Drain = arbitrary();
        let ghost mut c: Seq<Exchange> = Seq::empty();
        if pending / 2 % 2 == 1 {
            self.fault.drain(port, interrupts);
            proof {
                c = port::since(port.log(), before_drain);
                drain = choose|drain: Drain| #[trigger]
                    old(self).fault.drained(&self.fault, interrupts, drain, c);
            }
        }
        assert(port.log() =~= before_drain + c);
        let counted = self.service_counters(port, pending / 4 % 2 == 1);
        let ghost d = when(pending / 4 % 2 == 1, performance_trace(counted@.0, counted@.1));
        let requests = self.service_requests(port, pending / 8 % 2 == 1);
        let ghost e = when(pending / 8 % 2 == 1, request_trace(requests@));
        proof {
            assert(port.log() == start + a + b + c + d + e);
            let trace = a + b + c + d + e;
            port::lemma_five(start, a, b, c, d, e);
            port::lemma_grown(start, trace);
            let service = Service {
                ipsr,
                command: command@,
                drain,
                drain_trace: c,
                overflow: counted@.0,
                counters: counted@.1,
                requests: requests@,
            };
            assert(old(self).serviced(&self.fault, service, trace, pending));
        }
        pending
    }

    fn service_command<F: FnMut(Access) -> u64>(&self, port: &mut Port<F>, there: bool) -> (status:
        Ghost<u32>)
        requires
            old(port).wf(),
        ensures
            final(port).wf(),
            final(port).performs() == old(port).performs(),
            final(port).log() == old(port).log() + when(
                there,
                CommandQueue::interrupt_trace(status@, self.interrupts_enabled),
            ),
    {
        let ghost start = port.log();
        if !there {
            assert(start + Seq::<Exchange>::empty() =~= start);
            return Ghost(0);
        }
        self.command.service_interrupt(port, self.interrupts_enabled);
        Ghost(
            choose|status: u32|
                port.log() == start + #[trigger] CommandQueue::interrupt_trace(
                    status,
                    self.interrupts_enabled,
                ),
        )
    }

    fn service_counters<F: FnMut(Access) -> u64>(&self, port: &mut Port<F>, there: bool) -> (seen:
        Ghost<(u32, Seq<u64>)>)
        requires
            old(port).wf(),
        ensures
            final(port).wf(),
            final(port).performs() == old(port).performs(),
            final(port).log() == old(port).log() + when(
                there,
                performance_trace(seen@.0, seen@.1),
            ),
    {
        let ghost start = port.log();
        if !there {
            assert(start + Seq::<Exchange>::empty() =~= start);
            return Ghost((0, Seq::empty()));
        }
        service_performance_interrupt(port);
        let ghost (overflow, values) = choose|overflow: u32, values: Seq<u64>|
            port.log() == start + #[trigger] performance_trace(overflow, values);
        Ghost((overflow, values))
    }

    fn service_requests<F: FnMut(Access) -> u64>(&self, port: &mut Port<F>, there: bool) -> (status:
        Ghost<u32>)
        requires
            old(port).wf(),
        ensures
            final(port).wf(),
            final(port).performs() == old(port).performs(),
            final(port).log() == old(port).log() + when(there, request_trace(status@)),
    {
        let ghost start = port.log();
        if !there {
            assert(start + Seq::<Exchange>::empty() =~= start);
            return Ghost(0);
        }
        service_page_request_interrupt(port);
        Ghost(choose|status: u32| port.log() == start + #[trigger] request_trace(status))
    }

    /// Whether commands were executed so: pushed in order with a fence behind
    /// them, waited for, and then what is pending serviced.
    pub open spec fn executed(
        &self,
        after: &ControllerState,
        commands: Seq<Command>,
        w: Execution,
        trace: Seq<Exchange>,
        result: Result<(), HardwareError>,
    ) -> bool {
        &&& after.same_but_queues(self)
        &&& if !self.enabled {
            &&& result == Err::<(), HardwareError>(HardwareError::Busy)
            &&& trace == Seq::<Exchange>::empty()
            &&& after.command == self.command
            &&& after.fault == self.fault
        } else {
            &&& all_pushed(
                self.command,
                w.queue,
                commands.push(Command { dword0: bits::CMD_IOFENCE_C, dword1: 0 }),
                w.runs,
                w.push_trace,
                w.pushed,
            )
            &&& after.command == w.queue
            &&& match w.pushed {
                Err(error) => result == Err::<(), HardwareError>(error) && trace == w.push_trace
                    && after.fault == self.fault,
                Ok(_) => {
                    &&& w.queue.idled(
                        w.idle_poll,
                        w.idle_ended,
                        w.idle_status,
                        w.idle_trace,
                        w.idle,
                    )
                    &&& match w.idle {
                        Err(error) => result == Err::<(), HardwareError>(error) && trace
                            == w.push_trace + w.idle_trace && after.fault == self.fault,
                        Ok(_) => {
                            &&& result is Ok
                            &&& trace == w.push_trace + w.idle_trace + w.service_trace
                            &&& self.serviced(
                                &after.fault,
                                w.service,
                                w.service_trace,
                                (w.service.ipsr % 16) as u32,
                            )
                        },
                    }
                },
            }
        }
    }

    /// Executes commands and waits for them.
    #[verifier::rlimit(60)]
    pub fn execute<F: FnMut(Access) -> u64>(&mut self, port: &mut Port<F>, commands: Vec<Command>) -> (result:
        Result<(), HardwareError>)
        requires
            old(self).wf(),
            old(port).wf(),
        ensures
            final(self).wf(),
            final(port).wf(),
            final(port).performs() == old(port).performs(),
            port::grown(final(port).log(), old(port).log()),
            exists|w: Execution| #[trigger]
                old(self).executed(
                    final(self),
                    commands@,
                    w,
                    port::since(final(port).log(), old(port).log()),
                    result,
                ),
    {
        let ghost start = port.log();
        let ghost mut w: Execution = arbitrary();
        if !self.enabled {
            proof {
                assert(start + Seq::<Exchange>::empty() =~= start);
                port::lemma_grown(start, Seq::empty());
                assert(old(self).executed(
                    self,
                    commands@,
                    w,
                    Seq::empty(),
                    Err(HardwareError::Busy),
                ));
            }
            return Err(HardwareError::Busy);
        }
        let mut all = commands;
        all.push(Command::iofence());
        let pushed = push_all(&mut self.command, port, &all);
        let ghost push_trace = port::since(port.log(), start);
        proof {
            let runs = choose|runs: Seq<PushRun>| #[trigger]
                all_pushed(old(self).command, self.command, all@, runs, push_trace, pushed);
            w = Execution { runs, pushed, push_trace, queue: self.command, ..w };
        }
        if let Err(error) = pushed {
            assert(old(self).executed(self, commands@, w, push_trace, Err(error)));
            return Err(error);
        }
        let ghost before = port.log();
        let idle = self.command.wait_idle(port);
        let ghost idle_trace = port::since(port.log(), before);
        proof {
            let (poll, ended, status) = choose|poll: Seq<Exchange>, ended: Option<u64>, status: u32|
                #[trigger] self.command.idled(poll, ended, status, idle_trace, idle);
            w = Execution {
                idle_poll: poll,
                idle_ended: ended,
                idle_status: status,
                idle,
                idle_trace,
                ..w
            };
            assert(port.log() =~= start + (push_trace + idle_trace));
            port::lemma_grown(start, push_trace + idle_trace);
        }
        if let Err(error) = idle {
            assert(old(self).executed(
                self,
                commands@,
                w,
                push_trace + idle_trace,
                Err(error),
            ));
            return Err(error);
        }
        let ghost idled = port.log();
        let ghost mid = *self;
        let pending: u32 = self.service_pending(port);
        proof {
            let service_trace = port::since(port.log(), idled);
            let service = choose|service: Service| #[trigger]
                mid.serviced(&self.fault, service, service_trace, pending);
            assert(old(self).serviced(&self.fault, service, service_trace, pending));
            w = Execution { service, service_trace, ..w };
            let trace = push_trace + idle_trace + service_trace;
            assert(port.log() =~= start + trace);
            port::lemma_grown(start, trace);
            assert(old(self).executed(self, commands@, w, trace, Ok(())));
        }
        Ok(())
    }

    /// Switches the interrupts of both queues on or off.
    pub fn set_interrupts_enabled<F: FnMut(Access) -> u64>(
        &mut self,
        port: &mut Port<F>,
        enabled: bool,
    )
        requires
            old(self).wf(),
            old(port).wf(),
        ensures
            final(self).wf(),
            final(port).wf(),
            final(port).performs() == old(port).performs(),
            *final(self) == (ControllerState { interrupts_enabled: enabled, ..*old(self) }),
            final(port).log() == old(port).log() + switch_trace(enabled),
    {
        let ghost start = port.log();
        self.command.set_interrupt_enabled(port, enabled);
        self.fault.set_interrupt_enabled(port, enabled);
        self.interrupts_enabled = enabled;
        assert(port.log() =~= start + switch_trace(enabled));
    }

    /// Whether the queues were stopped so, after the last faults were taken. A queue
    /// that does not stop keeps its page for good.
    pub open spec fn queues_stopped(
        &self,
        after: &ControllerState,
        w: Stop,
        trace: Seq<Exchange>,
    ) -> bool {
        &&& exists|drained: FaultQueue| #[trigger]
            self.fault.drained(&drained, false, w.drain, w.drain_trace) && after.fault == (
            FaultQueue {
                memory: if w.fault_ended is Some {
                    drained.memory
                } else {
                    None
                },
                ..drained
            })
        &&& queue::stopping(
            bits::REG_FQCSR,
            w.fault_poll,
            w.fault_ended,
            w.fault_trace,
            w.fault_ended is Some,
        )
        &&& queue::stopping(
            bits::REG_CQCSR,
            w.command_poll,
            w.command_ended,
            w.command_trace,
            w.command_ended is Some,
        )
        &&& after.command == (CommandQueue {
            memory: if w.command_ended is Some {
                self.command.memory
            } else {
                None
            },
            ..self.command
        })
        &&& trace == w.drain_trace + w.fault_trace + w.command_trace + queue::put32(
            bits::REG_IPSR,
            bits::IPSR_ALL,
        )
    }

    fn stop_queues<F: FnMut(Access) -> u64>(&mut self, port: &mut Port<F>) -> (stopped: bool)
        requires
            old(self).wf(),
            old(self).enabled,
            old(port).wf(),
        ensures
            final(self).wf(),
            final(port).wf(),
            final(port).performs() == old(port).performs(),
            port::grown(final(port).log(), old(port).log()),
            final(self).directory == old(self).directory,
            final(self).attached == old(self).attached,
            final(self).interrupts_enabled == old(self).interrupts_enabled,
            !final(self).enabled,
            exists|w: Stop| #[trigger]
                old(self).queues_stopped(
                    final(self),
                    w,
                    port::since(final(port).log(), old(port).log()),
                ) && stopped == (w.fault_ended is Some && w.command_ended is Some),
    {
        let ghost start = port.log();
        self.fault.drain(port, false);
        let ghost drained = self.fault;
        let ghost drain_trace = port::since(port.log(), start);
        let ghost drain = choose|drain: Drain| #[trigger]
            old(self).fault.drained(&drained, false, drain, drain_trace);
        let ghost before_fault = port.log();
        let fault_stopped = self.fault.stop_or_leak(port);
        let ghost fault_trace = port::since(port.log(), before_fault);
        let ghost (fault_poll, fault_ended) = choose|poll: Seq<Exchange>, ended: Option<u64>|
            #[trigger] queue::stopping(bits::REG_FQCSR, poll, ended, fault_trace, fault_stopped);
        let ghost before_command = port.log();
        let command_stopped = self.command.stop_or_leak(port);
        let ghost command_trace = port::since(port.log(), before_command);
        let ghost (command_poll, command_ended) = choose|poll: Seq<Exchange>, ended: Option<u64>|
            #[trigger] queue::stopping(
                bits::REG_CQCSR,
                poll,
                ended,
                command_trace,
                command_stopped,
            );
        write_register32(port, bits::REG_IPSR, bits::IPSR_ALL);
        self.enabled = false;
        proof {
            let w = Stop {
                off_poll: Seq::empty(),
                off_ended: None,
                drain,
                drain_trace,
                fault_poll,
                fault_ended,
                fault_trace,
                command_poll,
                command_ended,
                command_trace,
            };
            let last = queue::put32(bits::REG_IPSR, bits::IPSR_ALL);
            let trace = drain_trace + fault_trace + command_trace + last;
            assert(port.log() == start + drain_trace + fault_trace + command_trace + last);
            assert(port.log() =~= start + trace);
            port::lemma_grown(start, trace);
            assert(fault_stopped == fault_ended is Some);
            assert(command_stopped == command_ended is Some);
            assert(old(self).fault.drained(&drained, false, w.drain, w.drain_trace));
            assert(old(self).queues_stopped(self, w, trace));
        }
        fault_stopped && command_stopped
    }

    /// Whether the unit was stopped so: no interrupts, no directory, the last
    /// faults, no queues. What does not stop keeps its pages for good.
    pub open spec fn stopped(
        &self,
        after: &ControllerState,
        w: Stop,
        queues: Seq<Exchange>,
        trace: Seq<Exchange>,
        result: bool,
    ) -> bool {
        &&& directory_off().done(w.off_poll, w.off_ended)
        &&& self.queues_stopped(after, w, queues)
        &&& after.directory == (DeviceDirectory {
            leaked: self.directory.leaked || w.off_ended is None,
            ..self.directory
        })
        &&& after.attached == self.attached
        &&& !after.enabled
        &&& !after.interrupts_enabled
        &&& result == (w.off_ended is Some && w.fault_ended is Some && w.command_ended is Some)
        &&& trace == switch_trace(false) + queue::put64(bits::REG_DDTP, 0) + w.off_poll + queues
    }

    /// Stops the unit.
    pub fn stop<F: FnMut(Access) -> u64>(&mut self, port: &mut Port<F>) -> (result: bool)
        requires
            old(self).wf(),
            old(self).enabled,
            old(port).wf(),
        ensures
            final(self).wf(),
            final(port).wf(),
            final(port).performs() == old(port).performs(),
            port::grown(final(port).log(), old(port).log()),
            exists|w: Stop, queues: Seq<Exchange>| #[trigger]
                old(self).stopped(
                    final(self),
                    w,
                    queues,
                    port::since(final(port).log(), old(port).log()),
                    result,
                ),
    {
        let ghost start = port.log();
        self.set_interrupts_enabled(port, false);
        write_register64(port, bits::REG_DDTP, 0);
        let ghost a = switch_trace(false) + queue::put64(bits::REG_DDTP, 0);
        assert(port.log() =~= start + a);
        let ghost before_off = port.log();
        let off = wait_register(port, bits::REG_DDTP, true, PollTest::clear(0x1f));
        let ghost off_poll = port::since(port.log(), before_off);
        let ghost before_queues = port.log();
        let ghost mid = *self;
        let queues_stopped = self.stop_queues(port);
        let ghost queues = port::since(port.log(), before_queues);
        let ghost stopped = choose|w: Stop| #[trigger]
            mid.queues_stopped(self, w, queues) && queues_stopped == (w.fault_ended is Some
                && w.command_ended is Some);
        if off.is_none() {
            self.directory.leaked = true;
        }
        proof {
            let w = Stop { off_poll, off_ended: off, ..stopped };
            let trace = a + off_poll + queues;
            assert(port.log() =~= start + trace);
            port::lemma_grown(start, trace);
            let drained = choose|drained: FaultQueue| #[trigger]
                mid.fault.drained(&drained, false, stopped.drain, stopped.drain_trace)
                    && self.fault == (FaultQueue {
                    memory: if stopped.fault_ended is Some {
                        drained.memory
                    } else {
                        None
                    },
                    ..drained
                });
            assert(old(self).fault.drained(&drained, false, w.drain, w.drain_trace));
            assert(old(self).queues_stopped(self, w, queues));
            assert(directory_off().done(off_poll, off));
            assert(old(self).stopped(self, w, queues, trace, off is Some && queues_stopped));
        }
        off.is_some() && queues_stopped
    }

    /// The accesses that give back what the state has in shared memory.
    pub open spec fn drop_trace(&self) -> Seq<Exchange> {
        page_drop(self.command.memory) + page_drop(self.fault.memory)
            + self.directory.drop_trace()
    }

    /// Gives back what the state has in shared memory; what was given up stays.
    pub fn release<F: FnMut(Access) -> u64>(self, port: &mut Port<F>)
        requires
            old(port).wf(),
        ensures
            final(port).wf(),
            final(port).performs() == old(port).performs(),
            final(port).log() == old(port).log() + self.drop_trace(),
    {
        let ghost start = port.log();
        drop_page(port, self.command.memory);
        drop_page(port, self.fault.memory);
        self.directory.release(port);
        assert(port.log() =~= start + self.drop_trace());
    }
}

/// The accesses that switch the interrupts of both queues.
pub open spec fn switch_trace(enabled: bool) -> Seq<Exchange> {
    queue::put32(bits::REG_CQCSR, queue::enabled_value(enabled)) + queue::put32(
        bits::REG_FQCSR,
        queue::enabled_value(enabled),
    )
}

/// The access that gives a page back, if there is one.
pub open spec fn page_drop(page: Option<u64>) -> Seq<Exchange> {
    match page {
        Some(address) => seq![port::released(address)],
        None => Seq::empty(),
    }
}

pub fn drop_page<F: FnMut(Access) -> u64>(port: &mut Port<F>, page: Option<u64>)
    requires
        old(port).wf(),
    ensures
        final(port).wf(),
        final(port).performs() == old(port).performs(),
        final(port).log() == old(port).log() + page_drop(page),
{
    let ghost start = port.log();
    if let Some(address) = page {
        port.release_page(address);
    }
    assert(port.log() =~= start + page_drop(page));
}

} // verus!
