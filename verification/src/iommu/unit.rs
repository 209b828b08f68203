//! Bringing the unit up, and attaching devices to it.

use vstd::prelude::*;
use crate::iommu::bits;
use crate::iommu::bits::{
    Command, capability_version_supported, interrupt_vector_layout, interrupt_vector_layout_valid,
};
use crate::iommu::controller;
use crate::iommu::controller::{ControllerState, Execution, Service, Stop, drop_page};
use crate::iommu::directory::DeviceDirectory;
use crate::iommu::page_table::{PageTable, PageTableError};
use crate::iommu::queue;
use crate::iommu::queue::{
    CommandQueue, Drain, FaultQueue, HardwareError, QueueStart, wait_register, write_register32,
    write_register64,
};
use crate::iommu::radix;
use crate::port;
use crate::port::{Access, Exchange, NO_PAGE, PollTest, Port};

verus! {

/// Why a device is not attached.
#[derive(Clone, Copy, Debug, PartialEq, Eq, Structural)]
pub enum IommuError {
    OutOfMemory,
    Busy,
    InvalidSpecifier,
    Unsupported,
    HardwareFailure,
    AlreadyRegistered,
}

pub open spec fn iommu_fault(error: HardwareError) -> IommuError {
    match error {
        HardwareError::OutOfMemory => IommuError::OutOfMemory,
        HardwareError::Busy => IommuError::Busy,
        HardwareError::Invalid => IommuError::InvalidSpecifier,
        HardwareError::Unsupported => IommuError::Unsupported,
        _ => IommuError::HardwareFailure,
    }
}

pub fn map_hardware_iommu_error(error: HardwareError) -> (fault: IommuError)
    ensures
        fault == iommu_fault(error),
{
    match error {
        HardwareError::OutOfMemory => IommuError::OutOfMemory,
        HardwareError::Busy => IommuError::Busy,
        HardwareError::Invalid => IommuError::InvalidSpecifier,
        HardwareError::Unsupported => IommuError::Unsupported,
        _ => IommuError::HardwareFailure,
    }
}

pub open spec fn table_fault(error: PageTableError) -> IommuError {
    match error {
        PageTableError::OutOfMemory => IommuError::OutOfMemory,
        PageTableError::Invalid => IommuError::Unsupported,
        _ => IommuError::HardwareFailure,
    }
}

pub fn map_page_table_iommu_error(error: PageTableError) -> (fault: IommuError)
    ensures
        fault == table_fault(error),
{
    match error {
        PageTableError::OutOfMemory => IommuError::OutOfMemory,
        PageTableError::Invalid => IommuError::Unsupported,
        _ => IommuError::HardwareFailure,
    }
}

/// Whether a window can hold the registers.
pub fn registers_valid(base: usize, size: usize) -> (valid: bool)
    ensures
        valid == (base != 0 && size >= bits::REG_SIZE && base % 8 == 0),
{
    base != 0 && size >= bits::REG_SIZE && base % 8 == 0
}

/// What the unit can do.
#[derive(Clone, Copy, PartialEq, Eq, Structural, Debug)]
pub struct Features {
    pub capabilities: u64,
    pub translation_mode: u8,
    pub pas: u8,
}

/// The largest mode of translation that the unit has.
pub open spec fn mode_of(capabilities: u64) -> Option<u8> {
    if capabilities / bits::CAP_SV57 % 2 == 1 {
        Some(10)
    } else if capabilities / bits::CAP_SV48 % 2 == 1 {
        Some(9)
    } else if capabilities / bits::CAP_SV39 % 2 == 1 {
        Some(8)
    } else {
        None
    }
}

/// How many bits its physical addresses have.
pub open spec fn pas_of(capabilities: u64) -> u8 {
    (capabilities / 0x1_0000_0000 % 64) as u8
}

/// How it raises interrupts.
pub open spec fn igs_of(capabilities: u64) -> u8 {
    (capabilities / 0x1000_0000 % 4) as u8
}

/// How the features were read.
pub ghost struct FeatureRun {
    pub cap: u64,
    pub fctl: u32,
    pub fctl_after: u32,
    pub poll: Seq<Exchange>,
    pub ended: Option<u64>,
}

/// Whether the features were read so. A unit of another version, without a mode of
/// translation, with short addresses, that stays big-endian or has no known way to
/// raise interrupts is not supported; one that is in use already is busy.
pub open spec fn features_read(
    w: FeatureRun,
    trace: Seq<Exchange>,
    result: Result<Features, HardwareError>,
) -> bool {
    let read = seq![port::r64(bits::REG_CAP, w.cap)];
    let unsupported = Err::<Features, HardwareError>(HardwareError::Unsupported);
    if w.cap / 16 % 16 != bits::CAP_SUPPORTED_MAJOR || mode_of(w.cap) is None || pas_of(w.cap)
        < 32 {
        trace == read && result == unsupported
    } else {
        let big = w.fctl % 2 == 1;
        let ordered = read + seq![port::r32(bits::REG_FCTL, w.fctl)] + controller::when(
            big,
            queue::put32(bits::REG_FCTL, (w.fctl - 1) as u32) + seq![
                port::r32(bits::REG_FCTL, w.fctl_after),
            ],
        );
        if big && w.fctl_after % 2 == 1 || igs_of(w.cap) == 3 {
            trace == ordered && result == unsupported
        } else {
            &&& queue::watch(bits::REG_DDTP, true, queue::all_clear(bits::DDTP_BUSY)).done(
                w.poll,
                w.ended,
            )
            &&& trace == ordered + w.poll
            &&& match w.ended {
                None => result == Err::<Features, HardwareError>(HardwareError::Timeout),
                Some(ddtp) => if ddtp % 16 > bits::DDTP_MODE_BARE {
                    result == Err::<Features, HardwareError>(HardwareError::Busy)
                } else {
                    result == Ok::<Features, HardwareError>(
                        Features {
                            capabilities: w.cap,
                            translation_mode: mode_of(w.cap)->0,
                            pas: pas_of(w.cap),
                        },
                    )
                },
            }
        }
    }
}

/// Reads what the unit can do.
pub fn read_features<F: FnMut(Access) -> u64>(port: &mut Port<F>) -> (result: Result<
    Features,
    HardwareError,
>)
    requires
        old(port).wf(),
    ensures
        final(port).wf(),
        final(port).performs() == old(port).performs(),
        port::grown(final(port).log(), old(port).log()),
        exists|w: FeatureRun| #[trigger]
            features_read(w, port::since(final(port).log(), old(port).log()), result),
        result matches Ok(features) ==> 8 <= features.translation_mode <= 10 && features.pas >= 32,
{
    let ghost start = port.log();
    let ghost mut w: FeatureRun = arbitrary();
    let cap: u64 = port.read64(bits::REG_CAP);
    let ghost read = seq![port::r64(bits::REG_CAP, cap)];
    proof {
        w = FeatureRun { cap, ..w };
        assert(port.log() =~= start + read);
        port::lemma_grown(start, read);
    }
    let supported = capability_version_supported(cap);
    let mode: u8 = if cap / bits::CAP_SV57 % 2 == 1 {
        10
    } else if cap / bits::CAP_SV48 % 2 == 1 {
        9
    } else if cap / bits::CAP_SV39 % 2 == 1 {
        8
    } else {
        0
    };
    let pas: u8 = (cap / 0x1_0000_0000 % 64) as u8;
    if !supported || mode == 0 || pas < 32 {
        assert(features_read(w, read, Err(HardwareError::Unsupported)));
        return Err(HardwareError::Unsupported);
    }
    let fctl: u32 = port.read32(bits::REG_FCTL);
    let big = fctl % 2 == 1;
    let mut fctl_after: u32 = 0;
    if big {
        write_register32(port, bits::REG_FCTL, fctl - 1);
        fctl_after = port.read32(bits::REG_FCTL);
    }
    let ghost ordered = read + seq![port::r32(bits::REG_FCTL, fctl)] + controller::when(
        big,
        queue::put32(bits::REG_FCTL, (fctl - 1) as u32) + seq![
            port::r32(bits::REG_FCTL, fctl_after),
        ],
    );
    proof {
        w = FeatureRun { fctl, fctl_after, ..w };
        assert(port.log() =~= start + ordered);
        port::lemma_grown(start, ordered);
    }
    let igs: u8 = (cap / 0x1000_0000 % 4) as u8;
    if big && fctl_after % 2 == 1 || igs == 3 {
        assert(features_read(w, ordered, Err(HardwareError::Unsupported)));
        return Err(HardwareError::Unsupported);
    }
    let ghost before = port.log();
    let ended = wait_register(port, bits::REG_DDTP, true, PollTest::clear(bits::DDTP_BUSY));
    proof {
        let poll = port::since(port.log(), before);
        w = FeatureRun { poll, ended, ..w };
        assert(port.log() =~= start + (ordered + poll));
        port::lemma_grown(start, ordered + poll);
    }
    match ended {
        None => {
            assert(features_read(
                w,
                port::since(port.log(), start),
                Err(HardwareError::Timeout),
            ));
            Err(HardwareError::Timeout)
        },
        Some(ddtp) => {
            if ddtp % 16 > bits::DDTP_MODE_BARE as u64 {
                assert(features_read(
                    w,
                    port::since(port.log(), start),
                    Err(HardwareError::Busy),
                ));
                return Err(HardwareError::Busy);
            }
            let features = Features { capabilities: cap, translation_mode: mode, pas };
            assert(features_read(w, port::since(port.log(), start), Ok(features)));
            Ok(features)
        },
    }
}

/// Whether the directory was opened so: its root is a page that the unit can
/// address.
pub open spec fn directory_opened(
    features: Features,
    reply: u64,
    trace: Seq<Exchange>,
    result: Result<DeviceDirectory, HardwareError>,
) -> bool {
    let asked = seq![port::allocated(reply)];
    if reply == NO_PAGE {
        trace == asked && result == Err::<DeviceDirectory, HardwareError>(
            HardwareError::OutOfMemory,
        )
    } else if reply % 4096 != 0 || !radix::reachable(features.pas, reply) {
        trace == asked + seq![port::released(reply)] && result == Err::<
            DeviceDirectory,
            HardwareError,
        >(HardwareError::Invalid)
    } else {
        &&& trace == asked
        &&& result matches Ok(directory) && directory.wf() && directory.extended == (
        features.capabilities / bits::CAP_MSI_FLAT % 2 == 1) && directory.mode
            == bits::DDTP_MODE_OFF && !directory.leaked && directory.table.pas == features.pas
            && directory@ == seq![radix::empty_page(reply)]
    }
}

pub fn open_directory<F: FnMut(Access) -> u64>(port: &mut Port<F>, features: Features) -> (result:
    Result<DeviceDirectory, HardwareError>)
    requires
        old(port).wf(),
    ensures
        final(port).wf(),
        final(port).performs() == old(port).performs(),
        port::grown(final(port).log(), old(port).log()),
        exists|reply: u64| #[trigger]
            directory_opened(
                features,
                reply,
                port::since(final(port).log(), old(port).log()),
                result,
            ),
{
    let ghost start = port.log();
    let opened = DeviceDirectory::new(
        port,
        features.capabilities / bits::CAP_MSI_FLAT % 2 == 1,
        features.pas,
    );
    let ghost reply = choose|reply: u64|
        port.log() == start.push(#[trigger] port::allocated(reply)) && (if reply == NO_PAGE {
            opened == Err::<DeviceDirectory, HardwareError>(HardwareError::OutOfMemory)
        } else {
            opened matches Ok(directory) && directory@ == seq![radix::empty_page(reply)]
        });
    let ghost asked = seq![port::allocated(reply)];
    proof {
        assert(port.log() =~= start + asked);
        port::lemma_grown(start, asked);
    }
    let directory = match opened {
        Ok(directory) => directory,
        Err(error) => {
            assert(directory_opened(features, reply, asked, Err(error)));
            return Err(error);
        },
    };
    let root: u64 = directory.root_paddr();
    if root % 4096 != 0 || !directory.physical_valid(root) {
        directory.release(port);
        proof {
            let trace = asked + seq![port::released(reply)];
            assert(radix::release_trace(directory@) =~= seq![port::released(reply)]);
            assert(port.log() =~= start + trace);
            port::lemma_grown(start, trace);
            assert(directory_opened(features, reply, trace, Err(HardwareError::Invalid)));
        }
        return Err(HardwareError::Invalid);
    }
    assert(directory_opened(features, reply, asked, Ok(directory)));
    Ok(directory)
}

/// How the queues were opened.
pub ghost struct QueuesRun {
    pub command_start: QueueStart,
    pub command: Result<(u64, u32), HardwareError>,
    pub command_trace: Seq<Exchange>,
    pub fault_start: QueueStart,
    pub fault: Result<(u64, u32), HardwareError>,
    pub fault_trace: Seq<Exchange>,
    pub poll: Seq<Exchange>,
    pub ended: Option<u64>,
    pub fault_stop: (Seq<Exchange>, Option<u64>, Seq<Exchange>),
    pub command_stop: (Seq<Exchange>, Option<u64>, Seq<Exchange>),
}

/// The page of a queue that is dropped, unless the queue did not stop.
pub open spec fn dropped(memory: u64, ended: Option<u64>) -> Seq<Exchange> {
    if ended is Some {
        seq![port::released(memory)]
    } else {
        Seq::empty()
    }
}

/// Whether the queues were opened so: that of commands, that of faults, and that of
/// page requests switched off. What was opened before something fails is stopped
/// and dropped.
pub open spec fn queues_opened(
    w: QueuesRun,
    trace: Seq<Exchange>,
    result: Result<(CommandQueue, FaultQueue), HardwareError>,
) -> bool {
    let stop_command = queue::stopping(
        bits::REG_CQCSR,
        w.command_stop.0,
        w.command_stop.1,
        w.command_stop.2,
        w.command_stop.1 is Some,
    );
    let stop_fault = queue::stopping(
        bits::REG_FQCSR,
        w.fault_stop.0,
        w.fault_stop.1,
        w.fault_stop.2,
        w.fault_stop.1 is Some,
    );
    &&& queue::started(
        w.command_start,
        CommandQueue::registers(),
        queue::CQ_ENABLE,
        w.command_trace,
        w.command,
    )
    &&& match w.command {
        Err(error) => trace == w.command_trace && result == Err::<
            (CommandQueue, FaultQueue),
            HardwareError,
        >(error),
        Ok((command, command_mask)) => {
            &&& queue::started(
                w.fault_start,
                FaultQueue::registers(),
                queue::FQ_ENABLE,
                w.fault_trace,
                w.fault,
            )
            &&& match w.fault {
                Err(error) => {
                    &&& stop_command
                    &&& trace == w.command_trace + w.fault_trace + w.command_stop.2 + dropped(
                        command,
                        w.command_stop.1,
                    )
                    &&& result == Err::<(CommandQueue, FaultQueue), HardwareError>(error)
                },
                Ok((fault, fault_mask)) => {
                    let quiet = w.command_trace + w.fault_trace + queue::put32(
                        bits::REG_PQCSR,
                        0,
                    ) + w.poll;
                    &&& queue::watch(
                        bits::REG_PQCSR,
                        false,
                        queue::all_clear((bits::QUEUE_ACTIVE + bits::QUEUE_BUSY) as u64),
                    ).done(w.poll, w.ended)
                    &&& if w.ended is Some {
                        &&& trace == quiet + queue::put32(bits::REG_IPSR, bits::IPSR_ALL)
                        &&& result matches Ok((cq, fq)) && cq == (CommandQueue {
                            memory: Some(command),
                            tail: 0,
                            mask: command_mask,
                        }) && fq.memory == Some(fault) && fq.head == 0 && fq.mask == fault_mask
                            && fq.reports@.len() == 0
                    } else {
                        &&& stop_fault
                        &&& stop_command
                        &&& trace == quiet + (w.fault_stop.2 + w.command_stop.2 + dropped(
                            fault,
                            w.fault_stop.1,
                        ) + dropped(command, w.command_stop.1))
                        &&& result == Err::<(CommandQueue, FaultQueue), HardwareError>(
                            HardwareError::Timeout,
                        )
                    }
                },
            }
        },
    }
}

/// Stops a queue of commands and drops it.
fn discard_command<F: FnMut(Access) -> u64>(port: &mut Port<F>, queue: CommandQueue, memory: u64) -> (run:
    Ghost<(Seq<Exchange>, Option<u64>, Seq<Exchange>)>)
    requires
        queue.wf(),
        queue.memory == Some(memory),
        old(port).wf(),
    ensures
        final(port).wf(),
        final(port).performs() == old(port).performs(),
        queue::stopping(bits::REG_CQCSR, run@.0, run@.1, run@.2, run@.1 is Some),
        final(port).log() == old(port).log() + run@.2 + dropped(memory, run@.1),
{
    let ghost start = port.log();
    let mut queue = queue;
    let stopped = queue.stop_or_leak(port);
    let ghost trace = port::since(port.log(), start);
    let ghost (poll, ended) = choose|poll: Seq<Exchange>, ended: Option<u64>| #[trigger]
        queue::stopping(bits::REG_CQCSR, poll, ended, trace, stopped);
    assert(stopped == ended is Some);
    drop_page(port, queue.memory);
    assert(port.log() =~= start + trace + dropped(memory, ended));
    Ghost((poll, ended, trace))
}

/// Opens the queues.
#[verifier::rlimit(40)]
pub fn open_queues<F: FnMut(Access) -> u64>(port: &mut Port<F>) -> (result: Result<
    (CommandQueue, FaultQueue),
    HardwareError,
>)
    requires
        old(port).wf(),
    ensures
        final(port).wf(),
        final(port).performs() == old(port).performs(),
        port::grown(final(port).log(), old(port).log()),
        exists|w: QueuesRun| #[trigger]
            queues_opened(w, port::since(final(port).log(), old(port).log()), result),
        result matches Ok((command, fault)) ==> command.wf() && fault.wf() && command.memory is Some
            && fault.memory is Some,
{
    let ghost start = port.log();
    let ghost mut w: QueuesRun = arbitrary();
    let command_result = CommandQueue::new(port);
    let ghost a = port::since(port.log(), start);
    proof {
        let (command_start, command) = choose|
            command_start: QueueStart,
            command: Result<(u64, u32), HardwareError>,
        | #[trigger]
            queue::started(
                command_start,
                CommandQueue::registers(),
                queue::CQ_ENABLE,
                a,
                command,
            ) && match command {
                Ok((memory, mask)) => command_result == Ok::<CommandQueue, HardwareError>(
                    CommandQueue { memory: Some(memory), tail: 0, mask },
                ),
                Err(error) => command_result == Err::<CommandQueue, HardwareError>(error),
            };
        w = QueuesRun { command_start, command, command_trace: a, ..w };
    }
    let command = match command_result {
        Ok(command) => command,
        Err(error) => {
            assert(queues_opened(w, a, Err(error)));
            return Err(error);
        },
    };
    let memory: u64 = match command.memory {
        Some(memory) => memory,
        None => 0,
    };
    let ghost before_fault = port.log();
    let fault_result = FaultQueue::new(port);
    let ghost b = port::since(port.log(), before_fault);
    proof {
        let (fault_start, fault) = choose|
            fault_start: QueueStart,
            fault: Result<(u64, u32), HardwareError>,
        | #[trigger]
            queue::started(fault_start, FaultQueue::registers(), queue::FQ_ENABLE, b, fault)
                && match fault {
                Ok((memory, mask)) => fault_result matches Ok(queue) && queue.memory == Some(memory)
                    && queue.head == 0 && queue.mask == mask && queue.reports@.len() == 0,
                Err(error) => fault_result == Err::<FaultQueue, HardwareError>(error),
            };
        w = QueuesRun { fault_start, fault, fault_trace: b, ..w };
        assert(port.log() == start + a + b);
    }
    let mut fault = match fault_result {
        Ok(fault) => fault,
        Err(error) => {
            let stop = discard_command(port, command, memory);
            proof {
                w = QueuesRun { command_stop: stop@, ..w };
                let trace = a + b + stop@.2 + dropped(memory, stop@.1);
                port::lemma_four(start, a, b, stop@.2, dropped(memory, stop@.1));
                port::lemma_grown(start, trace);
                assert(queues_opened(w, trace, Err(error)));
            }
            return Err(error);
        },
    };
    write_register32(port, bits::REG_PQCSR, 0);
    let ghost c = queue::put32(bits::REG_PQCSR, 0);
    let ghost before_poll = port.log();
    let ended = wait_register(
        port,
        bits::REG_PQCSR,
        false,
        PollTest::clear((bits::QUEUE_ACTIVE + bits::QUEUE_BUSY) as u64),
    );
    let ghost d = port::since(port.log(), before_poll);
    let ghost quiet = a + b + c + d;
    proof {
        w = QueuesRun { poll: d, ended, ..w };
        port::lemma_four(start, a, b, c, d);
        assert(port.log() == start + quiet);
    }
    if ended.is_none() {
        let ghost fault_memory = fault.memory->0;
        let ghost before_stop = port.log();
        let fault_stopped = fault.stop_or_leak(port);
        let ghost e = port::since(port.log(), before_stop);
        let ghost (poll, stop_ended) = choose|poll: Seq<Exchange>, stop_ended: Option<u64>|
            #[trigger] queue::stopping(bits::REG_FQCSR, poll, stop_ended, e, fault_stopped);
        assert(fault_stopped == stop_ended is Some);
        let mut command = command;
        let ghost before_command = port.log();
        let command_stopped = command.stop_or_leak(port);
        let ghost f = port::since(port.log(), before_command);
        let ghost (command_poll, command_ended) = choose|
            command_poll: Seq<Exchange>,
            command_ended: Option<u64>,
        | #[trigger]
            queue::stopping(bits::REG_CQCSR, command_poll, command_ended, f, command_stopped);
        assert(command_stopped == command_ended is Some);
        drop_page(port, fault.memory);
        drop_page(port, command.memory);
        proof {
            w = QueuesRun {
                fault_stop: (poll, stop_ended, e),
                command_stop: (command_poll, command_ended, f),
                ..w
            };
            let g = dropped(fault_memory, stop_ended);
            let h = dropped(memory, command_ended);
            assert(controller::page_drop(fault.memory) =~= g);
            assert(controller::page_drop(command.memory) =~= h);
            port::lemma_four(start + quiet, e, f, g, h);
            let trace = quiet + (e + f + g + h);
            assert(port.log() =~= start + trace);
            port::lemma_grown(start, trace);
            assert(queues_opened(w, trace, Err(HardwareError::Timeout)));
        }
        return Err(HardwareError::Timeout);
    }
    write_register32(port, bits::REG_IPSR, bits::IPSR_ALL);
    proof {
        let trace = quiet + queue::put32(bits::REG_IPSR, bits::IPSR_ALL);
        assert(port.log() =~= start + trace);
        port::lemma_grown(start, trace);
        assert(queues_opened(w, trace, Ok((command, fault))));
    }
    Ok((command, fault))
}

/// One try to enable the directory.
pub ghost struct EnableRound {
    pub poll: Seq<Exchange>,
    pub ended: Option<u64>,
}

/// The directory register for a root and a mode.
pub open spec fn ddtp(root: u64, mode: int) -> u64 {
    (bits::ppn(root as int) + mode) as u64
}

/// The mode of the try with a number: the most levels come first.
pub open spec fn tried_mode(round: int) -> int {
    4 - round
}

/// The accesses of some tries.
pub open spec fn tries_trace(root: u64, rounds: Seq<EnableRound>) -> Seq<Exchange>
    decreases rounds.len(),
{
    if rounds.len() == 0 {
        Seq::empty()
    } else {
        tries_trace(root, rounds.drop_last()) + (queue::put64(
            bits::REG_DDTP,
            ddtp(root, tried_mode(rounds.len() - 1)),
        ) + rounds.last().poll)
    }
}

/// Whether the unit took the directory, perhaps with fewer levels.
pub open spec fn accepted(readback: u64, value: u64) -> bool {
    &&& 2 <= readback % 16 <= 4
    &&& readback / 1024 % 0x1000_0000_0000 == value / 1024 % 0x1000_0000_0000
}

/// Whether a try was a poll of the register.
pub open spec fn try_polled(round: EnableRound) -> bool {
    queue::watch(bits::REG_DDTP, true, queue::all_clear(bits::DDTP_BUSY)).done(
        round.poll,
        round.ended,
    )
}

/// Whether a try was neither taken nor wrong, so that the next one is made.
pub open spec fn try_declined(root: u64, round: int, run: EnableRound) -> bool {
    &&& try_polled(run)
    &&& run.ended matches Some(value) && value % 16 <= bits::DDTP_MODE_BARE
}

/// Whether the directory was enabled so.
pub open spec fn directory_enabled(
    root: u64,
    rounds: Seq<EnableRound>,
    trace: Seq<Exchange>,
    result: Result<u8, HardwareError>,
) -> bool {
    let last = rounds.len() - 1;
    &&& 1 <= rounds.len() <= 3
    &&& trace == tries_trace(root, rounds)
    &&& forall|i: int| 0 <= i < last ==> try_declined(root, i, #[trigger] rounds[i])
    &&& try_polled(rounds[last])
    &&& match rounds[last].ended {
        None => result == Err::<u8, HardwareError>(HardwareError::Timeout),
        Some(value) => if accepted(value, ddtp(root, tried_mode(last))) {
            result == Ok::<u8, HardwareError>((value % 16) as u8)
        } else if value % 16 > bits::DDTP_MODE_BARE {
            result == Err::<u8, HardwareError>(HardwareError::Directory)
        } else {
            rounds.len() == 3 && result == Err::<u8, HardwareError>(HardwareError::Unsupported)
        },
    }
}

/// Enables the directory with as many levels as the unit takes.
pub fn enable_directory<F: FnMut(Access) -> u64>(port: &mut Port<F>, root: u64) -> (result: Result<
    u8,
    HardwareError,
>)
    requires
        old(port).wf(),
    ensures
        final(port).wf(),
        final(port).performs() == old(port).performs(),
        port::grown(final(port).log(), old(port).log()),
        exists|rounds: Seq<EnableRound>| #[trigger]
            directory_enabled(
                root,
                rounds,
                port::since(final(port).log(), old(port).log()),
                result,
            ),
        result matches Ok(mode) ==> 2 <= mode <= 4,
{
    let ghost start = port.log();
    let ghost mut rounds: Seq<EnableRound> = Seq::empty();
    let mut requested: u64 = 4;
    assert(start + tries_trace(root, rounds) =~= start);
    while requested >= 2
        invariant
            2 <= requested <= 4,
            rounds.len() == 4 - requested,
            port.wf(),
            port.performs() == old(port).performs(),
            start == old(port).log(),
            port.log() == start + tries_trace(root, rounds),
            forall|i: int| 0 <= i < rounds.len() ==> try_declined(root, i, #[trigger] rounds[i]),
        decreases requested,
    {
        let ghost earlier = rounds;
        let value: u64 = root / 4096 * 1024 + requested;
        write_register64(port, bits::REG_DDTP, value);
        let ghost before = port.log();
        let ended = wait_register(port, bits::REG_DDTP, true, PollTest::clear(bits::DDTP_BUSY));
        proof {
            let poll = port::since(port.log(), before);
            rounds = rounds.push(EnableRound { poll, ended });
            assert(rounds.drop_last() =~= earlier);
            assert(port.log() =~= start + tries_trace(root, rounds));
            port::lemma_grown(start, tries_trace(root, rounds));
            assert forall|i: int| 0 <= i < earlier.len() implies try_declined(
                root,
                i,
                #[trigger] rounds[i],
            ) by {
                assert(rounds[i] == earlier[i]);
            }
            assert(try_polled(rounds[rounds.len() - 1]));
        }
        match ended {
            None => {
                assert(directory_enabled(
                    root,
                    rounds,
                    tries_trace(root, rounds),
                    Err(HardwareError::Timeout),
                ));
                return Err(HardwareError::Timeout);
            },
            Some(readback) => {
                let mode: u64 = readback % 16;
                if 2 <= mode && mode <= 4 && readback / 1024 % 0x1000_0000_0000 == value / 1024
                    % 0x1000_0000_0000 {
                    assert(directory_enabled(
                        root,
                        rounds,
                        tries_trace(root, rounds),
                        Ok(mode as u8),
                    ));
                    return Ok(mode as u8);
                }
                if mode > bits::DDTP_MODE_BARE as u64 {
                    assert(directory_enabled(
                        root,
                        rounds,
                        tries_trace(root, rounds),
                        Err(HardwareError::Directory),
                    ));
                    return Err(HardwareError::Directory);
                }
                if requested == 2 {
                    assert(directory_enabled(
                        root,
                        rounds,
                        tries_trace(root, rounds),
                        Err(HardwareError::Unsupported),
                    ));
                    return Err(HardwareError::Unsupported);
                }
            },
        }
        requested -= 1;
    }
    Err(HardwareError::Unsupported)
}

/// How the unit was brought up.
pub ghost struct BringUp {
    pub feature: FeatureRun,
    pub features: Result<Features, HardwareError>,
    pub t1: Seq<Exchange>,
    pub reply: u64,
    pub directory: Result<DeviceDirectory, HardwareError>,
    pub t2: Seq<Exchange>,
    pub queues: QueuesRun,
    pub opened: Result<(CommandQueue, FaultQueue), HardwareError>,
    pub t3: Seq<Exchange>,
    pub rounds: Seq<EnableRound>,
    pub mode: Result<u8, HardwareError>,
    pub t4: Seq<Exchange>,
    pub state: ControllerState,
    pub execution: Execution,
    pub executed: Result<(), HardwareError>,
    pub t5: Seq<Exchange>,
    pub next: ControllerState,
    pub stop: Stop,
    pub stop_queues: Seq<Exchange>,
    pub stop_ok: bool,
    pub t6: Seq<Exchange>,
    pub last: ControllerState,
}

/// The first commands: forget every cached context and translation.
pub open spec fn first_commands() -> Seq<Command> {
    seq![
        Command { dword0: bits::CMD_IODIR_DDT, dword1: 0 },
        Command { dword0: bits::CMD_IOTINVAL_VMA, dword1: 0 },
    ]
}

/// Whether a state is the first one: nothing attached, no interrupts.
pub open spec fn first_state(
    state: ControllerState,
    command: CommandQueue,
    fault: FaultQueue,
    directory: DeviceDirectory,
) -> bool {
    &&& state.command == command
    &&& state.fault == fault
    &&& state.directory == directory
    &&& state.attached@.len() == 0
    &&& state.enabled
    &&& !state.interrupts_enabled
}

/// Whether the unit was brought up so. What was opened before something fails is
/// stopped and given back, except what the unit may still use.
pub open spec fn brought_up(
    w: BringUp,
    trace: Seq<Exchange>,
    result: Result<RiscvIommuCore, HardwareError>,
) -> bool {
    &&& features_read(w.feature, w.t1, w.features)
    &&& match w.features {
        Err(error) => trace == w.t1 && result == Err::<RiscvIommuCore, HardwareError>(error),
        Ok(features) => {
            &&& directory_opened(features, w.reply, w.t2, w.directory)
            &&& match w.directory {
                Err(error) => trace == w.t1 + w.t2 && result == Err::<
                    RiscvIommuCore,
                    HardwareError,
                >(error),
                Ok(directory) => {
                    &&& queues_opened(w.queues, w.t3, w.opened)
                    &&& match w.opened {
                        Err(error) => trace == w.t1 + w.t2 + w.t3 + directory.drop_trace()
                            && result == Err::<RiscvIommuCore, HardwareError>(error),
                        Ok((command, fault)) => {
                            &&& directory_enabled(w.reply, w.rounds, w.t4, w.mode)
                            &&& up_from(w, features, command, fault, directory, trace, result)
                        },
                    }
                },
            }
        },
    }
}

/// The end of bringing the unit up: the directory is on, and the caches are empty.
pub open spec fn up_from(
    w: BringUp,
    features: Features,
    command: CommandQueue,
    fault: FaultQueue,
    directory: DeviceDirectory,
    trace: Seq<Exchange>,
    result: Result<RiscvIommuCore, HardwareError>,
) -> bool {
    let opened = w.t1 + w.t2 + w.t3 + w.t4;
    match w.mode {
        Err(error) => {
            &&& first_state(w.state, command, fault, directory)
            &&& w.state.stopped(&w.last, w.stop, w.stop_queues, w.t6, w.stop_ok)
            &&& trace == opened + (w.t6 + w.last.drop_trace())
            &&& result == Err::<RiscvIommuCore, HardwareError>(error)
        },
        Ok(mode) => {
            &&& first_state(w.state, command, fault, DeviceDirectory { mode, ..directory })
            &&& w.state.executed(&w.next, first_commands(), w.execution, w.t5, w.executed)
            &&& match w.executed {
                Err(error) => {
                    &&& w.next.stopped(&w.last, w.stop, w.stop_queues, w.t6, w.stop_ok)
                    &&& trace == opened + w.t5 + (w.t6 + w.last.drop_trace())
                    &&& result == Err::<RiscvIommuCore, HardwareError>(error)
                },
                Ok(_) => {
                    &&& trace == opened + w.t5
                    &&& result == Ok::<RiscvIommuCore, HardwareError>(
                        RiscvIommuCore { features, state: w.next, quiesced: false },
                    )
                },
            }
        },
    }
}

/// How a state was stopped and dropped.
pub ghost struct Discard {
    pub stop: Stop,
    pub queues: Seq<Exchange>,
    pub ok: bool,
    pub trace: Seq<Exchange>,
    pub last: ControllerState,
}

fn discard_state<F: FnMut(Access) -> u64>(port: &mut Port<F>, state: ControllerState) -> (run: Ghost<
    Discard,
>)
    requires
        state.wf(),
        state.enabled,
        old(port).wf(),
    ensures
        final(port).wf(),
        final(port).performs() == old(port).performs(),
        state.stopped(&run@.last, run@.stop, run@.queues, run@.trace, run@.ok),
        final(port).log() == old(port).log() + (run@.trace + run@.last.drop_trace()),
{
    let ghost start = port.log();
    let mut last = state;
    let ok = last.stop(port);
    let ghost trace = port::since(port.log(), start);
    let ghost (stop, queues) = choose|stop: Stop, queues: Seq<Exchange>| #[trigger]
        state.stopped(&last, stop, queues, trace, ok);
    let ghost stopped = last;
    last.release(port);
    assert(port.log() =~= start + (trace + stopped.drop_trace()));
    Ghost(Discard { stop, queues, ok, trace, last: stopped })
}

/// The unit.
pub struct RiscvIommuCore {
    pub features: Features,
    pub state: ControllerState,
    pub quiesced: bool,
}

/// How a device was attached.
pub ghost struct AttachRun {
    pub replies: Seq<u64>,
    pub valid: Result<bool, HardwareError>,
    pub t1: Seq<Exchange>,
    pub first: DeviceDirectory,
    pub install_replies: Seq<u64>,
    pub installed: Result<(), HardwareError>,
    pub t2: Seq<Exchange>,
    pub second: DeviceDirectory,
    pub before: ControllerState,
    pub execution: Execution,
    pub executed: Result<(), HardwareError>,
    pub t3: Seq<Exchange>,
    pub third: ControllerState,
    pub clear_replies: Seq<u64>,
    pub cleared: Result<(), HardwareError>,
    pub t4: Seq<Exchange>,
    pub fourth: DeviceDirectory,
}

/// The commands after the context of a device changed.
pub open spec fn device_commands(device_id: u32) -> Seq<Command> {
    seq![
        Command::for_device(device_id),
        Command { dword0: bits::CMD_IOTINVAL_VMA, dword1: 0 },
    ]
}

/// The context of a device with tables.
pub open spec fn context_of(mode: u8, root: u64) -> u64 {
    (mode * 0x1000_0000_0000_0000 + root / 4096) as u64
}

fn device_command_list(device_id: u32) -> (commands: Vec<Command>)
    ensures
        commands@ == device_commands(device_id),
{
    let mut commands: Vec<Command> = Vec::new();
    commands.push(Command::iodir_device(device_id));
    commands.push(Command::iotinval_all());
    assert(commands@ =~= device_commands(device_id));
    commands
}

/// Whether a device is among those that are attached.
fn is_attached(attached: &Vec<u32>, device_id: u32) -> (found: bool)
    ensures
        found == attached@.contains(device_id),
{
    let mut i: usize = 0;
    while i < attached.len()
        invariant
            i <= attached@.len(),
            forall|k: int| 0 <= k < i ==> attached@[k] != device_id,
        decreases attached@.len() - i,
    {
        if attached[i] == device_id {
            return true;
        }
        i += 1;
    }
    false
}

/// The devices that are attached but one.
pub open spec fn without(attached: Seq<u32>, device_id: u32) -> Seq<u32> {
    attached.filter(|id: u32| id != device_id)
}

fn remove_device(attached: &Vec<u32>, device_id: u32) -> (rest: Vec<u32>)
    ensures
        rest@ == without(attached@, device_id),
{
    let mut rest: Vec<u32> = Vec::new();
    let mut i: usize = 0;
    assert(without(attached@.take(0), device_id) =~= Seq::<u32>::empty()) by {
        reveal(Seq::filter);
    }
    while i < attached.len()
        invariant
            i <= attached@.len(),
            rest@ == without(attached@.take(i as int), device_id),
        decreases attached@.len() - i,
    {
        proof {
            reveal(Seq::filter);
            assert(attached@.take(i + 1).drop_last() =~= attached@.take(i as int));
        }
        if attached[i] != device_id {
            rest.push(attached[i]);
        }
        i += 1;
    }
    assert(attached@.take(i as int) =~= attached@);
    rest
}

impl RiscvIommuCore {
    pub open spec fn wf(&self) -> bool {
        &&& self.state.wf()
        &&& !self.quiesced ==> self.state.enabled
        &&& 8 <= self.features.translation_mode <= 10
    }

    /// Brings the unit up.
    #[verifier::rlimit(80)]
    pub fn new<F: FnMut(Access) -> u64>(port: &mut Port<F>) -> (result: Result<Self, HardwareError>)
        requires
            old(port).wf(),
        ensures
            final(port).wf(),
            final(port).performs() == old(port).performs(),
            port::grown(final(port).log(), old(port).log()),
            exists|w: BringUp| #[trigger]
                brought_up(w, port::since(final(port).log(), old(port).log()), result),
            result is Ok ==> result->Ok_0.wf(),
    {
        let ghost start = port.log();
        let ghost mut w: BringUp = arbitrary();
        let features_result = read_features(port);
        let ghost t1 = port::since(port.log(), start);
        proof {
            let feature = choose|feature: FeatureRun| #[trigger]
                features_read(feature, t1, features_result);
            w = BringUp { feature, features: features_result, t1, ..w };
        }
        let features = match features_result {
            Ok(features) => features,
            Err(error) => {
                assert(brought_up(w, t1, Err(error)));
                return Err(error);
            },
        };
        let ghost before2 = port.log();
        let directory_result = open_directory(port, features);
        let ghost t2 = port::since(port.log(), before2);
        proof {
            let reply = choose|reply: u64| #[trigger]
                directory_opened(features, reply, t2, directory_result);
            w = BringUp { reply, directory: directory_result, t2, ..w };
            assert(port.log() =~= start + (t1 + t2));
            port::lemma_grown(start, t1 + t2);
        }
        let directory = match directory_result {
            Ok(directory) => directory,
            Err(error) => {
                assert(brought_up(w, t1 + t2, Err(error)));
                return Err(error);
            },
        };
        let root: u64 = directory.root_paddr();
        assert(root == w.reply);
        let ghost before3 = port.log();
        let opened = open_queues(port);
        let ghost t3 = port::since(port.log(), before3);
        proof {
            let queues = choose|queues: QueuesRun| #[trigger] queues_opened(queues, t3, opened);
            w = BringUp { queues, opened, t3, ..w };
            assert(port.log() =~= start + (t1 + t2 + t3));
        }
        let (command, fault): (CommandQueue, FaultQueue) = match opened {
            Ok(queues) => queues,
            Err(error) => {
                directory.release(port);
                proof {
                    let trace = t1 + t2 + t3 + directory.drop_trace();
                    assert(port.log() =~= start + trace);
                    port::lemma_grown(start, trace);
                    assert(brought_up(w, trace, Err(error)));
                }
                return Err(error);
            },
        };
        let ghost before4 = port.log();
        let mode_result = enable_directory(port, root);
        let ghost t4 = port::since(port.log(), before4);
        let ghost t = t1 + t2 + t3 + t4;
        proof {
            let rounds = choose|rounds: Seq<EnableRound>| #[trigger]
                directory_enabled(root, rounds, t4, mode_result);
            w = BringUp { rounds, mode: mode_result, t4, ..w };
            assert(port.log() =~= start + t);
        }
        let mut state = ControllerState {
            command,
            fault,
            directory,
            attached: Vec::new(),
            enabled: true,
            interrupts_enabled: false,
        };
        let mode: u8 = match mode_result {
            Ok(mode) => mode,
            Err(error) => {
                let ghost first = state;
                let run = discard_state(port, state);
                proof {
                    w = BringUp {
                        state: first,
                        stop: run@.stop,
                        stop_queues: run@.queues,
                        stop_ok: run@.ok,
                        t6: run@.trace,
                        last: run@.last,
                        ..w
                    };
                    let trace = t + (run@.trace + run@.last.drop_trace());
                    assert(port.log() =~= start + trace);
                    port::lemma_grown(start, trace);
                    assert(first_state(first, command, fault, directory));
                    assert(up_from(w, features, command, fault, directory, trace, Err(error)));
                    assert(brought_up(w, trace, Err(error)));
                }
                return Err(error);
            },
        };
        state.directory.mode = mode;
        let ghost first = state;
        let mut commands: Vec<Command> = Vec::new();
        commands.push(Command::iodir_all());
        commands.push(Command::iotinval_all());
        assert(commands@ =~= first_commands());
        let ghost before5 = port.log();
        let executed = state.execute(port, commands);
        let ghost t5 = port::since(port.log(), before5);
        proof {
            let execution = choose|execution: Execution| #[trigger]
                first.executed(&state, first_commands(), execution, t5, executed);
            w = BringUp { state: first, execution, executed, t5, next: state, ..w };
            assert(port.log() =~= start + (t + t5));
            assert(first_state(
                first,
                command,
                fault,
                DeviceDirectory { mode, ..directory },
            ));
        }
        if let Err(error) = executed {
            let run = discard_state(port, state);
            proof {
                w = BringUp {
                    stop: run@.stop,
                    stop_queues: run@.queues,
                    stop_ok: run@.ok,
                    t6: run@.trace,
                    last: run@.last,
                    ..w
                };
                let trace = t + t5 + (run@.trace + run@.last.drop_trace());
                assert(port.log() =~= start + trace);
                port::lemma_grown(start, trace);
                assert(up_from(w, features, command, fault, directory, trace, Err(error)));
                assert(brought_up(w, trace, Err(error)));
            }
            return Err(error);
        }
        let unit = RiscvIommuCore { features, state, quiesced: false };
        proof {
            let trace = t + t5;
            port::lemma_grown(start, trace);
            assert(up_from(w, features, command, fault, directory, trace, Ok(unit)));
            assert(brought_up(w, trace, Ok(unit)));
        }
        Ok(unit)
    }

    pub fn interrupt_generation(&self) -> (igs: u8)
        ensures
            igs == igs_of(self.features.capabilities),
    {
        (self.features.capabilities / 0x1000_0000 % 4) as u8
    }

    /// Whether the vectors of wired interrupts were set up so.
    pub open spec fn vectors_configured(
        &self,
        vector_count: usize,
        fctl: u32,
        fctl_after: u32,
        readback: u64,
        trace: Seq<Exchange>,
        result: Result<u64, HardwareError>,
    ) -> bool {
        let igs = igs_of(self.features.capabilities);
        let layout = bits::folded(1, vector_count as int) * 0x10 + bits::folded(
            2,
            vector_count as int,
        ) * 0x100 + bits::folded(3, vector_count as int) * 0x1000;
        let unsupported = Err::<u64, HardwareError>(HardwareError::Unsupported);
        if igs != 1 && igs != 2 {
            trace == Seq::<Exchange>::empty() && result == unsupported
        } else if !(1 <= vector_count <= 4) {
            trace == Seq::<Exchange>::empty() && result == Err::<u64, HardwareError>(
                HardwareError::Invalid,
            )
        } else {
            let off = fctl / 2 % 2 == 0;
            let wired = seq![port::r32(bits::REG_FCTL, fctl)] + controller::when(
                off,
                queue::put32(bits::REG_FCTL, (fctl + 2) as u32) + seq![
                    port::r32(bits::REG_FCTL, fctl_after),
                ],
            );
            if off && fctl_after / 2 % 2 == 0 {
                trace == wired && result == unsupported
            } else {
                &&& trace == wired + queue::put64(bits::REG_ICVEC, layout as u64) + seq![
                    port::r64(bits::REG_ICVEC, readback),
                ]
                &&& result == (if bits::layout_fits(readback, vector_count as int) {
                    Ok::<u64, HardwareError>(readback)
                } else {
                    unsupported
                })
            }
        }
    }

    /// Sets up the vectors of wired interrupts, and gives what the unit took.
    pub fn configure_wsi_vectors<F: FnMut(Access) -> u64>(
        &self,
        port: &mut Port<F>,
        vector_count: usize,
    ) -> (result: Result<u64, HardwareError>)
        requires
            old(port).wf(),
        ensures
            final(port).wf(),
            final(port).performs() == old(port).performs(),
            port::grown(final(port).log(), old(port).log()),
            exists|fctl: u32, fctl_after: u32, readback: u64| #[trigger]
                self.vectors_configured(
                    vector_count,
                    fctl,
                    fctl_after,
                    readback,
                    port::since(final(port).log(), old(port).log()),
                    result,
                ),
    {
        let ghost start = port.log();
        proof {
            assert(start + Seq::<Exchange>::empty() =~= start);
            port::lemma_grown(start, Seq::empty());
        }
        let igs: u8 = self.interrupt_generation();
        if igs != 1 && igs != 2 {
            assert(self.vectors_configured(
                vector_count,
                0,
                0,
                0,
                Seq::empty(),
                Err(HardwareError::Unsupported),
            ));
            return Err(HardwareError::Unsupported);
        }
        let layout: u64 = match interrupt_vector_layout(vector_count) {
            Some(layout) => layout,
            None => {
                assert(self.vectors_configured(
                    vector_count,
                    0,
                    0,
                    0,
                    Seq::empty(),
                    Err(HardwareError::Invalid),
                ));
                return Err(HardwareError::Invalid);
            },
        };
        let fctl: u32 = port.read32(bits::REG_FCTL);
        let off = fctl / 2 % 2 == 0;
        let mut fctl_after: u32 = 0;
        if off {
            write_register32(port, bits::REG_FCTL, fctl + 2);
            fctl_after = port.read32(bits::REG_FCTL);
        }
        let ghost wired = seq![port::r32(bits::REG_FCTL, fctl)] + controller::when(
            off,
            queue::put32(bits::REG_FCTL, (fctl + 2) as u32) + seq![
                port::r32(bits::REG_FCTL, fctl_after),
            ],
        );
        assert(port.log() =~= start + wired);
        if off && fctl_after / 2 % 2 == 0 {
            proof {
                port::lemma_grown(start, wired);
                assert(self.vectors_configured(
                    vector_count,
                    fctl,
                    fctl_after,
                    0,
                    wired,
                    Err(HardwareError::Unsupported),
                ));
            }
            return Err(HardwareError::Unsupported);
        }
        write_register64(port, bits::REG_ICVEC, layout);
        let readback: u64 = port.read64(bits::REG_ICVEC);
        let ghost trace = wired + queue::put64(bits::REG_ICVEC, layout) + seq![
            port::r64(bits::REG_ICVEC, readback),
        ];
        proof {
            assert(port.log() =~= start + trace);
            port::lemma_grown(start, trace);
        }
        if !interrupt_vector_layout_valid(readback, vector_count) {
            assert(self.vectors_configured(
                vector_count,
                fctl,
                fctl_after,
                readback,
                trace,
                Err(HardwareError::Unsupported),
            ));
            return Err(HardwareError::Unsupported);
        }
        assert(self.vectors_configured(
            vector_count,
            fctl,
            fctl_after,
            readback,
            trace,
            Ok(readback),
        ));
        Ok(readback)
    }

    /// Whether only the queues differ.
    pub open spec fn same_but_queues(&self, other: &RiscvIommuCore) -> bool {
        &&& self.features == other.features
        &&& self.quiesced == other.quiesced
        &&& self.state.same_but_queues(&other.state)
    }

    /// Services what is pending and then switches interrupts on.
    pub fn enable_event_interrupts<F: FnMut(Access) -> u64>(&mut self, port: &mut Port<F>)
        requires
            old(self).wf(),
            !old(self).quiesced,
            old(port).wf(),
        ensures
            final(self).wf(),
            final(port).wf(),
            final(port).performs() == old(port).performs(),
            final(self).features == old(self).features,
            final(self).quiesced == old(self).quiesced,
            final(self).state.interrupts_enabled,
            final(self).state.command == old(self).state.command,
            final(self).state.directory == old(self).state.directory,
            final(self).state.attached == old(self).state.attached,
            final(self).state.enabled == old(self).state.enabled,
            exists|service: Service, t: Seq<Exchange>, pending: u32| #[trigger]
                old(self).state.serviced(&final(self).state.fault, service, t, pending) && final(port).log() == old(port).log() + t + controller::switch_trace(true),
    {
        let ghost start = port.log();
        let pending: u32 = self.state.service_pending(port);
        let ghost t = port::since(port.log(), start);
        let ghost service = choose|service: Service| #[trigger]
            old(self).state.serviced(&self.state.fault, service, t, pending);
        self.state.set_interrupts_enabled(port, true);
        assert(old(self).state.serviced(&self.state.fault, service, t, pending));
    }

    /// Services an interrupt, if it is one of the unit.
    pub fn handle_interrupt<F: FnMut(Access) -> u64>(&mut self, port: &mut Port<F>) -> (handled: bool)
        requires
            old(self).wf(),
            old(port).wf(),
        ensures
            final(self).wf(),
            final(port).wf(),
            final(port).performs() == old(port).performs(),
            final(self).same_but_queues(old(self)),
            final(self).state.command == old(self).state.command,
            if old(self).quiesced {
                !handled && final(port).log() == old(port).log() && final(self).state.fault == old(self).state.fault
            } else {
                exists|first: u32, service: Service, t: Seq<Exchange>| #[trigger]
                    old(self).interrupt_handled(
                        final(self),
                        first,
                        service,
                        t,
                        handled,
                        old(port).log(),
                        final(port).log(),
                    )
            },
    {
        let ghost start = port.log();
        if self.quiesced {
            return false;
        }
        let first: u32 = port.read32(bits::REG_IPSR);
        if first % 16 == 0 {
            assert(old(self).interrupt_handled(
                self,
                first,
                arbitrary(),
                Seq::empty(),
                false,
                start,
                port.log(),
            ));
            return false;
        }
        let ghost looked = port.log();
        let pending: u32 = self.state.service_pending(port);
        proof {
            let t = port::since(port.log(), looked);
            let service = choose|service: Service| #[trigger]
                old(self).state.serviced(&self.state.fault, service, t, pending);
            assert(old(self).interrupt_handled(
                self,
                first,
                service,
                t,
                pending != 0,
                start,
                port.log(),
            ));
        }
        pending != 0
    }

    /// Whether an interrupt was serviced: nothing is done if nothing is pending.
    pub open spec fn interrupt_handled(
        &self,
        after: &RiscvIommuCore,
        first: u32,
        service: Service,
        t: Seq<Exchange>,
        handled: bool,
        log: Seq<Exchange>,
        now: Seq<Exchange>,
    ) -> bool {
        let looked = log.push(port::r32(bits::REG_IPSR, first));
        if first % 16 == 0 {
            !handled && now == looked && after.state.fault == self.state.fault
        } else {
            &&& self.state.serviced(
                &after.state.fault,
                service,
                t,
                (service.ipsr % 16) as u32,
            )
            &&& now == looked + t
            &&& handled == (service.ipsr % 16 != 0)
        }
    }

    /// Makes the unit forget every cached translation and says whether it did.
    pub fn invalidate_all<F: FnMut(Access) -> u64>(&mut self, port: &mut Port<F>) -> (ok: bool)
        requires
            old(self).wf(),
            old(port).wf(),
        ensures
            final(self).wf(),
            final(port).wf(),
            final(port).performs() == old(port).performs(),
            port::grown(final(port).log(), old(port).log()),
            final(self).same_but_queues(old(self)),
            exists|w: Execution, executed: Result<(), HardwareError>| #[trigger]
                old(self).invalidated(
                    final(self),
                    w,
                    executed,
                    port::since(final(port).log(), old(port).log()),
                    ok,
                ),
    {
        let ghost start = port.log();
        if self.quiesced {
            proof {
                assert(start + Seq::<Exchange>::empty() =~= start);
                port::lemma_grown(start, Seq::empty());
                assert(old(self).invalidated(self, arbitrary(), Ok(()), Seq::empty(), false));
            }
            return false;
        }
        let mut commands: Vec<Command> = Vec::new();
        commands.push(Command::iotinval_all());
        assert(commands@ =~= seq![Command { dword0: bits::CMD_IOTINVAL_VMA, dword1: 0 }]);
        let executed = self.state.execute(port, commands);
        proof {
            let t = port::since(port.log(), start);
            let w = choose|w: Execution| #[trigger]
                old(self).state.executed(&self.state, commands@, w, t, executed);
            assert(old(self).invalidated(self, w, executed, t, executed is Ok));
        }
        executed.is_ok()
    }

    /// Whether every cached translation was forgotten so.
    pub open spec fn invalidated(
        &self,
        after: &RiscvIommuCore,
        w: Execution,
        executed: Result<(), HardwareError>,
        trace: Seq<Exchange>,
        ok: bool,
    ) -> bool {
        if self.quiesced {
            !ok && *after == *self && trace == Seq::<Exchange>::empty()
        } else {
            &&& self.state.executed(
                &after.state,
                seq![Command { dword0: bits::CMD_IOTINVAL_VMA, dword1: 0 }],
                w,
                trace,
                executed,
            )
            &&& ok == executed is Ok
        }
    }

    /// Takes the faults off the queue and services what is pending.
    pub fn poll_faults<F: FnMut(Access) -> u64>(&mut self, port: &mut Port<F>)
        requires
            old(self).wf(),
            old(port).wf(),
        ensures
            final(self).wf(),
            final(port).wf(),
            final(port).performs() == old(port).performs(),
            final(self).same_but_queues(old(self)),
            final(self).state.command == old(self).state.command,
            if old(self).quiesced {
                *final(self) == *old(self) && final(port).log() == old(port).log()
            } else {
                exists|drain: Drain, a: Seq<Exchange>, service: Service, b: Seq<Exchange>| #[trigger]
                    old(self).faults_polled(
                        final(self),
                        drain,
                        a,
                        service,
                        b,
                        old(port).log(),
                        final(port).log(),
                    )
            },
    {
        let ghost start = port.log();
        if self.quiesced {
            return ;
        }
        let interrupts = self.state.interrupts_enabled;
        self.state.fault.drain(port, interrupts);
        let ghost a = port::since(port.log(), start);
        let ghost drain = choose|drain: Drain| #[trigger]
            old(self).state.fault.drained(&self.state.fault, interrupts, drain, a);
        let ghost mid = self.state;
        let ghost before = port.log();
        let pending: u32 = self.state.service_pending(port);
        proof {
            let b = port::since(port.log(), before);
            let service = choose|service: Service| #[trigger]
                mid.serviced(&self.state.fault, service, b, pending);
            assert(old(self).state.fault.drained(&mid.fault, interrupts, drain, a));
            assert(old(self).polled_from(mid, self, drain, a, service, b));
            assert(old(self).faults_polled(self, drain, a, service, b, start, port.log()));
        }
    }

    pub open spec fn polled_from(
        &self,
        mid: ControllerState,
        after: &RiscvIommuCore,
        drain: Drain,
        a: Seq<Exchange>,
        service: Service,
        b: Seq<Exchange>,
    ) -> bool {
        &&& self.state.fault.drained(&mid.fault, self.state.interrupts_enabled, drain, a)
        &&& mid == (ControllerState { fault: mid.fault, ..self.state })
        &&& mid.serviced(&after.state.fault, service, b, (service.ipsr % 16) as u32)
    }

    /// Whether faults were taken and what is pending serviced.
    pub open spec fn faults_polled(
        &self,
        after: &RiscvIommuCore,
        drain: Drain,
        a: Seq<Exchange>,
        service: Service,
        b: Seq<Exchange>,
        log: Seq<Exchange>,
        now: Seq<Exchange>,
    ) -> bool {
        &&& now == log + a + b
        &&& exists|mid: ControllerState| #[trigger]
            self.polled_from(mid, after, drain, a, service, b)
    }

    /// Whether a device was attached so. Its context is installed and the unit told
    /// to forget what it knew of it. If the unit cannot be told, the context is
    /// taken away again, and the tables are given up, as the unit may use them;
    /// after any other failure they are given back.
    pub open spec fn attached_as(
        &self,
        after: &RiscvIommuCore,
        device_id: u32,
        table: PageTable,
        w: AttachRun,
        trace: Seq<Exchange>,
        result: Result<PageTable, IommuError>,
    ) -> bool {
        let given_back = radix::release_trace(table@);
        let directory = self.state.directory;
        &&& after.features == self.features
        &&& after.quiesced == self.quiesced
        &&& if self.quiesced || self.state.attached@.contains(device_id) {
            trace == given_back && result == Err::<PageTable, IommuError>(IommuError::Busy)
                && *after == *self
        } else {
            &&& directory.validity_read(w.first@, device_id, w.replies, w.valid, w.t1)
            &&& w.first.same_but_pages(&directory)
            &&& match w.valid {
                Err(error) => trace == w.t1 + given_back && result == Err::<PageTable, IommuError>(
                    iommu_fault(error),
                ) && after.state == (ControllerState { directory: w.first, ..self.state }),
                Ok(true) => trace == w.t1 + given_back && result == Err::<PageTable, IommuError>(
                    IommuError::Busy,
                ) && after.state == (ControllerState { directory: w.first, ..self.state }),
                Ok(false) => {
                    &&& w.first.install_done(
                        w.second@,
                        device_id,
                        context_of(table.the_mode(), table@[0].paddr),
                        w.install_replies,
                        w.installed,
                        w.t2,
                    )
                    &&& w.second.same_but_pages(&directory)
                    &&& w.before == (ControllerState { directory: w.second, ..self.state })
                    &&& match w.installed {
                        Err(error) => trace == w.t1 + w.t2 + given_back && result == Err::<
                            PageTable,
                            IommuError,
                        >(iommu_fault(error)) && after.state == w.before,
                        Ok(_) => {
                            &&& w.before.executed(
                                &w.third,
                                device_commands(device_id),
                                w.execution,
                                w.t3,
                                w.executed,
                            )
                            &&& match w.executed {
                                Err(error) => {
                                    &&& w.second.clear_done(
                                        w.fourth@,
                                        device_id,
                                        w.clear_replies,
                                        w.cleared,
                                        w.t4,
                                    )
                                    &&& w.fourth.same_but_pages(&directory)
                                    &&& trace == w.t1 + w.t2 + w.t3 + w.t4
                                    &&& result == Err::<PageTable, IommuError>(iommu_fault(error))
                                    &&& after.state == (ControllerState {
                                        directory: w.fourth,
                                        ..w.third
                                    })
                                },
                                Ok(_) => {
                                    &&& trace == w.t1 + w.t2 + w.t3
                                    &&& result == Ok::<PageTable, IommuError>(table)
                                    &&& after.state.attached@ == self.state.attached@.push(
                                        device_id,
                                    )
                                    &&& after.state == (ControllerState {
                                        attached: after.state.attached,
                                        ..w.third
                                    })
                                },
                            }
                        },
                    }
                },
            }
        }
    }

    /// Attaches a device with its tables, which come back if it worked.
    #[verifier::rlimit(80)]
    pub fn attach_domain<F: FnMut(Access) -> u64>(
        &mut self,
        port: &mut Port<F>,
        device_id: u32,
        table: PageTable,
    ) -> (result: Result<PageTable, IommuError>)
        requires
            old(self).wf(),
            table.wf(),
            old(port).wf(),
        ensures
            final(self).wf(),
            final(port).wf(),
            final(port).performs() == old(port).performs(),
            port::grown(final(port).log(), old(port).log()),
            exists|w: AttachRun| #[trigger]
                old(self).attached_as(
                    final(self),
                    device_id,
                    table,
                    w,
                    port::since(final(port).log(), old(port).log()),
                    result,
                ),
    {
        let ghost start = port.log();
        let ghost mut w: AttachRun = arbitrary();
        let ghost given_back = radix::release_trace(table@);
        if self.quiesced || is_attached(&self.state.attached, device_id) {
            table.release(port);
            proof {
                port::lemma_grown(start, given_back);
                assert(old(self).attached_as(
                    self,
                    device_id,
                    table,
                    w,
                    given_back,
                    Err(IommuError::Busy),
                ));
            }
            return Err(IommuError::Busy);
        }
        let valid = self.state.directory.context_valid(port, device_id);
        let ghost t1 = port::since(port.log(), start);
        proof {
            let replies = choose|replies: Seq<u64>| #[trigger]
                old(self).state.directory.validity_read(
                    self.state.directory@,
                    device_id,
                    replies,
                    valid,
                    t1,
                );
            w = AttachRun { replies, valid, t1, first: self.state.directory, ..w };
        }
        let busy = match valid {
            Err(error) => Some(map_hardware_iommu_error(error)),
            Ok(valid) => if valid {
                Some(IommuError::Busy)
            } else {
                None
            },
        };
        if let Some(error) = busy {
            table.release(port);
            proof {
                assert(port.log() =~= start + (t1 + given_back));
                port::lemma_grown(start, t1 + given_back);
                assert(old(self).attached_as(
                    self,
                    device_id,
                    table,
                    w,
                    t1 + given_back,
                    Err(error),
                ));
            }
            return Err(error);
        }
        let root: u64 = table.root_paddr();
        let fsc: u64 = table.mode() as u64 * 0x1000_0000_0000_0000 + root / 4096;
        let ghost before2 = port.log();
        let installed = self.state.directory.install_context(port, device_id, fsc);
        let ghost t2 = port::since(port.log(), before2);
        proof {
            let install_replies = choose|replies: Seq<u64>| #[trigger]
                w.first.install_done(
                    self.state.directory@,
                    device_id,
                    fsc,
                    replies,
                    installed,
                    t2,
                );
            w = AttachRun {
                install_replies,
                installed,
                t2,
                second: self.state.directory,
                before: self.state,
                ..w
            };
        }
        if let Err(error) = installed {
            let fault = map_hardware_iommu_error(error);
            table.release(port);
            proof {
                assert(port.log() =~= start + (t1 + t2 + given_back));
                port::lemma_grown(start, t1 + t2 + given_back);
                assert(old(self).attached_as(
                    self,
                    device_id,
                    table,
                    w,
                    t1 + t2 + given_back,
                    Err(fault),
                ));
            }
            return Err(fault);
        }
        let commands = device_command_list(device_id);
        let ghost before3 = port.log();
        let ghost state_before = self.state;
        let executed = self.state.execute(port, commands);
        let ghost t3 = port::since(port.log(), before3);
        proof {
            let execution = choose|execution: Execution| #[trigger]
                state_before.executed(
                    &self.state,
                    device_commands(device_id),
                    execution,
                    t3,
                    executed,
                );
            w = AttachRun { execution, executed, t3, third: self.state, ..w };
        }
        if let Err(error) = executed {
            let fault = map_hardware_iommu_error(error);
            let ghost before4 = port.log();
            let cleared = self.state.directory.clear_context(port, device_id);
            proof {
                let t4 = port::since(port.log(), before4);
                let clear_replies = choose|replies: Seq<u64>| #[trigger]
                    w.second.clear_done(
                        self.state.directory@,
                        device_id,
                        replies,
                        cleared,
                        t4,
                    );
                w = AttachRun {
                    clear_replies,
                    cleared,
                    t4,
                    fourth: self.state.directory,
                    ..w
                };
                port::lemma_four(start, t1, t2, t3, t4);
                port::lemma_grown(start, t1 + t2 + t3 + t4);
                assert(old(self).attached_as(
                    self,
                    device_id,
                    table,
                    w,
                    t1 + t2 + t3 + t4,
                    Err(fault),
                ));
            }
            return Err(fault);
        }
        self.state.attached.push(device_id);
        proof {
            assert(port.log() =~= start + (t1 + t2 + t3));
            port::lemma_grown(start, t1 + t2 + t3);
            assert(old(self).attached_as(
                self,
                device_id,
                table,
                w,
                t1 + t2 + t3,
                Ok(table),
            ));
        }
        Ok(table)
    }

    /// Whether a device was detached so. A device that is not attached is detached
    /// already.
    pub open spec fn detached_as(
        &self,
        after: &RiscvIommuCore,
        device_id: u32,
        w: AttachRun,
        trace: Seq<Exchange>,
        ok: bool,
    ) -> bool {
        let directory = self.state.directory;
        &&& after.features == self.features
        &&& after.quiesced == self.quiesced
        &&& if self.quiesced || !self.state.attached@.contains(device_id) {
            ok == !self.quiesced && *after == *self && trace == Seq::<Exchange>::empty()
        } else {
            &&& directory.clear_done(w.first@, device_id, w.clear_replies, w.cleared, w.t1)
            &&& w.first.same_but_pages(&directory)
            &&& w.before == (ControllerState { directory: w.first, ..self.state })
            &&& match w.cleared {
                Err(_) => !ok && trace == w.t1 && after.state == w.before,
                Ok(_) => {
                    &&& w.before.executed(
                        &w.third,
                        device_commands(device_id),
                        w.execution,
                        w.t2,
                        w.executed,
                    )
                    &&& trace == w.t1 + w.t2
                    &&& ok == w.executed is Ok
                    &&& after.state.attached@ == (if ok {
                        without(self.state.attached@, device_id)
                    } else {
                        self.state.attached@
                    })
                    &&& after.state == (ControllerState {
                        attached: after.state.attached,
                        ..w.third
                    })
                },
            }
        }
    }

    /// Detaches a device and says whether the unit is done with its tables.
    #[verifier::rlimit(60)]
    pub fn detach<F: FnMut(Access) -> u64>(&mut self, port: &mut Port<F>, device_id: u32) -> (ok: bool)
        requires
            old(self).wf(),
            old(port).wf(),
        ensures
            final(self).wf(),
            final(port).wf(),
            final(port).performs() == old(port).performs(),
            port::grown(final(port).log(), old(port).log()),
            exists|w: AttachRun| #[trigger]
                old(self).detached_as(
                    final(self),
                    device_id,
                    w,
                    port::since(final(port).log(), old(port).log()),
                    ok,
                ),
    {
        let ghost start = port.log();
        let ghost mut w: AttachRun = arbitrary();
        proof {
            assert(start + Seq::<Exchange>::empty() =~= start);
            port::lemma_grown(start, Seq::empty());
        }
        if self.quiesced {
            assert(old(self).detached_as(self, device_id, w, Seq::empty(), false));
            return false;
        }
        if !is_attached(&self.state.attached, device_id) {
            assert(old(self).detached_as(self, device_id, w, Seq::empty(), true));
            return true;
        }
        let cleared = self.state.directory.clear_context(port, device_id);
        let ghost t1 = port::since(port.log(), start);
        proof {
            let clear_replies = choose|replies: Seq<u64>| #[trigger]
                old(self).state.directory.clear_done(
                    self.state.directory@,
                    device_id,
                    replies,
                    cleared,
                    t1,
                );
            w = AttachRun {
                clear_replies,
                cleared,
                t1,
                first: self.state.directory,
                before: self.state,
                ..w
            };
        }
        if cleared.is_err() {
            assert(old(self).detached_as(self, device_id, w, t1, false));
            return false;
        }
        let commands = device_command_list(device_id);
        let ghost before2 = port.log();
        let ghost state_before = self.state;
        let executed = self.state.execute(port, commands);
        let ghost t2 = port::since(port.log(), before2);
        proof {
            let execution = choose|execution: Execution| #[trigger]
                state_before.executed(
                    &self.state,
                    device_commands(device_id),
                    execution,
                    t2,
                    executed,
                );
            w = AttachRun { execution, executed, t2, third: self.state, ..w };
            assert(port.log() =~= start + (t1 + t2));
            port::lemma_grown(start, t1 + t2);
        }
        if executed.is_err() {
            assert(old(self).detached_as(self, device_id, w, t1 + t2, false));
            return false;
        }
        let rest = remove_device(&self.state.attached, device_id);
        self.state.attached = rest;
        assert(old(self).detached_as(self, device_id, w, t1 + t2, true));
        true
    }

    /// Stops the unit for good.
    pub fn quiesce<F: FnMut(Access) -> u64>(&mut self, port: &mut Port<F>)
        requires
            old(self).wf(),
            old(port).wf(),
        ensures
            final(self).wf(),
            final(port).wf(),
            final(port).performs() == old(port).performs(),
            final(self).quiesced,
            final(self).features == old(self).features,
            if old(self).quiesced {
                *final(self) == *old(self) && final(port).log() == old(port).log()
            } else {
                exists|w: Stop, queues: Seq<Exchange>, t: Seq<Exchange>, ok: bool| #[trigger]
                    old(self).state.stopped(&final(self).state, w, queues, t, ok) && final(port).log() == old(port).log() + t
            },
    {
        let ghost start = port.log();
        if self.quiesced {
            return ;
        }
        self.quiesced = true;
        let ok = self.state.stop(port);
        proof {
            let t = port::since(port.log(), start);
            let (w, queues) = choose|w: Stop, queues: Seq<Exchange>| #[trigger]
                old(self).state.stopped(&self.state, w, queues, t, ok);
            assert(old(self).state.stopped(&self.state, w, queues, t, ok));
        }
    }
}

} // verus!
