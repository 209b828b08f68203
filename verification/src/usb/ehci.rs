//! The high-speed host controller: its registers and its schedule.

use vstd::prelude::*;
use crate::port;
use crate::port::{Access, Exchange, Poll, PollTest, Port};
use crate::usb::regs;

verus! {

pub const HALT_TIMEOUT_LOOPS: u32 = 2_000;

pub const CONTROLLER_RESET_TIMEOUT_LOOPS: u32 = 250_000;

pub const PORT_RESET_ASSERT_NS: u64 = 50_000_000;

pub const PORT_RESET_CLEAR_TIMEOUT_LOOPS: u32 = 2_000;

pub const SCHEDULE_TIMEOUT_LOOPS: u32 = 100_000;

/// A poll of a register, with a pause after each read that does not end it.
pub open spec fn paced(offset: usize, test: PollTest, tries: u32, pause_ns: u64) -> Poll {
    Poll { offset, wide: false, test, tries, pause_ns: Some(pause_ns) }
}

/// The test that the bits of `mask` are all clear.
pub open spec fn all_clear(mask: u64) -> PollTest {
    PollTest { mask, expected: 0, equal: true }
}

/// The test that some bit of `mask` is set.
pub open spec fn any_set(mask: u64) -> PollTest {
    PollTest { mask, expected: 0, equal: false }
}

fn poll_register<F: FnMut(Access) -> u64>(
    port: &mut Port<F>,
    offset: usize,
    test: PollTest,
    tries: u32,
    pause_ns: u64,
) -> (ended: Option<u64>)
    requires
        old(port).wf(),
    ensures
        final(port).wf(),
        final(port).performs() == old(port).performs(),
        port::grown(final(port).log(), old(port).log()),
        paced(offset, test, tries, pause_ns).done(
            port::since(final(port).log(), old(port).log()),
            ended,
        ),
{
    port.poll(Poll { offset, wide: false, test, tries, pause_ns: Some(pause_ns) })
}

/// Whether memory of the controller is aligned and within its addresses.
pub open spec fn region_error(start: int, len: int, align: int) -> Option<&'static str> {
    let end = if len == 0 {
        start
    } else {
        start + len - 1
    };
    if end > u64::MAX {
        Some("EHCI DMA region address overflow")
    } else if start % align != 0 {
        Some("EHCI DMA region is misaligned")
    } else if end > u32::MAX {
        Some("EHCI DMA region exceeds 32-bit address space")
    } else {
        None
    }
}

pub fn validate_dma_region(start: u64, len: u64, align: u64) -> (result: Result<(), &'static str>)
    requires
        align > 0,
    ensures
        match result {
            Ok(_) => region_error(start as int, len as int, align as int) is None,
            Err(error) => region_error(start as int, len as int, align as int) == Some(error),
        },
{
    let extra: u64 = if len == 0 {
        0
    } else {
        len - 1
    };
    let end: u64 = match start.checked_add(extra) {
        Some(end) => end,
        None => {
            return Err("EHCI DMA region address overflow");
        },
    };
    if start % align != 0 {
        return Err("EHCI DMA region is misaligned");
    }
    if end > u32::MAX as u64 {
        return Err("EHCI DMA region exceeds 32-bit address space");
    }
    Ok(())
}

/// Whether a payload fits into one transfer: its length has a field of its own, it
/// may touch five pages, and the controller must be able to address it.
pub open spec fn payload_error(dma: int, len: int) -> Option<&'static str> {
    let end = if len == 0 {
        dma
    } else {
        dma + len - 1
    };
    if len > 0x7fff {
        Some("EHCI qTD payload exceeds token length field")
    } else if len > 5 * 4096 - dma % 4096 {
        Some("EHCI qTD payload exceeds five buffer pages")
    } else if end > u64::MAX {
        Some("EHCI qTD DMA address overflow")
    } else if end > u32::MAX {
        Some("EHCI qTD payload exceeds 32-bit address space")
    } else {
        None
    }
}

pub fn validate_qtd_dma_region(dma: u64, len: usize) -> (result: Result<(), &'static str>)
    ensures
        match result {
            Ok(_) => payload_error(dma as int, len as int) is None,
            Err(error) => payload_error(dma as int, len as int) == Some(error),
        },
{
    if len > 0x7fff {
        return Err("EHCI qTD payload exceeds token length field");
    }
    let size: u64 = len as u64;
    if size > 5 * 4096 - dma % 4096 {
        return Err("EHCI qTD payload exceeds five buffer pages");
    }
    let extra: u64 = if size == 0 {
        0
    } else {
        size - 1
    };
    let end: u64 = match dma.checked_add(extra) {
        Some(end) => end,
        None => {
            return Err("EHCI qTD DMA address overflow");
        },
    };
    if end > u32::MAX as u64 {
        return Err("EHCI qTD payload exceeds 32-bit address space");
    }
    Ok(())
}

/// How the controller was reset.
pub ghost struct ResetRun {
    pub command: u32,
    pub halt_poll: Seq<Exchange>,
    pub halt_ended: Option<u64>,
    pub status: u32,
    pub second: u32,
    pub poll: Seq<Exchange>,
    pub ended: Option<u64>,
}

/// Whether the controller was reset so: its interrupts are off and it is halted
/// before the reset begins.
pub open spec fn was_reset(
    w: ResetRun,
    op: usize,
    trace: Seq<Exchange>,
    result: Result<(), &'static str>,
) -> bool {
    let cmd = (op + regs::EHCI_USBCMD) as usize;
    let sts = (op + regs::EHCI_USBSTS) as usize;
    let halting = seq![
        port::w32((op + regs::EHCI_USBINTR) as usize, 0),
        port::r32(cmd, w.command),
        port::w32(cmd, w.command & 0xffff_ffbe),
    ] + w.halt_poll + seq![port::r32(sts, w.status)];
    &&& paced(sts, any_set(regs::EHCI_STS_HCHALTED as u64), HALT_TIMEOUT_LOOPS, 1_000).done(
        w.halt_poll,
        w.halt_ended,
    )
    &&& if w.status / regs::EHCI_STS_HCHALTED % 2 == 0 {
        &&& trace == halting
        &&& result == Err::<(), &'static str>("EHCI host controller halt timeout")
    } else {
        &&& paced(
            cmd,
            all_clear(regs::EHCI_CMD_HCRESET as u64),
            CONTROLLER_RESET_TIMEOUT_LOOPS,
            1_000,
        ).done(w.poll, w.ended)
        &&& trace == halting + seq![port::r32(cmd, w.second), port::w32(cmd, w.second | 2)] + w.poll
        &&& result == (if w.ended is Some {
            Ok::<(), &'static str>(())
        } else {
            Err("EHCI host controller reset timeout")
        })
    }
}

/// Resets the controller.
pub fn hc_reset<F: FnMut(Access) -> u64>(port: &mut Port<F>, op: usize) -> (result: Result<
    (),
    &'static str,
>)
    requires
        old(port).wf(),
        op <= 0xff,
    ensures
        final(port).wf(),
        final(port).performs() == old(port).performs(),
        port::grown(final(port).log(), old(port).log()),
        exists|w: ResetRun| #[trigger]
            was_reset(w, op, port::since(final(port).log(), old(port).log()), result),
{
    let ghost start = port.log();
    let cmd: usize = op + regs::EHCI_USBCMD;
    let sts: usize = op + regs::EHCI_USBSTS;
    port.write32(op + regs::EHCI_USBINTR, 0);
    let command: u32 = port.read32(cmd);
    port.write32(cmd, command & 0xffff_ffbe);
    let ghost before = port.log();
    let halt_ended = poll_register(
        port,
        sts,
        PollTest::any(regs::EHCI_STS_HCHALTED as u64),
        HALT_TIMEOUT_LOOPS,
        1_000,
    );
    let ghost halt_poll = port::since(port.log(), before);
    let status: u32 = port.read32(sts);
    let ghost halting = seq![
        port::w32((op + regs::EHCI_USBINTR) as usize, 0),
        port::r32(cmd, command),
        port::w32(cmd, command & 0xffff_ffbe),
    ] + halt_poll + seq![port::r32(sts, status)];
    let ghost mut w: ResetRun = arbitrary();
    proof {
        assert(port.log() =~= start + halting);
        w = ResetRun { command, halt_poll, halt_ended, status, ..w };
    }
    if status / regs::EHCI_STS_HCHALTED % 2 == 0 {
        proof {
            port::lemma_grown(start, halting);
            assert(was_reset(w, op, halting, Err("EHCI host controller halt timeout")));
        }
        return Err("EHCI host controller halt timeout");
    }
    let second: u32 = port.read32(cmd);
    port.write32(cmd, second | 2);
    let ghost before_reset = port.log();
    let ended = poll_register(
        port,
        cmd,
        PollTest::clear(regs::EHCI_CMD_HCRESET as u64),
        CONTROLLER_RESET_TIMEOUT_LOOPS,
        1_000,
    );
    let result = if ended.is_some() {
        Ok(())
    } else {
        Err("EHCI host controller reset timeout")
    };
    proof {
        let poll = port::since(port.log(), before_reset);
        w = ResetRun { second, poll, ended, ..w };
        let trace = halting + seq![port::r32(cmd, second), port::w32(cmd, second | 2)] + poll;
        assert(port.log() =~= start + trace);
        port::lemma_grown(start, trace);
        assert(was_reset(w, op, trace, result));
    }
    result
}

/// How the controller was halted.
pub ghost struct HaltRun {
    pub command: u32,
    pub poll: Seq<Exchange>,
    pub ended: Option<u64>,
}

/// Whether the controller was halted so.
pub open spec fn was_halted(
    w: HaltRun,
    op: usize,
    trace: Seq<Exchange>,
    result: Result<(), &'static str>,
) -> bool {
    let cmd = (op + regs::EHCI_USBCMD) as usize;
    let sts = (op + regs::EHCI_USBSTS) as usize;
    &&& paced(sts, any_set(regs::EHCI_STS_HCHALTED as u64), HALT_TIMEOUT_LOOPS, 1_000).done(
        w.poll,
        w.ended,
    )
    &&& trace == seq![
        port::w32((op + regs::EHCI_USBINTR) as usize, 0),
        port::r32(cmd, w.command),
        port::w32(cmd, w.command & 0xffff_ff8e),
    ] + w.poll
    &&& result == (if w.ended is Some {
        Ok::<(), &'static str>(())
    } else {
        Err("EHCI host controller halt timeout")
    })
}

/// Stops the controller and both its schedules.
pub fn halt_controller<F: FnMut(Access) -> u64>(port: &mut Port<F>, op: usize) -> (result: Result<
    (),
    &'static str,
>)
    requires
        old(port).wf(),
        op <= 0xff,
    ensures
        final(port).wf(),
        final(port).performs() == old(port).performs(),
        port::grown(final(port).log(), old(port).log()),
        exists|w: HaltRun| #[trigger]
            was_halted(w, op, port::since(final(port).log(), old(port).log()), result),
{
    let ghost start = port.log();
    let cmd: usize = op + regs::EHCI_USBCMD;
    let sts: usize = op + regs::EHCI_USBSTS;
    port.write32(op + regs::EHCI_USBINTR, 0);
    let command: u32 = port.read32(cmd);
    port.write32(cmd, command & 0xffff_ff8e);
    let ghost before = port.log();
    let ended = poll_register(
        port,
        sts,
        PollTest::any(regs::EHCI_STS_HCHALTED as u64),
        HALT_TIMEOUT_LOOPS,
        1_000,
    );
    let result = if ended.is_some() {
        Ok(())
    } else {
        Err("EHCI host controller halt timeout")
    };
    proof {
        let poll = port::since(port.log(), before);
        let w = HaltRun { command, poll, ended };
        let trace = seq![
            port::w32((op + regs::EHCI_USBINTR) as usize, 0),
            port::r32(cmd, command),
            port::w32(cmd, command & 0xffff_ff8e),
        ] + poll;
        assert(port.log() =~= start + trace);
        port::lemma_grown(start, trace);
        assert(was_halted(w, op, trace, result));
    }
    result
}

/// How the schedule stopped.
#[derive(Clone, Copy, PartialEq, Eq, Structural, Debug)]
pub enum AsyncStopState {
    ScheduleStopped,
    /// The controller had to be halted and cannot be started again.
    ControllerHalted,
}

/// How the schedule was stopped or started.
pub ghost struct ScheduleRun {
    pub status: u32,
    pub command: u32,
    pub poll: Seq<Exchange>,
    pub ended: Option<u64>,
    pub halt: HaltRun,
    pub halted: Result<(), &'static str>,
    pub halt_trace: Seq<Exchange>,
}

/// Whether the schedule was stopped so. A schedule that does not stop brings the
/// whole controller down; an error means that it may still use memory.
pub open spec fn schedule_stopped(
    w: ScheduleRun,
    op: usize,
    faulted: bool,
    trace: Seq<Exchange>,
    result: Result<AsyncStopState, &'static str>,
    faulted_after: bool,
) -> bool {
    let cmd = (op + regs::EHCI_USBCMD) as usize;
    let sts = (op + regs::EHCI_USBSTS) as usize;
    let asked = seq![port::r32(cmd, w.command), port::w32(cmd, w.command & 0xffff_ffdf)] + w.poll;
    if faulted {
        &&& faulted_after
        &&& trace == seq![port::r32(sts, w.status)]
        &&& result == (if w.status / regs::EHCI_STS_HCHALTED % 2 == 1 {
            Ok::<AsyncStopState, &'static str>(AsyncStopState::ControllerHalted)
        } else {
            Err("EHCI faulted controller is not halted")
        })
    } else {
        &&& paced(sts, all_clear(regs::EHCI_STS_ASS as u64), SCHEDULE_TIMEOUT_LOOPS, 100).done(
            w.poll,
            w.ended,
        )
        &&& if w.ended is Some {
            &&& !faulted_after
            &&& trace == asked
            &&& result == Ok::<AsyncStopState, &'static str>(AsyncStopState::ScheduleStopped)
        } else {
            &&& was_halted(w.halt, op, w.halt_trace, w.halted)
            &&& trace == asked + w.halt_trace
            &&& match w.halted {
                Ok(_) => faulted_after && result == Ok::<AsyncStopState, &'static str>(
                    AsyncStopState::ControllerHalted,
                ),
                Err(error) => !faulted_after && result == Err::<AsyncStopState, &'static str>(
                    error,
                ),
            }
        }
    }
}

/// Stops the schedule of transfers.
pub fn stop_async<F: FnMut(Access) -> u64>(port: &mut Port<F>, op: usize, faulted: &mut bool) -> (result:
    Result<AsyncStopState, &'static str>)
    requires
        old(port).wf(),
        op <= 0xff,
    ensures
        final(port).wf(),
        final(port).performs() == old(port).performs(),
        port::grown(final(port).log(), old(port).log()),
        exists|w: ScheduleRun| #[trigger]
            schedule_stopped(
                w,
                op,
                *old(faulted),
                port::since(final(port).log(), old(port).log()),
                result,
                *final(faulted),
            ),
{
    let ghost start = port.log();
    let ghost mut w: ScheduleRun = arbitrary();
    let cmd: usize = op + regs::EHCI_USBCMD;
    let sts: usize = op + regs::EHCI_USBSTS;
    if *faulted {
        let status: u32 = port.read32(sts);
        let result = if status / regs::EHCI_STS_HCHALTED % 2 == 1 {
            Ok(AsyncStopState::ControllerHalted)
        } else {
            Err("EHCI faulted controller is not halted")
        };
        proof {
            let trace = seq![port::r32(sts, status)];
            assert(port.log() =~= start + trace);
            port::lemma_grown(start, trace);
            w = ScheduleRun { status, ..w };
            assert(schedule_stopped(w, op, true, trace, result, true));
        }
        return result;
    }
    let command: u32 = port.read32(cmd);
    port.write32(cmd, command & 0xffff_ffdf);
    let ghost before = port.log();
    let ended = poll_register(
        port,
        sts,
        PollTest::clear(regs::EHCI_STS_ASS as u64),
        SCHEDULE_TIMEOUT_LOOPS,
        100,
    );
    let ghost poll = port::since(port.log(), before);
    let ghost asked = seq![port::r32(cmd, command), port::w32(cmd, command & 0xffff_ffdf)] + poll;
    proof {
        w = ScheduleRun { command, poll, ended, ..w };
        assert(port.log() =~= start + asked);
        port::lemma_grown(start, asked);
    }
    if ended.is_some() {
        assert(schedule_stopped(
            w,
            op,
            false,
            asked,
            Ok(AsyncStopState::ScheduleStopped),
            false,
        ));
        return Ok(AsyncStopState::ScheduleStopped);
    }
    let ghost before_halt = port.log();
    let halted = halt_controller(port, op);
    let ghost halt_trace = port::since(port.log(), before_halt);
    proof {
        let halt = choose|halt: HaltRun| #[trigger] was_halted(halt, op, halt_trace, halted);
        w = ScheduleRun { halt, halted, halt_trace, ..w };
        assert(port.log() =~= start + (asked + halt_trace));
        port::lemma_grown(start, asked + halt_trace);
    }
    match halted {
        Ok(_) => {
            *faulted = true;
            assert(schedule_stopped(
                w,
                op,
                false,
                asked + halt_trace,
                Ok(AsyncStopState::ControllerHalted),
                true,
            ));
            Ok(AsyncStopState::ControllerHalted)
        },
        Err(error) => {
            assert(schedule_stopped(w, op, false, asked + halt_trace, Err(error), false));
            Err(error)
        },
    }
}

/// Why the schedule did not start.
#[derive(Clone, Copy, Debug)]
pub struct StartFailure {
    pub error: &'static str,
    /// Whether the controller said that it halted. If it did not, it may still use
    /// memory.
    pub halted: bool,
}

/// Whether the schedule was started so. A schedule that does not start brings the
/// whole controller down, which counts as faulted then, whether or not it halted.
pub open spec fn schedule_started(
    w: ScheduleRun,
    op: usize,
    faulted: bool,
    trace: Seq<Exchange>,
    result: Result<(), StartFailure>,
    faulted_after: bool,
) -> bool {
    let cmd = (op + regs::EHCI_USBCMD) as usize;
    let sts = (op + regs::EHCI_USBSTS) as usize;
    let asked = seq![port::r32(cmd, w.command), port::w32(cmd, w.command | 0x20)] + w.poll;
    if faulted {
        &&& faulted_after
        &&& trace == Seq::<Exchange>::empty()
        &&& result == Err::<(), StartFailure>(
            StartFailure { error: "EHCI controller is faulted", halted: false },
        )
    } else {
        &&& paced(sts, any_set(regs::EHCI_STS_ASS as u64), SCHEDULE_TIMEOUT_LOOPS, 100).done(
            w.poll,
            w.ended,
        )
        &&& if w.ended is Some {
            !faulted_after && trace == asked && result == Ok::<(), StartFailure>(())
        } else {
            &&& was_halted(w.halt, op, w.halt_trace, w.halted)
            &&& trace == asked + w.halt_trace
            &&& faulted_after
            &&& result == Err::<(), StartFailure>(
                match w.halted {
                    Ok(_) => StartFailure {
                        error: "EHCI async schedule start timeout",
                        halted: true,
                    },
                    Err(error) => StartFailure { error, halted: false },
                },
            )
        }
    }
}

/// Starts the schedule of transfers.
pub fn start_async<F: FnMut(Access) -> u64>(port: &mut Port<F>, op: usize, faulted: &mut bool) -> (result:
    Result<(), StartFailure>)
    requires
        old(port).wf(),
        op <= 0xff,
    ensures
        final(port).wf(),
        final(port).performs() == old(port).performs(),
        port::grown(final(port).log(), old(port).log()),
        exists|w: ScheduleRun| #[trigger]
            schedule_started(
                w,
                op,
                *old(faulted),
                port::since(final(port).log(), old(port).log()),
                result,
                *final(faulted),
            ),
{
    let ghost start = port.log();
    let ghost mut w: ScheduleRun = arbitrary();
    let cmd: usize = op + regs::EHCI_USBCMD;
    let sts: usize = op + regs::EHCI_USBSTS;
    if *faulted {
        let failure = StartFailure { error: "EHCI controller is faulted", halted: false };
        proof {
            assert(start + Seq::<Exchange>::empty() =~= start);
            port::lemma_grown(start, Seq::empty());
            assert(schedule_started(
                w,
                op,
                true,
                Seq::empty(),
                Err(failure),
                true,
            ));
        }
        return Err(failure);
    }
    let command: u32 = port.read32(cmd);
    port.write32(cmd, command | 0x20);
    let ghost before = port.log();
    let ended = poll_register(
        port,
        sts,
        PollTest::any(regs::EHCI_STS_ASS as u64),
        SCHEDULE_TIMEOUT_LOOPS,
        100,
    );
    let ghost poll = port::since(port.log(), before);
    let ghost asked = seq![port::r32(cmd, command), port::w32(cmd, command | 0x20)] + poll;
    proof {
        w = ScheduleRun { command, poll, ended, ..w };
        assert(port.log() =~= start + asked);
        port::lemma_grown(start, asked);
    }
    if ended.is_some() {
        assert(schedule_started(w, op, false, asked, Ok(()), false));
        return Ok(());
    }
    let ghost before_halt = port.log();
    let halted = halt_controller(port, op);
    let ghost halt_trace = port::since(port.log(), before_halt);
    proof {
        let halt = choose|halt: HaltRun| #[trigger] was_halted(halt, op, halt_trace, halted);
        w = ScheduleRun { halt, halted, halt_trace, ..w };
        assert(port.log() =~= start + (asked + halt_trace));
        port::lemma_grown(start, asked + halt_trace);
    }
    *faulted = true;
    let failure: StartFailure = match halted {
        Ok(_) => StartFailure { error: "EHCI async schedule start timeout", halted: true },
        Err(error) => StartFailure { error, halted: false },
    };
    assert(schedule_started(w, op, false, asked + halt_trace, Err(failure), true));
    Err(failure)
}

/// The register of a port.
pub open spec fn portsc(op: usize, index: int) -> usize {
    (op + regs::EHCI_PORTSC + 4 * index) as usize
}

/// Powers a port, without confirming changes of it that were not handled yet.
pub fn power_port<F: FnMut(Access) -> u64>(port: &mut Port<F>, op: usize, index: usize)
    requires
        old(port).wf(),
        op <= 0xff,
        index < 16,
    ensures
        final(port).wf(),
        final(port).performs() == old(port).performs(),
        exists|status: u32|
            final(port).log() == old(port).log() + seq![
                #[trigger] port::r32(portsc(op, index as int), status),
                port::w32(
                    portsc(op, index as int),
                    (status & 0xffff_ffd5) | regs::EHCI_PORTSC_PP | regs::EHCI_PORTSC_WKCNNT_E,
                ),
            ],
{
    let ghost start = port.log();
    let reg: usize = op + regs::EHCI_PORTSC + 4 * index;
    let status: u32 = port.read32(reg);
    let value: u32 = (status & 0xffff_ffd5) | regs::EHCI_PORTSC_PP | regs::EHCI_PORTSC_WKCNNT_E;
    port.write32(reg, value);
    assert(port.log() =~= start + seq![
        port::r32(portsc(op, index as int), status),
        port::w32(portsc(op, index as int), value),
    ]);
}

/// Whether a device is at a port that this controller owns.
pub fn port_has_device<F: FnMut(Access) -> u64>(port: &mut Port<F>, op: usize, index: usize) -> (connected:
    bool)
    requires
        old(port).wf(),
        op <= 0xff,
        index < 16,
    ensures
        final(port).wf(),
        final(port).performs() == old(port).performs(),
        exists|status: u32|
            final(port).log() == old(port).log().push(
                #[trigger] port::r32(portsc(op, index as int), status),
            ) && connected == (status % 2 == 1 && status / regs::EHCI_PORTSC_PORT_OWNER % 2 == 0),
{
    let reg: usize = op + regs::EHCI_PORTSC + 4 * index;
    let status: u32 = port.read32(reg);
    assert(port.log() == old(port).log().push(port::r32(portsc(op, index as int), status)));
    status % 2 == 1 && status / regs::EHCI_PORTSC_PORT_OWNER % 2 == 0
}

/// How a port was reset.
pub ghost struct PortResetRun {
    pub first: u32,
    pub second: u32,
    pub poll: Seq<Exchange>,
    pub ended: Option<u64>,
    pub last: u32,
}

/// Whether a port was reset so: the reset is held for 50 ms and ended by software.
/// A device that is not enabled afterwards is slower, and its port is handed to the
/// companion controller.
pub open spec fn port_was_reset(
    w: PortResetRun,
    op: usize,
    index: int,
    trace: Seq<Exchange>,
    result: Result<u8, &'static str>,
) -> bool {
    let reg = portsc(op, index);
    let looked = seq![port::r32(reg, w.first)];
    if w.first % 2 == 0 {
        &&& trace == looked
        &&& result == Err::<u8, &'static str>("EHCI port has no connected device")
    } else {
        let held = looked + seq![
            port::w32(reg, (w.first & 0xffff_ffd1) | regs::EHCI_PORTSC_PR),
            port::wait(PORT_RESET_ASSERT_NS),
            port::r32(reg, w.second),
            port::w32(reg, w.second & 0xffff_fed5),
        ] + w.poll + seq![port::r32(reg, w.last)];
        &&& paced(
            reg,
            all_clear(regs::EHCI_PORTSC_PR as u64),
            PORT_RESET_CLEAR_TIMEOUT_LOOPS,
            1_000,
        ).done(w.poll, w.ended)
        &&& if w.last / regs::EHCI_PORTSC_PR % 2 == 1 {
            trace == held && result == Err::<u8, &'static str>("EHCI port reset timeout")
        } else if w.last % 2 == 0 {
            trace == held && result == Err::<u8, &'static str>(
                "EHCI device disconnected during reset",
            )
        } else if w.last / regs::EHCI_PORTSC_PED % 2 == 1 {
            trace == held && result == Ok::<u8, &'static str>(regs::USB_SPEED_HIGH)
        } else {
            &&& trace == held.push(
                port::w32(reg, (w.last & 0xffff_ffd5) | regs::EHCI_PORTSC_PORT_OWNER),
            )
            &&& result == Ok::<u8, &'static str>(regs::USB_SPEED_FULL)
        }
    }
}

/// Resets a port.
pub fn reset_port<F: FnMut(Access) -> u64>(port: &mut Port<F>, op: usize, index: usize) -> (result:
    Result<u8, &'static str>)
    requires
        old(port).wf(),
        op <= 0xff,
        index < 16,
    ensures
        final(port).wf(),
        final(port).performs() == old(port).performs(),
        port::grown(final(port).log(), old(port).log()),
        exists|w: PortResetRun| #[trigger]
            port_was_reset(
                w,
                op,
                index as int,
                port::since(final(port).log(), old(port).log()),
                result,
            ),
{
    let ghost start = port.log();
    let ghost mut w: PortResetRun = arbitrary();
    let reg: usize = op + regs::EHCI_PORTSC + 4 * index;
    let first: u32 = port.read32(reg);
    let ghost looked = seq![port::r32(reg, first)];
    proof {
        w = PortResetRun { first, ..w };
        assert(port.log() =~= start + looked);
        port::lemma_grown(start, looked);
    }
    if first % 2 == 0 {
        assert(port_was_reset(
            w,
            op,
            index as int,
            looked,
            Err("EHCI port has no connected device"),
        ));
        return Err("EHCI port has no connected device");
    }
    port.write32(reg, (first & 0xffff_ffd1) | regs::EHCI_PORTSC_PR);
    port.delay(PORT_RESET_ASSERT_NS);
    let second: u32 = port.read32(reg);
    port.write32(reg, second & 0xffff_fed5);
    let ghost before = port.log();
    let ended = poll_register(
        port,
        reg,
        PollTest::clear(regs::EHCI_PORTSC_PR as u64),
        PORT_RESET_CLEAR_TIMEOUT_LOOPS,
        1_000,
    );
    let ghost poll = port::since(port.log(), before);
    let last: u32 = port.read32(reg);
    let ghost held = looked + seq![
        port::w32(reg, (first & 0xffff_ffd1) | regs::EHCI_PORTSC_PR),
        port::wait(PORT_RESET_ASSERT_NS),
        port::r32(reg, second),
        port::w32(reg, second & 0xffff_fed5),
    ] + poll + seq![port::r32(reg, last)];
    proof {
        w = PortResetRun { second, poll, ended, last, ..w };
        assert(port.log() =~= start + held);
        port::lemma_grown(start, held);
    }
    if last / regs::EHCI_PORTSC_PR % 2 == 1 {
        assert(port_was_reset(w, op, index as int, held, Err("EHCI port reset timeout")));
        return Err("EHCI port reset timeout");
    }
    if last % 2 == 0 {
        assert(port_was_reset(
            w,
            op,
            index as int,
            held,
            Err("EHCI device disconnected during reset"),
        ));
        return Err("EHCI device disconnected during reset");
    }
    if last / regs::EHCI_PORTSC_PED % 2 == 1 {
        assert(port_was_reset(w, op, index as int, held, Ok(regs::USB_SPEED_HIGH)));
        return Ok(regs::USB_SPEED_HIGH);
    }
    port.write32(reg, (last & 0xffff_ffd5) | regs::EHCI_PORTSC_PORT_OWNER);
    proof {
        let trace = held.push(
            port::w32(reg, (last & 0xffff_ffd5) | regs::EHCI_PORTSC_PORT_OWNER),
        );
        assert(port.log() =~= start + trace);
        port::lemma_grown(start, trace);
        assert(port_was_reset(w, op, index as int, trace, Ok(regs::USB_SPEED_FULL)));
    }
    Ok(regs::USB_SPEED_FULL)
}

} // verus!
