//! Binding of the clock, and its part in the time of the system.

use vstd::prelude::*;
use crate::platform;
use crate::platform::{PnpError, PnpResourceKind, has_id};
use crate::port;
use crate::port::{Access, Port};
use crate::rtc::clock;
use crate::rtc::clock::{Ls2kRtc, Ls2kRtcError, MIN_ALARM_REG_SIZE, TOY_MATCH0_REG};

verus! {

pub const COMPAT_LOONGSON_LS2K_RTC: &'static str = "loongson,ls2k-rtc";

pub const COMPAT_LOONGSON_LS2K1000_RTC: &'static str = "loongson,ls2k1000-rtc";

/// How far below the clock the power management is.
pub const LS2K_PM_OFFSET: usize = 0x800;

pub const NO_REALTIME_SOURCE: usize = 0;

/// The driver: the functions it was given, and which clock gives the time.
pub struct Ls2kRtcPlatformDriver<M, S, I, U> {
    pub device_mmio_to_virt: M,
    pub set_realtime_ns: Option<S>,
    pub install_realtime_source: Option<I>,
    pub unregister_realtime_source: Option<U>,
    pub realtime_owner: usize,
}

/// What is to be done with the time of a clock.
#[derive(Clone, Copy, PartialEq, Eq, Structural, Debug)]
pub enum RealtimeAction {
    /// Offer the clock under this name.
    Install(usize),
    /// Set the time.
    SetTime,
    Nothing,
}

/// The name of a clock; never the one that stands for none.
pub open spec fn source_id(phys: usize) -> usize {
    if phys == usize::MAX {
        usize::MAX
    } else {
        (phys + 1) as usize
    }
}

pub fn realtime_source_id(phys: usize) -> (id: usize)
    ensures
        id == source_id(phys),
        id != NO_REALTIME_SOURCE,
{
    match phys.checked_add(1) {
        Some(id) => id,
        None => usize::MAX,
    }
}

/// Whether a device with these names is a clock of this driver.
pub fn matches_platform(ids: &Vec<String>) -> (matching: bool)
    ensures
        matching == (platform::compatible(ids@, COMPAT_LOONGSON_LS2K_RTC@) || platform::compatible(
            ids@,
            COMPAT_LOONGSON_LS2K1000_RTC@,
        )),
{
    has_id(ids, COMPAT_LOONGSON_LS2K_RTC) || has_id(ids, COMPAT_LOONGSON_LS2K1000_RTC)
}

/// Where the power management of a clock is.
pub fn pm_address(phys: usize) -> (pm: Option<usize>)
    ensures
        pm == if phys >= LS2K_PM_OFFSET {
            Some((phys - LS2K_PM_OFFSET) as usize)
        } else {
            None
        },
{
    phys.checked_sub(LS2K_PM_OFFSET)
}

/// The registers of a clock.
pub fn check_window(first: Option<(usize, usize)>) -> (result: Result<(usize, usize), PnpError>)
    ensures
        result == match first {
            Some(range) => Ok::<(usize, usize), PnpError>(range),
            None => Err(PnpError::Missing(PnpResourceKind::Mmio, "rtc reg missing")),
        },
{
    match first {
        Some(range) => Ok(range),
        None => Err(PnpError::Missing(PnpResourceKind::Mmio, "rtc reg missing")),
    }
}

/// Why the interrupt of the alarm could not be had.
#[derive(Clone, Copy, PartialEq, Eq, Structural, Debug)]
pub enum AlarmIrqError {
    NoResource,
    /// Its controller, or the default one, is not there yet.
    Unresolved(Option<u32>),
    OutOfMemory,
    AlreadyRegistered,
    NotFound,
}

/// The fault of a clock whose alarm has no interrupt; none if it does without.
pub open spec fn alarm_fault(error: AlarmIrqError) -> Option<PnpError> {
    match error {
        AlarmIrqError::NoResource => None::<PnpError>,
        AlarmIrqError::Unresolved(controller) => Some(PnpError::NeedsIrqDomain(controller)),
        AlarmIrqError::OutOfMemory => Some(PnpError::OutOfMemory),
        AlarmIrqError::AlreadyRegistered => Some(
            PnpError::RegistrationFailed(PnpResourceKind::Irq, "rtc alarm irq already registered"),
        ),
        AlarmIrqError::NotFound => Some(
            PnpError::RegistrationFailed(PnpResourceKind::Irq, "rtc alarm irq line not found"),
        ),
    }
}

/// Whether the clock does without the interrupt of its alarm, or cannot be bound.
pub fn map_alarm_irq_error(error: AlarmIrqError) -> (mapped: Option<PnpError>)
    ensures
        mapped == alarm_fault(error),
{
    match error {
        AlarmIrqError::NoResource => None,
        AlarmIrqError::Unresolved(controller) => Some(PnpError::NeedsIrqDomain(controller)),
        AlarmIrqError::OutOfMemory => Some(PnpError::OutOfMemory),
        AlarmIrqError::AlreadyRegistered => Some(
            PnpError::RegistrationFailed(PnpResourceKind::Irq, "rtc alarm irq already registered"),
        ),
        AlarmIrqError::NotFound => Some(
            PnpError::RegistrationFailed(PnpResourceKind::Irq, "rtc alarm irq line not found"),
        ),
    }
}

/// What a clock whose time cannot be read is reported as.
pub fn initial_read_error() -> (error: PnpError)
    ensures
        error == PnpError::HardwareFailure("rtc initial time read failed"),
{
    PnpError::HardwareFailure("rtc initial time read failed")
}

/// What is to be done next for a clock whose time could be read.
#[derive(Clone, Copy, PartialEq, Eq, Debug)]
pub enum BindStep {
    RegisterFunction,
    RegisterAlarm,
    /// Let the device end the interrupt of the alarm when it goes.
    OwnAlarm,
    /// Give the interrupt of the alarm back, for this reason.
    WithdrawAlarm(PnpError),
    OfferTime,
    Finished(Result<(), PnpError>),
}

/// What came of a step.
#[derive(Clone, Copy, PartialEq, Eq, Debug)]
pub enum BindEvent {
    Done,
    Refused(PnpError),
    AlarmRefused(AlarmIrqError),
}

/// The step after a step. A clock without room for an alarm, or whose alarm has no
/// interrupt, is bound without one. What is no answer to a step changes nothing.
pub open spec fn bound(alarm: bool, step: BindStep, event: BindEvent) -> BindStep {
    match (step, event) {
        (BindStep::RegisterFunction, BindEvent::Done) => if alarm {
            BindStep::RegisterAlarm
        } else {
            BindStep::OfferTime
        },
        (BindStep::RegisterFunction, BindEvent::Refused(error)) => BindStep::Finished(Err(error)),
        (BindStep::RegisterAlarm, BindEvent::Done) => BindStep::OwnAlarm,
        (BindStep::RegisterAlarm, BindEvent::AlarmRefused(error)) => match alarm_fault(error) {
            None => BindStep::OfferTime,
            Some(fault) => BindStep::Finished(Err(fault)),
        },
        (BindStep::OwnAlarm, BindEvent::Done) => BindStep::OfferTime,
        (BindStep::OwnAlarm, BindEvent::Refused(error)) => BindStep::WithdrawAlarm(error),
        (BindStep::WithdrawAlarm(error), _) => BindStep::Finished(Err(error)),
        (BindStep::OfferTime, _) => BindStep::Finished(Ok(())),
        _ => step,
    }
}

/// Whether the interrupt of the alarm can be used after a step.
pub open spec fn alarm_usable(before: bool, step: BindStep, event: BindEvent) -> bool {
    match (step, event) {
        (BindStep::RegisterAlarm, BindEvent::Done) => true,
        (BindStep::OwnAlarm, BindEvent::Refused(_)) => false,
        _ => before,
    }
}

/// The step after a step; the clock learns whether its alarm has an interrupt.
pub fn advance_binding(rtc: &mut Ls2kRtc, step: BindStep, event: BindEvent) -> (next: BindStep)
    ensures
        next == bound(!old(rtc).alarm_too_small(), step, event),
        *final(rtc) == (Ls2kRtc {
            alarm_irq_available: alarm_usable(old(rtc).alarm_irq_available, step, event),
            ..*old(rtc)
        }),
{
    match (step, event) {
        (BindStep::RegisterFunction, BindEvent::Done) => {
            if rtc.size == 0 || rtc.size >= MIN_ALARM_REG_SIZE {
                BindStep::RegisterAlarm
            } else {
                BindStep::OfferTime
            }
        },
        (BindStep::RegisterFunction, BindEvent::Refused(error)) => BindStep::Finished(Err(error)),
        (BindStep::RegisterAlarm, BindEvent::Done) => {
            rtc.set_alarm_irq_available(true);
            BindStep::OwnAlarm
        },
        (BindStep::RegisterAlarm, BindEvent::AlarmRefused(error)) => match map_alarm_irq_error(
            error,
        ) {
            None => BindStep::OfferTime,
            Some(fault) => BindStep::Finished(Err(fault)),
        },
        (BindStep::OwnAlarm, BindEvent::Done) => BindStep::OfferTime,
        (BindStep::OwnAlarm, BindEvent::Refused(error)) => {
            rtc.set_alarm_irq_available(false);
            BindStep::WithdrawAlarm(error)
        },
        (BindStep::WithdrawAlarm(error), _) => BindStep::Finished(Err(error)),
        (BindStep::OfferTime, _) => BindStep::Finished(Ok(())),
        _ => step,
    }
}

/// Whether a clock whose alarm may be used has its interrupt, and one that is not
/// bound has none.
pub open spec fn binding_agrees(usable: bool, step: BindStep) -> bool {
    match step {
        BindStep::RegisterFunction | BindStep::RegisterAlarm => !usable,
        BindStep::OwnAlarm => usable,
        BindStep::WithdrawAlarm(_) => !usable,
        BindStep::OfferTime => true,
        BindStep::Finished(result) => result is Err ==> !usable,
    }
}

/// A clock that is not bound is never left with the interrupt of its alarm: every
/// step keeps to that.
pub proof fn failed_binding_leaves_no_alarm(
    alarm: bool,
    usable: bool,
    step: BindStep,
    event: BindEvent,
)
    requires
        binding_agrees(usable, step),
    ensures
        binding_agrees(alarm_usable(usable, step, event), bound(alarm, step, event)),
        step is OwnAlarm ==> !(bound(alarm, step, event) is Finished),
{
}

/// Handles the interrupt of the alarm. If that is done the alarm is to be reported.
pub fn handle_irq<F: FnMut(Access) -> u64>(rtc: &mut Ls2kRtc, port: &mut Port<F>) -> (handled: bool)
    requires
        old(port).wf(),
    ensures
        final(port).wf(),
        final(port).performs() == old(port).performs(),
        handled == (!old(rtc).alarm_too_small() && clock::reaches(
            old(rtc).base,
            TOY_MATCH0_REG,
        )),
        !handled ==> *final(rtc) == *old(rtc) && final(port).log() == old(port).log(),
        handled ==> {
            &&& *final(rtc) == (Ls2kRtc { alarm_enabled: false, ..*old(rtc) })
            &&& final(port).log() == old(port).log().push(
                port::w32((old(rtc).base + TOY_MATCH0_REG) as usize, 0),
            )
        },
{
    match rtc.acknowledge_alarm_irq(port) {
        Ok(done) => done,
        Err(_) => false,
    }
}

/// A clock whose alarm has no interrupt.
pub open spec fn without_irq(rtc: Ls2kRtc) -> Ls2kRtc {
    Ls2kRtc { alarm_irq_available: false, ..rtc }
}

/// Ends the use of a clock: its alarm is switched off.
pub fn remove<F: FnMut(Access) -> u64>(rtc: &mut Ls2kRtc, port: &mut Port<F>)
    requires
        old(port).wf(),
    ensures
        final(port).wf(),
        final(port).performs() == old(port).performs(),
        port::grown(final(port).log(), old(port).log()),
        exists|value: u32, switched: Result<(), Ls2kRtcError>| #[trigger]
            clock::switch_done(
                value,
                without_irq(*old(rtc)),
                *final(rtc),
                false,
                port::since(final(port).log(), old(port).log()),
                switched,
            ),
{
    let ghost start = port.log();
    rtc.set_alarm_irq_available(false);
    let ghost before = *rtc;
    let switched = rtc.set_alarm_enabled(port, false);
    proof {
        let trace = port::since(port.log(), start);
        let value = choose|value: u32| #[trigger]
            clock::switch_done(value, before, *rtc, false, trace, switched);
        assert(clock::switch_done(value, before, *rtc, false, trace, switched));
    }
}

impl<M, S, I, U> Ls2kRtcPlatformDriver<M, S, I, U> {
    pub fn new(
        device_mmio_to_virt: M,
        set_realtime_ns: Option<S>,
        install_realtime_source: Option<I>,
        unregister_realtime_source: Option<U>,
    ) -> (driver: Self)
        ensures
            driver.device_mmio_to_virt == device_mmio_to_virt,
            driver.set_realtime_ns == set_realtime_ns,
            driver.install_realtime_source == install_realtime_source,
            driver.unregister_realtime_source == unregister_realtime_source,
            driver.realtime_owner == NO_REALTIME_SOURCE,
    {
        Ls2kRtcPlatformDriver {
            device_mmio_to_virt,
            set_realtime_ns,
            install_realtime_source,
            unregister_realtime_source,
            realtime_owner: NO_REALTIME_SOURCE,
        }
    }

    /// Begins to use the time of a clock. A clock is offered if that is possible;
    /// otherwise the first one sets the time, and again later.
    pub fn install_realtime_clock(&mut self, phys: usize) -> (action: RealtimeAction)
        ensures
            ({
                let id = source_id(phys);
                let owns = old(self).realtime_owner == NO_REALTIME_SOURCE || old(self).realtime_owner == id;
                if old(self).install_realtime_source is Some {
                    &&& action == RealtimeAction::Install(id)
                    &&& *final(self) == *old(self)
                } else if old(self).set_realtime_ns is Some && owns {
                    &&& action == RealtimeAction::SetTime
                    &&& *final(self) == (Ls2kRtcPlatformDriver { realtime_owner: id, ..*old(self) })
                } else {
                    action == RealtimeAction::Nothing && *final(self) == *old(self)
                }
            }),
    {
        let id: usize = realtime_source_id(phys);
        if self.install_realtime_source.is_some() {
            return RealtimeAction::Install(id);
        }
        if self.set_realtime_ns.is_none() {
            return RealtimeAction::Nothing;
        }
        if self.realtime_owner == NO_REALTIME_SOURCE {
            self.realtime_owner = id;
        }
        if self.realtime_owner == id {
            RealtimeAction::SetTime
        } else {
            RealtimeAction::Nothing
        }
    }

    /// Notes whether the clock that was offered was taken.
    pub fn realtime_offered(&mut self, phys: usize, accepted: bool)
        ensures
            *final(self) == if accepted {
                Ls2kRtcPlatformDriver { realtime_owner: source_id(phys), ..*old(self) }
            } else {
                *old(self)
            },
    {
        if accepted {
            self.realtime_owner = realtime_source_id(phys);
        }
    }

    /// Ends the use of the time of a clock. Gives the name under which it has to be
    /// withdrawn, if it was in use and can be.
    pub fn unregister_realtime_clock(&mut self, phys: usize) -> (withdraw: Option<usize>)
        ensures
            ({
                let id = source_id(phys);
                if old(self).realtime_owner != id {
                    withdraw == None::<usize> && *final(self) == *old(self)
                } else {
                    &&& withdraw == if old(self).unregister_realtime_source is Some {
                        Some(id)
                    } else {
                        None
                    }
                    &&& *final(self) == (Ls2kRtcPlatformDriver {
                        realtime_owner: NO_REALTIME_SOURCE,
                        ..*old(self)
                    })
                }
            }),
    {
        let id: usize = realtime_source_id(phys);
        if self.realtime_owner != id {
            return None;
        }
        self.realtime_owner = NO_REALTIME_SOURCE;
        if self.unregister_realtime_source.is_some() {
            Some(id)
        } else {
            None
        }
    }
}

} // verus!
