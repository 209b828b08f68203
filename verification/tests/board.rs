use std::cell::RefCell;
use std::collections::HashMap;

use platform_drivers::lifecycle::{Registrations, Unregistered};
use platform_drivers::platform::{PnpError, PnpResourceKind};
use platform_drivers::port::{Access, Port};
use platform_drivers::rtc::calendar::{RtcDateTime, month_length};
use platform_drivers::rtc::clock::{
    Ls2kRtc, Ls2kRtcError, RtcAlarm, RtcError, encode_toy_low, map_ls2k_rtc_error,
};
use platform_drivers::rtc::driver as rtc_driver;
use platform_drivers::rtc::driver::{
    AlarmIrqError, BindEvent, BindStep, Ls2kRtcPlatformDriver, RealtimeAction,
};
use platform_drivers::tsensor;
use platform_drivers::tsensor::{InvokeError, Ls2kTsensor, Ls2kTsensorFunction};
use platform_drivers::wdt;
use platform_drivers::wdt::{ClockAnswer, Ls2xWdt, Ls2xWdtError, WdtError};

/// Registers that hold what was written to them.
struct Registers {
    words: RefCell<HashMap<usize, u64>>,
    log: RefCell<Vec<Access>>,
}

impl Registers {
    fn new(words: &[(usize, u64)]) -> Self {
        Registers {
            words: RefCell::new(words.iter().copied().collect()),
            log: RefCell::new(Vec::new()),
        }
    }

    fn perform(&self, access: Access) -> u64 {
        self.log.borrow_mut().push(access);
        let mut words = self.words.borrow_mut();
        match access {
            Access::Read8(at) | Access::Read16(at) | Access::Read32(at) | Access::Read64(at) => {
                words.get(&at).copied().unwrap_or(0)
            }
            Access::Write8(at, value) => {
                words.insert(at, u64::from(value));
                0
            }
            Access::Write16(at, value) => {
                words.insert(at, u64::from(value));
                0
            }
            Access::Write32(at, value) => {
                words.insert(at, u64::from(value));
                0
            }
            _ => 0,
        }
    }

    fn get(&self, at: usize) -> u64 {
        self.words.borrow().get(&at).copied().unwrap_or(0)
    }

    fn set(&self, at: usize, value: u64) {
        self.words.borrow_mut().insert(at, value);
    }

    fn log(&self) -> Vec<Access> {
        self.log.borrow().clone()
    }
}

#[test]
fn watchdog_counts_ticks_and_clips_to_its_register() {
    let wdt = Ls2xWdt::new(0x1000, 12, 125_000_000);
    assert_eq!(wdt.max_timeout_secs(), 34);
    assert_eq!(wdt.count_for(2), Ok(250_000_000));
    assert_eq!(wdt.count_for(35), Ok(u32::MAX));
    let fast = Ls2xWdt::new(0, 12, u64::MAX);
    assert_eq!(fast.count_for(2), Err(Ls2xWdtError::Overflow));
    assert_eq!(Ls2xWdt::new(0, 12, 0).max_timeout_secs(), 0);
}

#[test]
fn watchdog_runs_from_start_to_stop() {
    let board = Registers::new(&[(0x1000, 0x30)]);
    let mut port = Port::new(|access: Access| board.perform(access));
    let mut wdt = Ls2xWdt::new(0x1000, 12, 125_000_000);
    assert_eq!(wdt.set_timeout(&mut port, 100), Ok(34));
    assert_eq!(wdt.timeout_secs(), 34);
    assert_eq!(board.get(0x1004), 4_250_000_000);
    assert_eq!(wdt.start(&mut port), Ok(()));
    assert_eq!(board.get(0x1000), 0x31);
    assert!(wdt.running(&mut port));
    assert_eq!(wdt.set_timeout(&mut port, 1), Ok(1));
    assert_eq!(wdt.ping(&mut port), Ok(()));
    assert_eq!(board.get(0x1004), 125_000_000);
    assert_eq!(wdt.stop(&mut port), Ok(()));
    assert_eq!(board.get(0x1000), 0x30);
    assert_eq!(board.get(0x1004), 0xffff_ffff);
    assert!(!wdt.running(&mut port));
}

#[test]
fn watchdog_with_few_registers_is_left_alone() {
    let board = Registers::new(&[]);
    let mut port = Port::new(|access: Access| board.perform(access));
    let mut wdt = Ls2xWdt::new(0x1000, 8, 1);
    assert_eq!(wdt.start(&mut port), Err(WdtError::Invalid));
    assert_eq!(wdt.set_timeout(&mut port, 1), Err(WdtError::Invalid));
    assert_eq!(wdt.stop(&mut port), Err(WdtError::Invalid));
    assert!(board.log().is_empty());
}

#[test]
fn watchdog_clock_comes_from_the_board_or_the_device() {
    assert_eq!(wdt::acquire_clock(ClockAnswer::Rate(5), None), Ok(5));
    assert_eq!(wdt::acquire_clock(ClockAnswer::Undescribed, Some(7)), Ok(7));
    assert_eq!(
        wdt::acquire_clock(ClockAnswer::Rate(0), Some(7)),
        Err(PnpError::HardwareFailure("wdt clock rate is zero"))
    );
    assert_eq!(
        wdt::acquire_clock(ClockAnswer::NoRate, Some(7)),
        Err(PnpError::HardwareFailure("wdt clock has no rate"))
    );
    assert_eq!(
        wdt::acquire_clock(ClockAnswer::Undescribed, Some(0)),
        Err(PnpError::HardwareFailure("wdt has no clock rate source"))
    );
    assert_eq!(
        wdt::acquire_clock(ClockAnswer::Failed(PnpError::OutOfMemory), Some(7)),
        Err(PnpError::OutOfMemory)
    );
    assert!(wdt::matches_platform(&vec![
        "x".to_string(),
        "loongson,ls2x-wdt".to_string()
    ]));
    assert!(!wdt::matches_platform(&vec!["loongson,ls2x".to_string()]));
}

#[test]
fn sensor_starts_with_its_thresholds_and_reads_degrees() {
    let board = Registers::new(&[(0x14, 0xabcd_0096)]);
    let mut port = Port::new(|access: Access| board.perform(access));
    let mut sensor = Ls2kTsensor::new(&mut port).unwrap();
    assert_eq!(
        board.log(),
        [
            Access::Write16(0x8, 0x1a0),
            Access::Write16(0x0, 0x1c3),
            Access::Write16(0x10, 3),
        ]
    );
    assert_eq!(sensor.read_temp_milli(&mut port), 50_000);
    board.set(0x14, 0);
    assert!(sensor.handle_irq(&mut port));
    assert_eq!(sensor.last_temp_milli(), -100_000);
    assert_eq!(sensor.threshold_crossings(), 1);
    sensor.mark_gone();
    assert!(!sensor.handle_irq(&mut port));
    assert_eq!(sensor.threshold_crossings(), 1);
}

#[test]
fn sensor_function_answers_one_request() {
    let board = Registers::new(&[(0x14, 0x96)]);
    let mut port = Port::new(|access: Access| board.perform(access));
    let sensor = Ls2kTsensor::new(&mut port).unwrap();
    let mut function = Ls2kTsensorFunction::new(sensor, "thermal".to_string());
    let mut out = vec![9u8; 5];
    assert_eq!(function.invoke(&mut port, 1, &vec![], &mut out), Ok(4));
    assert_eq!(out, [0x50, 0xc3, 0, 0, 9]);
    assert_eq!(function.dev_name(), "thermal");
    assert_eq!(
        function.operation_contract(),
        Some("mygo.device.thermal@1;1=read_temp_milli:i32")
    );
    assert_eq!(function.class_id(), 0x6c73_326b_7473_6e73);
    assert_eq!(
        function.invoke(&mut port, 2, &vec![], &mut out),
        Err(InvokeError::Unsupported)
    );
    assert_eq!(
        function.invoke(&mut port, 1, &vec![1], &mut out),
        Err(InvokeError::Invalid)
    );
    function.mark_gone();
    assert!(function.is_gone());
    assert_eq!(
        function.invoke(&mut port, 1, &vec![], &mut out),
        Err(InvokeError::Gone)
    );
}

#[test]
fn sensor_thresholds_are_clipped() {
    let board = Registers::new(&[]);
    let mut port = Port::new(|access: Access| board.perform(access));
    Ls2kTsensor::set_threshold(&mut port, -200, 40_000);
    assert_eq!(
        board.log(),
        [Access::Write16(0x8, 0x100), Access::Write16(0x0, 0x7fff)]
    );
    assert_eq!(
        tsensor::check_window(None),
        Err(PnpError::Missing(
            PnpResourceKind::Mmio,
            "tsensor reg missing"
        ))
    );
    assert_eq!(tsensor::check_window(Some((5, 0x18))), Ok((5, 0x18)));
}

#[test]
fn calendar_counts_from_the_epoch() {
    let epoch = RtcDateTime::new(1970, 1, 1, 0, 0, 0).unwrap();
    assert_eq!(epoch.unix_time_ns(), Some(0));
    let leap = RtcDateTime::new(2000, 2, 29, 12, 30, 15).unwrap();
    assert_eq!(leap.unix_time_ns(), Some(951_827_415_000_000_000));
    assert!(RtcDateTime::new(1900, 2, 29, 0, 0, 0).is_none());
    assert!(RtcDateTime::new(2024, 13, 1, 0, 0, 0).is_none());
    assert!(RtcDateTime::new(2024, 4, 31, 0, 0, 0).is_none());
    assert_eq!(RtcDateTime::new(1969, 12, 31, 0, 0, 0).and_then(|t| t.unix_time_ns()), None);
    assert_eq!(month_length(2024, 2), 29);
    assert_eq!(month_length(2100, 2), 28);
}

fn clock_board() -> Registers {
    Registers::new(&[(0x40, 0x900)])
}

/// Lets what was written to the calendar be read from it.
fn settle(board: &Registers) {
    board.set(0x2c, board.get(0x24));
    board.set(0x30, board.get(0x28));
}

#[test]
fn written_date_is_read_back() {
    let board = clock_board();
    let mut port = Port::new(|access: Access| board.perform(access));
    let mut rtc = Ls2kRtc::new(0, 0x100, None);
    let time = RtcDateTime::new(2026, 11, 15, 23, 59, 58).unwrap();
    assert_eq!(rtc.write_datetime(&mut port, time), Ok(()));
    assert_eq!(board.get(0x24), u64::from(encode_toy_low(time)));
    assert_eq!(
        encode_toy_low(time),
        58 << 4 | 59 << 10 | 23 << 16 | 15 << 21 | 11 << 26
    );
    assert_eq!(board.get(0x28), 126);
    settle(&board);
    assert_eq!(rtc.read_datetime(&mut port), Ok(time));
    assert_eq!(
        rtc.read_unix_time_ns(&mut port),
        Ok(time.unix_time_ns().unwrap())
    );
}

#[test]
fn written_alarm_is_read_back() {
    let board = clock_board();
    let mut port = Port::new(|access: Access| board.perform(access));
    let mut rtc = Ls2kRtc::new(0, 0x100, None);
    let now = RtcDateTime::new(2026, 1, 2, 3, 4, 5).unwrap();
    assert_eq!(rtc.write_datetime(&mut port, now), Ok(()));
    settle(&board);
    let alarm = RtcDateTime::new(2027, 6, 7, 8, 9, 10).unwrap();
    let wanted = RtcAlarm {
        time: alarm,
        enabled: false,
        pending: false,
    };
    assert_eq!(rtc.write_alarm_datetime(&mut port, wanted), Ok(()));
    assert_eq!(rtc.read_alarm_datetime(&mut port).map(|a| a.time), Ok(alarm));
}

#[test]
fn clock_faults_are_told_apart() {
    let stopped = Registers::new(&[]);
    let mut port = Port::new(|access: Access| match access {
        Access::Read32(_) => 0,
        other => stopped.perform(other),
    });
    let mut rtc = Ls2kRtc::new(0, 0x100, None);
    assert_eq!(
        rtc.read_datetime(&mut port),
        Err(Ls2kRtcError::CounterDisabled)
    );
    let mut small = Ls2kRtc::new(0, 0x20, None);
    assert_eq!(
        small.read_datetime(&mut port),
        Err(Ls2kRtcError::RegisterWindowTooSmall)
    );
    let ticks = RefCell::new(0u64);
    let mut restless = Port::new(|access: Access| match access {
        Access::Read32(0x40) => 0x900,
        Access::Read32(0x30) => {
            *ticks.borrow_mut() += 1;
            *ticks.borrow()
        }
        _ => 0,
    });
    assert_eq!(
        rtc.read_datetime(&mut restless),
        Err(Ls2kRtcError::UnstableRead)
    );
    let board = clock_board();
    let mut quiet = Port::new(|access: Access| board.perform(access));
    assert_eq!(
        rtc.read_datetime(&mut quiet),
        Err(Ls2kRtcError::InvalidDate)
    );
    assert_eq!(map_ls2k_rtc_error(Ls2kRtcError::CounterDisabled), RtcError::Io);
    assert_eq!(map_ls2k_rtc_error(Ls2kRtcError::UnstableRead), RtcError::Busy);
    assert_eq!(map_ls2k_rtc_error(Ls2kRtcError::Overflow), RtcError::Invalid);
}

#[test]
fn first_clock_keeps_the_realtime() {
    let mut driver: Ls2kRtcPlatformDriver<(), (), (), ()> =
        Ls2kRtcPlatformDriver::new((), Some(()), None, None);
    assert_eq!(driver.install_realtime_clock(0x100), RealtimeAction::SetTime);
    assert_eq!(driver.install_realtime_clock(0x200), RealtimeAction::Nothing);
    assert_eq!(driver.unregister_realtime_clock(0x200), None);
    assert_eq!(driver.unregister_realtime_clock(0x100), None);
    assert_eq!(driver.install_realtime_clock(0x200), RealtimeAction::SetTime);
    assert_eq!(rtc_driver::realtime_source_id(usize::MAX), usize::MAX);
    assert_eq!(rtc_driver::pm_address(0x7ff), None);
    assert_eq!(rtc_driver::pm_address(0x801), Some(1));
}

#[test]
fn offered_clock_is_withdrawn_under_its_name() {
    let mut driver: Ls2kRtcPlatformDriver<(), (), (), ()> =
        Ls2kRtcPlatformDriver::new((), None, Some(()), Some(()));
    assert_eq!(
        driver.install_realtime_clock(0x100),
        RealtimeAction::Install(0x101)
    );
    driver.realtime_offered(0x100, true);
    assert_eq!(driver.unregister_realtime_clock(0x100), Some(0x101));
    assert_eq!(driver.unregister_realtime_clock(0x100), None);
}

#[test]
fn module_ends_its_drivers_last_first() {
    let mut module = Registrations::new(2);
    assert_eq!(module.may_start(), Ok(()));
    assert_eq!(module.started(None), Err(-19));
    assert_eq!(module.started(Some(vec![7, 8])), Ok(()));
    assert_eq!(module.may_start(), Err(-16));
    assert_eq!(module.to_end(), [(1, 8), (0, 7)]);
    module.ended(1, Unregistered::Failed);
    module.ended(0, Unregistered::Missing);
    assert_eq!(module.finished(), Err(-16));
    assert_eq!(module.to_end(), [(1, 8)]);
    module.ended(1, Unregistered::Done);
    assert_eq!(module.finished(), Ok(()));
}

#[test]
fn clock_alarm_is_ended_by_clearing_its_date() {
    let board = Registers::new(&[(0x40, 0x2900), (0x34, 77)]);
    let mut port = Port::new(|access: Access| board.perform(access));
    let mut rtc = Ls2kRtc::new(0, 0x100, None);
    assert!(rtc.features().alarm && !rtc.features().alarm_irq);
    assert_eq!(
        rtc.set_alarm_irq_enabled(&mut port, true),
        Err(RtcError::Unsupported)
    );
    rtc.set_alarm_irq_available(true);
    assert!(rtc.features().alarm_irq);
    assert_eq!(rtc.acknowledge_alarm_irq(&mut port), Ok(true));
    assert_eq!(board.get(0x34), 0);
    let mut small = Ls2kRtc::new(0, 0x30, None);
    assert!(!small.features().alarm);
    assert_eq!(
        small.acknowledge_alarm_irq(&mut port),
        Err(Ls2kRtcError::RegisterWindowTooSmall)
    );
}

#[test]
fn clock_that_is_not_bound_keeps_no_interrupt() {
    let mut rtc = Ls2kRtc::new(0, 0x100, None);
    let step = rtc_driver::advance_binding(&mut rtc, BindStep::RegisterFunction, BindEvent::Done);
    assert_eq!(step, BindStep::RegisterAlarm);
    let step = rtc_driver::advance_binding(&mut rtc, step, BindEvent::Done);
    assert_eq!(step, BindStep::OwnAlarm);
    assert!(rtc.alarm_irq_available);
    let refused = BindEvent::Refused(PnpError::OutOfMemory);
    let step = rtc_driver::advance_binding(&mut rtc, step, refused);
    assert_eq!(step, BindStep::WithdrawAlarm(PnpError::OutOfMemory));
    assert!(!rtc.alarm_irq_available);
    assert_eq!(
        rtc_driver::advance_binding(&mut rtc, step, BindEvent::Done),
        BindStep::Finished(Err(PnpError::OutOfMemory))
    );
    assert_eq!(
        rtc_driver::advance_binding(
            &mut rtc,
            BindStep::RegisterAlarm,
            BindEvent::AlarmRefused(AlarmIrqError::NoResource)
        ),
        BindStep::OfferTime
    );
    assert_eq!(
        rtc_driver::advance_binding(
            &mut rtc,
            BindStep::RegisterAlarm,
            BindEvent::AlarmRefused(AlarmIrqError::AlreadyRegistered)
        ),
        BindStep::Finished(Err(PnpError::RegistrationFailed(
            PnpResourceKind::Irq,
            "rtc alarm irq already registered"
        )))
    );
    let mut small = Ls2kRtc::new(0, 0x30, None);
    assert_eq!(
        rtc_driver::advance_binding(&mut small, BindStep::RegisterFunction, BindEvent::Done),
        BindStep::OfferTime
    );
}

#[test]
fn clock_alarm_is_reported_and_switched_off() {
    let board = Registers::new(&[(0x34, 77)]);
    let mut port = Port::new(|access: Access| board.perform(access));
    let mut rtc = Ls2kRtc::new(0, 0x100, None);
    rtc.set_alarm_irq_available(true);
    assert!(rtc_driver::handle_irq(&mut rtc, &mut port));
    assert_eq!(board.get(0x34), 0);
    rtc_driver::remove(&mut rtc, &mut port);
    assert!(!rtc.alarm_irq_available);
    assert!(!rtc.alarm_enabled);
    let mut small = Ls2kRtc::new(0, 0x30, None);
    assert!(!rtc_driver::handle_irq(&mut small, &mut port));
}

#[test]
fn watchdog_gets_its_longest_time_first() {
    let board = Registers::new(&[]);
    let mut port = Port::new(|access: Access| board.perform(access));
    let mut wdt = Ls2xWdt::new(0x1000, 12, 125_000_000);
    assert_eq!(wdt::check_rate(&wdt), Ok(34));
    assert_eq!(wdt::set_first_timeout(&mut wdt, &mut port), Ok(34));
    assert_eq!(board.get(0x1004), 4_250_000_000);
    assert_eq!(
        wdt::check_rate(&Ls2xWdt::new(0, 12, 1 << 40)),
        Err(PnpError::HardwareFailure("wdt clock rate too large"))
    );
    let mut small = Ls2xWdt::new(0, 8, 125_000_000);
    assert_eq!(
        wdt::set_first_timeout(&mut small, &mut port),
        Err(PnpError::HardwareFailure("wdt initial timeout setup failed"))
    );
}

#[test]
fn registers_beyond_the_last_address_are_not_reached() {
    let board = Registers::new(&[]);
    let mut port = Port::new(|access: Access| board.perform(access));
    let mut wdt = Ls2xWdt::new(usize::MAX - 3, 12, 125_000_000);
    assert_eq!(wdt.set_timeout(&mut port, 1), Err(WdtError::Invalid));
    assert_eq!(wdt.ping(&mut port), Err(WdtError::Invalid));
    assert_eq!(wdt.start(&mut port), Err(WdtError::Invalid));
    let mut rtc = Ls2kRtc::new(usize::MAX - 0x10, 0x100, None);
    assert_eq!(
        rtc.read_datetime(&mut port).err(),
        Some(Ls2kRtcError::Overflow)
    );
    assert_eq!(
        rtc.acknowledge_alarm_irq(&mut port),
        Err(Ls2kRtcError::Overflow)
    );
    assert!(!rtc_driver::handle_irq(&mut rtc, &mut port));
}
