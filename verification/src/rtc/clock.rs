//! The registers of the clock: its calendar and its alarm.

use vstd::prelude::*;
use crate::port;
use crate::port::{Access, Exchange, Port};
use crate::rtc::calendar::RtcDateTime;

verus! {

pub const TOY_WRITE0_REG: usize = 0x24;

pub const TOY_WRITE1_REG: usize = 0x28;

pub const TOY_READ0_REG: usize = 0x2c;

pub const TOY_READ1_REG: usize = 0x30;

pub const TOY_MATCH0_REG: usize = 0x34;

pub const RTC_CTRL_REG: usize = 0x40;

pub const MIN_REG_SIZE: usize = 0x44;

pub const MIN_ALARM_REG_SIZE: usize = 0x38;

pub const PM1_STS_REG: usize = 0x0c;

pub const PM1_EN_REG: usize = 0x10;

pub const PM_RTC_BIT: u32 = 0x400;

pub const CTRL_REQUIRED: u32 = 0x900;

/// The year that the register of the year counts from.
pub const TOY_YEAR_BASE: u32 = 1900;

/// The alarm holds only the place of its year in a window of so many years.
pub const TOY_ALARM_YEAR_WINDOW: u32 = 64;

pub const TOY_STABLE_READ_RETRIES: usize = 3;

#[derive(Clone, Copy, PartialEq, Eq, Structural, Debug)]
pub enum Ls2kRtcError {
    RegisterWindowTooSmall,
    CounterDisabled,
    UnstableRead,
    InvalidDate,
    Overflow,
}

/// What callers of a clock see of an error.
#[derive(Clone, Copy, PartialEq, Eq, Structural, Debug)]
pub enum RtcError {
    Invalid,
    Io,
    Busy,
    Unsupported,
}

/// An alarm.
#[derive(Clone, Copy, PartialEq, Eq, Structural, Debug)]
pub struct RtcAlarm {
    pub time: RtcDateTime,
    pub enabled: bool,
    pub pending: bool,
}

/// What a clock can do.
#[derive(Clone, Copy, PartialEq, Eq, Structural, Debug)]
pub struct RtcFeatures {
    pub read_time: bool,
    pub set_time: bool,
    pub alarm: bool,
    pub alarm_irq: bool,
}

/// A clock.
#[derive(Clone, Copy, PartialEq, Eq, Structural, Debug)]
pub struct Ls2kRtc {
    pub base: usize,
    /// How many registers there are, or zero if that is not known.
    pub size: usize,
    pub pm_base: Option<usize>,
    pub alarm_irq_available: bool,
    pub alarm_enabled: bool,
    pub alarm_match: u32,
    pub fix_year_offset: u32,
}

/// The calendar of a word and a year.
pub open spec fn toy_time(year: u32, word: u32) -> RtcDateTime {
    RtcDateTime {
        year,
        month: word / 0x400_0000 % 64,
        day: word / 0x20_0000 % 32,
        hour: word / 0x1_0000 % 32,
        minute: word / 0x400 % 64,
        second: word / 0x10 % 64,
    }
}

/// The word of a calendar.
pub open spec fn toy_word(time: RtcDateTime) -> u32 {
    ((time.second % 64) * 0x10 + (time.minute % 64) * 0x400 + (time.hour % 32) * 0x1_0000 + (
    time.day % 32) * 0x20_0000 + (time.month % 64) * 0x400_0000) as u32
}

/// A date that is written to the clock is read back.
pub proof fn toy_round_trip(time: RtcDateTime)
    requires
        time.valid(),
    ensures
        toy_time(time.year, toy_word(time)) == time,
{
    let word = (time.second % 64) * 0x10 + (time.minute % 64) * 0x400 + (time.hour % 32)
        * 0x1_0000 + (time.day % 32) * 0x20_0000 + (time.month % 64) * 0x400_0000;
    assert(time.second % 64 == time.second);
    assert(time.minute % 64 == time.minute);
    assert(time.hour % 32 == time.hour);
    assert(time.day % 32 == time.day);
    assert(time.month % 64 == time.month);
    assert(0 <= word <= u32::MAX);
    assert(word / 0x10 == time.second + 64 * (time.minute + 64 * (time.hour + 32 * (time.day + 32
        * time.month))));
    assert(word / 0x400 == time.minute + 64 * (time.hour + 32 * (time.day + 32 * time.month)));
    assert(word / 0x1_0000 == time.hour + 32 * (time.day + 32 * time.month));
    assert(word / 0x20_0000 == time.day + 32 * time.month);
    assert(word / 0x400_0000 == time.month);
}

/// The first year of the window of a year.
pub open spec fn window_of(year_offset: u32) -> u32 {
    (year_offset / TOY_ALARM_YEAR_WINDOW * TOY_ALARM_YEAR_WINDOW) as u32
}

/// The date of an alarm.
pub open spec fn alarm_time(year: u32, word: u32) -> RtcDateTime {
    RtcDateTime {
        year,
        month: word / 0x40_0000 % 16,
        day: word / 0x2_0000 % 32,
        hour: word / 0x1000 % 32,
        minute: word / 0x40 % 64,
        second: word % 64,
    }
}

/// The year of an alarm.
pub open spec fn alarm_year(fix_year: u32, word: u32) -> int {
    word as int / 0x400_0000 + fix_year + TOY_YEAR_BASE
}

/// The word of an alarm, whose year is in the window.
pub open spec fn alarm_word(time: RtcDateTime, fix_year: u32) -> u32 {
    (time.second % 64 + (time.minute % 64) * 0x40 + (time.hour % 32) * 0x1000 + (time.day % 32)
        * 0x2_0000 + (time.month % 16) * 0x40_0000 + (time.year - TOY_YEAR_BASE - fix_year)
        * 0x400_0000) as u32
}

/// Whether the year of an alarm is in the window.
pub open spec fn in_window(time: RtcDateTime, fix_year: u32) -> bool {
    TOY_YEAR_BASE + fix_year <= time.year < TOY_YEAR_BASE + fix_year + TOY_ALARM_YEAR_WINDOW
}

/// An alarm that is written is read back.
pub proof fn alarm_round_trip(time: RtcDateTime, fix_year: u32)
    requires
        time.valid(),
        in_window(time, fix_year),
    ensures
        alarm_year(fix_year, alarm_word(time, fix_year)) == time.year,
        alarm_time(time.year, alarm_word(time, fix_year)) == time,
{
    let place = time.year - TOY_YEAR_BASE - fix_year;
    let word = time.second % 64 + (time.minute % 64) * 0x40 + (time.hour % 32) * 0x1000 + (time.day
        % 32) * 0x2_0000 + (time.month % 16) * 0x40_0000 + place * 0x400_0000;
    assert(time.second % 64 == time.second);
    assert(time.minute % 64 == time.minute);
    assert(time.hour % 32 == time.hour);
    assert(time.day % 32 == time.day);
    assert(time.month % 16 == time.month);
    assert(0 <= place < 64);
    assert(0 <= word <= u32::MAX);
    assert(word / 0x40 == time.minute + 64 * (time.hour + 32 * (time.day + 32 * (time.month + 16
        * place))));
    assert(word / 0x1000 == time.hour + 32 * (time.day + 32 * (time.month + 16 * place)));
    assert(word / 0x2_0000 == time.day + 32 * (time.month + 16 * place));
    assert(word / 0x40_0000 == time.month + 16 * place);
    assert(word / 0x400_0000 == place);
}

/// Whether a register has an address.
pub open spec fn reaches(base: usize, offset: usize) -> bool {
    base + offset <= usize::MAX
}

/// Whether the counter of a clock runs.
pub open spec fn counting(control: u32) -> bool {
    control / 0x100 % 2 == 1 && control / 0x800 % 2 == 1
}

/// Whether the counter was started so.
pub open spec fn counter_enabled(
    first: u32,
    second: u32,
    base: usize,
    trace: Seq<Exchange>,
    result: Result<(), Ls2kRtcError>,
) -> bool {
    let reg = (base + RTC_CTRL_REG) as usize;
    if !reaches(base, RTC_CTRL_REG) {
        trace == Seq::<Exchange>::empty() && result == Err::<(), Ls2kRtcError>(
            Ls2kRtcError::Overflow,
        )
    } else if counting(first) {
        trace == seq![port::r32(reg, first)] && result == Ok::<(), Ls2kRtcError>(())
    } else {
        &&& trace == seq![
            port::r32(reg, first),
            port::w32(reg, first | CTRL_REQUIRED),
            port::r32(reg, second),
        ]
        &&& result == (if counting(second) {
            Ok::<(), Ls2kRtcError>(())
        } else {
            Err(Ls2kRtcError::CounterDisabled)
        })
    }
}

/// A look at the calendar, between two looks at the year.
pub ghost struct Look {
    pub year: u32,
    pub word: u32,
    pub again: u32,
}

pub open spec fn look_trace(base: usize, look: Look) -> Seq<Exchange> {
    seq![
        port::r32((base + TOY_READ1_REG) as usize, look.year),
        port::r32((base + TOY_READ0_REG) as usize, look.word),
        port::r32((base + TOY_READ1_REG) as usize, look.again),
    ]
}

pub open spec fn looks_trace(base: usize, looks: Seq<Look>) -> Seq<Exchange>
    decreases looks.len(),
{
    if looks.len() == 0 {
        Seq::empty()
    } else {
        looks_trace(base, looks.drop_last()) + look_trace(base, looks.last())
    }
}

/// How the calendar was read.
pub ghost struct ReadRun {
    pub first: u32,
    pub second: u32,
    pub enable_trace: Seq<Exchange>,
    pub enabled: Result<(), Ls2kRtcError>,
    pub looks: Seq<Look>,
}

/// Whether the calendar was read so. The year must not change meanwhile; it is
/// tried three times.
pub open spec fn calendar_read(
    w: ReadRun,
    before: Ls2kRtc,
    after: Ls2kRtc,
    trace: Seq<Exchange>,
    result: Result<RtcDateTime, Ls2kRtcError>,
) -> bool {
    if before.window_too_small() {
        &&& after == before
        &&& trace == Seq::<Exchange>::empty()
        &&& result == Err::<RtcDateTime, Ls2kRtcError>(Ls2kRtcError::RegisterWindowTooSmall)
    } else {
        &&& counter_enabled(w.first, w.second, before.base, w.enable_trace, w.enabled)
        &&& match w.enabled {
            Err(error) => {
                &&& after == before
                &&& trace == w.enable_trace
                &&& result == Err::<RtcDateTime, Ls2kRtcError>(error)
            },
            Ok(_) => {
                let last = w.looks.last();
                &&& 0 < w.looks.len() <= TOY_STABLE_READ_RETRIES
                &&& forall|i: int|
                    0 <= i < w.looks.len() - 1 ==> (#[trigger] w.looks[i]).year
                        != w.looks[i].again
                &&& trace == w.enable_trace + looks_trace(before.base, w.looks)
                &&& if last.year != last.again {
                    &&& w.looks.len() == TOY_STABLE_READ_RETRIES
                    &&& after == before
                    &&& result == Err::<RtcDateTime, Ls2kRtcError>(Ls2kRtcError::UnstableRead)
                } else if last.year + TOY_YEAR_BASE > u32::MAX {
                    &&& after == before
                    &&& result == Err::<RtcDateTime, Ls2kRtcError>(Ls2kRtcError::Overflow)
                } else {
                    let time = toy_time((last.year + TOY_YEAR_BASE) as u32, last.word);
                    &&& after == (Ls2kRtc { fix_year_offset: window_of(last.year), ..before })
                    &&& result == (if time.valid() {
                        Ok::<RtcDateTime, Ls2kRtcError>(time)
                    } else {
                        Err(Ls2kRtcError::InvalidDate)
                    })
                }
            },
        }
    }
}

/// Whether the calendar was written so.
pub open spec fn calendar_written(
    first: u32,
    second: u32,
    enable_trace: Seq<Exchange>,
    before: Ls2kRtc,
    after: Ls2kRtc,
    time: RtcDateTime,
    trace: Seq<Exchange>,
    result: Result<(), Ls2kRtcError>,
) -> bool {
    if before.window_too_small() {
        &&& after == before
        &&& trace == Seq::<Exchange>::empty()
        &&& result == Err::<(), Ls2kRtcError>(Ls2kRtcError::RegisterWindowTooSmall)
    } else if time.year < TOY_YEAR_BASE {
        &&& after == before
        &&& trace == Seq::<Exchange>::empty()
        &&& result == Err::<(), Ls2kRtcError>(Ls2kRtcError::InvalidDate)
    } else {
        let offset = (time.year - TOY_YEAR_BASE) as u32;
        let low = seq![port::w32((before.base + TOY_WRITE0_REG) as usize, toy_word(time))];
        if !reaches(before.base, TOY_WRITE1_REG) {
            &&& after == before
            &&& trace == if reaches(before.base, TOY_WRITE0_REG) {
                low
            } else {
                Seq::<Exchange>::empty()
            }
            &&& result == Err::<(), Ls2kRtcError>(Ls2kRtcError::Overflow)
        } else {
            &&& counter_enabled(first, second, before.base, enable_trace, result)
            &&& after == (Ls2kRtc { fix_year_offset: window_of(offset), ..before })
            &&& trace == low + seq![port::w32((before.base + TOY_WRITE1_REG) as usize, offset)]
                + enable_trace
        }
    }
}

/// How the window of the alarm was found.
pub ghost struct WindowRun {
    pub read: ReadRun,
    pub result: Result<RtcDateTime, Ls2kRtcError>,
}

/// Whether the window of the alarm was found so: it is known, or the calendar tells.
pub open spec fn window_found(
    w: WindowRun,
    before: Ls2kRtc,
    after: Ls2kRtc,
    trace: Seq<Exchange>,
    result: Result<u32, Ls2kRtcError>,
) -> bool {
    if before.fix_year_offset != 0 {
        &&& after == before
        &&& trace == Seq::<Exchange>::empty()
        &&& result == Ok::<u32, Ls2kRtcError>(before.fix_year_offset)
    } else {
        &&& calendar_read(w.read, before, after, trace, w.result)
        &&& result == match w.result {
            Ok(_) => Ok::<u32, Ls2kRtcError>(after.fix_year_offset),
            Err(error) => Err(error),
        }
    }
}

/// How the alarm was read.
pub ghost struct AlarmRun {
    pub window: WindowRun,
    pub window_trace: Seq<Exchange>,
    pub window_result: Result<u32, Ls2kRtcError>,
    pub found: Ls2kRtc,
    pub word: u32,
    pub enable: u32,
    pub status: u32,
}

/// The state after a word of the alarm was read: one that was cleared is remembered.
pub open spec fn alarm_seen(before: Ls2kRtc, word: u32) -> Ls2kRtc {
    if word != 0 {
        Ls2kRtc { alarm_match: word, ..before }
    } else {
        before
    }
}

/// Whether the alarm was read so.
pub open spec fn alarm_read(
    w: AlarmRun,
    before: Ls2kRtc,
    after: Ls2kRtc,
    trace: Seq<Exchange>,
    result: Result<RtcAlarm, Ls2kRtcError>,
) -> bool {
    if before.alarm_too_small() {
        &&& after == before
        &&& trace == Seq::<Exchange>::empty()
        &&& result == Err::<RtcAlarm, Ls2kRtcError>(Ls2kRtcError::RegisterWindowTooSmall)
    } else {
        &&& window_found(w.window, before, w.found, w.window_trace, w.window_result)
        &&& match w.window_result {
            Err(error) => {
                &&& after == w.found
                &&& trace == w.window_trace
                &&& result == Err::<RtcAlarm, Ls2kRtcError>(error)
            },
            Ok(fix_year) => if !reaches(before.base, TOY_MATCH0_REG) {
                &&& after == w.found
                &&& trace == w.window_trace
                &&& result == Err::<RtcAlarm, Ls2kRtcError>(Ls2kRtcError::Overflow)
            } else {
                let seen = w.window_trace.push(
                    port::r32((before.base + TOY_MATCH0_REG) as usize, w.word),
                );
                let raw = after.alarm_match;
                let year = alarm_year(fix_year, raw);
                let time = alarm_time(year as u32, raw);
                &&& after == alarm_seen(w.found, w.word)
                &&& if year > u32::MAX {
                    trace == seen && result == Err::<RtcAlarm, Ls2kRtcError>(
                        Ls2kRtcError::Overflow,
                    )
                } else if !time.valid() {
                    trace == seen && result == Err::<RtcAlarm, Ls2kRtcError>(
                        Ls2kRtcError::InvalidDate,
                    )
                } else {
                    match before.pm_base {
                        Some(pm) => if !reaches(pm, PM1_EN_REG) {
                            trace == seen && result == Err::<RtcAlarm, Ls2kRtcError>(
                                Ls2kRtcError::Overflow,
                            )
                        } else {
                            &&& trace == seen + seq![
                                port::r32((pm + PM1_EN_REG) as usize, w.enable),
                                port::r32((pm + PM1_STS_REG) as usize, w.status),
                            ]
                            &&& result == Ok::<RtcAlarm, Ls2kRtcError>(
                                RtcAlarm {
                                    time,
                                    enabled: w.enable / PM_RTC_BIT % 2 == 1,
                                    pending: w.status / PM_RTC_BIT % 2 == 1,
                                },
                            )
                        },
                        None => {
                            &&& trace == seen
                            &&& result == Ok::<RtcAlarm, Ls2kRtcError>(
                                RtcAlarm { time, enabled: before.alarm_enabled, pending: false },
                            )
                        },
                    }
                }
            },
        }
    }
}

/// The accesses by which the alarm is switched. An old event is cleared first; a
/// clock without a switch is given a date, or none.
pub open spec fn alarm_switched(rtc: Ls2kRtc, value: u32, enabled: bool) -> Seq<Exchange> {
    match rtc.pm_base {
        Some(pm) => if !reaches(pm, PM1_STS_REG) {
            Seq::empty()
        } else {
            seq![port::w32((pm + PM1_STS_REG) as usize, PM_RTC_BIT)] + if !reaches(pm, PM1_EN_REG) {
                Seq::empty()
            } else {
                seq![
                    port::r32((pm + PM1_EN_REG) as usize, value),
                    port::w32(
                        (pm + PM1_EN_REG) as usize,
                        if enabled {
                            value | PM_RTC_BIT
                        } else {
                            value & 0xffff_fbff
                        },
                    ),
                ]
            }
        },
        None => if !reaches(rtc.base, TOY_MATCH0_REG) {
            Seq::empty()
        } else {
            seq![
                port::w32(
                    (rtc.base + TOY_MATCH0_REG) as usize,
                    if enabled {
                        rtc.alarm_match
                    } else {
                        0
                    },
                ),
            ]
        },
    }
}

/// Whether all that switches the alarm has an address.
pub open spec fn switchable(rtc: Ls2kRtc) -> bool {
    match rtc.pm_base {
        Some(pm) => reaches(pm, PM1_EN_REG),
        None => reaches(rtc.base, TOY_MATCH0_REG),
    }
}

/// Whether the alarm was switched so.
pub open spec fn switch_done(
    value: u32,
    before: Ls2kRtc,
    after: Ls2kRtc,
    enabled: bool,
    trace: Seq<Exchange>,
    result: Result<(), Ls2kRtcError>,
) -> bool {
    if before.alarm_too_small() {
        &&& after == before
        &&& trace == Seq::<Exchange>::empty()
        &&& result == Err::<(), Ls2kRtcError>(Ls2kRtcError::RegisterWindowTooSmall)
    } else {
        &&& trace == alarm_switched(before, value, enabled)
        &&& if switchable(before) {
            &&& after == (Ls2kRtc { alarm_enabled: enabled, ..before })
            &&& result == Ok::<(), Ls2kRtcError>(())
        } else {
            &&& after == before
            &&& result == Err::<(), Ls2kRtcError>(Ls2kRtcError::Overflow)
        }
    }
}

/// How the alarm was set.
pub ghost struct SetRun {
    pub window: WindowRun,
    pub window_trace: Seq<Exchange>,
    pub window_result: Result<u32, Ls2kRtcError>,
    pub found: Ls2kRtc,
    pub value: u32,
    pub switch_trace: Seq<Exchange>,
}

/// Whether the alarm was set so.
pub open spec fn alarm_set(
    w: SetRun,
    before: Ls2kRtc,
    after: Ls2kRtc,
    alarm: RtcAlarm,
    trace: Seq<Exchange>,
    result: Result<(), Ls2kRtcError>,
) -> bool {
    if before.alarm_too_small() {
        &&& after == before
        &&& trace == Seq::<Exchange>::empty()
        &&& result == Err::<(), Ls2kRtcError>(Ls2kRtcError::RegisterWindowTooSmall)
    } else if alarm.time.year < TOY_YEAR_BASE {
        &&& after == before
        &&& trace == Seq::<Exchange>::empty()
        &&& result == Err::<(), Ls2kRtcError>(Ls2kRtcError::InvalidDate)
    } else {
        &&& window_found(w.window, before, w.found, w.window_trace, w.window_result)
        &&& match w.window_result {
            Err(error) => {
                &&& after == w.found
                &&& trace == w.window_trace
                &&& result == Err::<(), Ls2kRtcError>(error)
            },
            Ok(fix_year) => if !in_window(alarm.time, fix_year) {
                &&& after == w.found
                &&& trace == w.window_trace
                &&& result == Err::<(), Ls2kRtcError>(Ls2kRtcError::InvalidDate)
            } else {
                let word = alarm_word(alarm.time, fix_year);
                let matched = Ls2kRtc { alarm_match: word, ..w.found };
                if !reaches(before.base, TOY_MATCH0_REG) {
                    &&& after == matched
                    &&& trace == w.window_trace
                    &&& result == Err::<(), Ls2kRtcError>(Ls2kRtcError::Overflow)
                } else {
                    &&& switch_done(w.value, matched, after, alarm.enabled, w.switch_trace, result)
                    &&& trace == w.window_trace + seq![
                        port::w32((before.base + TOY_MATCH0_REG) as usize, word),
                    ] + w.switch_trace
                }
            },
        }
    }
}

impl Ls2kRtc {
    pub open spec fn window_too_small(&self) -> bool {
        self.size != 0 && self.size < MIN_REG_SIZE
    }

    pub open spec fn alarm_too_small(&self) -> bool {
        self.size != 0 && self.size < MIN_ALARM_REG_SIZE
    }

    pub fn new(base: usize, size: usize, pm_base: Option<usize>) -> (rtc: Self)
        ensures
            rtc == (Ls2kRtc {
                base,
                size,
                pm_base,
                alarm_irq_available: false,
                alarm_enabled: false,
                alarm_match: 0,
                fix_year_offset: 0,
            }),
    {
        Ls2kRtc {
            base,
            size,
            pm_base,
            alarm_irq_available: false,
            alarm_enabled: false,
            alarm_match: 0,
            fix_year_offset: 0,
        }
    }

    /// Starts the counter.
    fn enable_counter<F: FnMut(Access) -> u64>(&self, port: &mut Port<F>) -> (result: Result<
        (),
        Ls2kRtcError,
    >)
        requires
            old(port).wf(),
        ensures
            final(port).wf(),
            final(port).performs() == old(port).performs(),
            port::grown(final(port).log(), old(port).log()),
            exists|first: u32, second: u32| #[trigger]
                counter_enabled(
                    first,
                    second,
                    self.base,
                    port::since(final(port).log(), old(port).log()),
                    result,
                ),
    {
        let ghost start = port.log();
        let reg: usize = match self.base.checked_add(RTC_CTRL_REG) {
            Some(reg) => reg,
            None => {
                proof {
                    assert(start + Seq::<Exchange>::empty() =~= start);
                    port::lemma_grown(start, Seq::empty());
                    assert(counter_enabled(
                        0,
                        0,
                        self.base,
                        Seq::empty(),
                        Err(Ls2kRtcError::Overflow),
                    ));
                }
                return Err(Ls2kRtcError::Overflow);
            },
        };
        let first: u32 = port.read32(reg);
        if first / 0x100 % 2 == 1 && first / 0x800 % 2 == 1 {
            proof {
                let trace = seq![port::r32(reg, first)];
                assert(port.log() =~= start + trace);
                port::lemma_grown(start, trace);
                assert(counter_enabled(first, 0, self.base, trace, Ok(())));
            }
            return Ok(());
        }
        port.write32(reg, first | CTRL_REQUIRED);
        let second: u32 = port.read32(reg);
        let result: Result<(), Ls2kRtcError> = if second / 0x100 % 2 == 1 && second / 0x800 % 2
            == 1 {
            Ok(())
        } else {
            Err(Ls2kRtcError::CounterDisabled)
        };
        proof {
            let trace = seq![
                port::r32(reg, first),
                port::w32(reg, first | CTRL_REQUIRED),
                port::r32(reg, second),
            ];
            assert(port.log() =~= start + trace);
            port::lemma_grown(start, trace);
            assert(counter_enabled(first, second, self.base, trace, result));
        }
        result
    }

    /// Reads the calendar.
    pub fn read_datetime<F: FnMut(Access) -> u64>(&mut self, port: &mut Port<F>) -> (result: Result<
        RtcDateTime,
        Ls2kRtcError,
    >)
        requires
            old(port).wf(),
        ensures
            final(port).wf(),
            final(port).performs() == old(port).performs(),
            port::grown(final(port).log(), old(port).log()),
            exists|w: ReadRun| #[trigger]
                calendar_read(
                    w,
                    *old(self),
                    *final(self),
                    port::since(final(port).log(), old(port).log()),
                    result,
                ),
            result matches Ok(time) ==> time.valid(),
    {
        let ghost start = port.log();
        let ghost before = *self;
        let ghost mut w: ReadRun = arbitrary();
        if self.size != 0 && self.size < MIN_REG_SIZE {
            proof {
                assert(start + Seq::<Exchange>::empty() =~= start);
                port::lemma_grown(start, Seq::empty());
                assert(calendar_read(
                    w,
                    before,
                    *self,
                    Seq::empty(),
                    Err(Ls2kRtcError::RegisterWindowTooSmall),
                ));
            }
            return Err(Ls2kRtcError::RegisterWindowTooSmall);
        }
        let enabled = self.enable_counter(port);
        let ghost enable_trace = port::since(port.log(), start);
        proof {
            let (first, second) = choose|first: u32, second: u32| #[trigger]
                counter_enabled(first, second, before.base, enable_trace, enabled);
            w = ReadRun { first, second, enable_trace, enabled, ..w };
        }
        if let Err(error) = enabled {
            assert(calendar_read(w, before, *self, enable_trace, Err(error)));
            return Err(error);
        }
        let ghost mut looks: Seq<Look> = Seq::empty();
        let mut tries: usize = 0;
        assert(port.log() =~= start + (enable_trace + looks_trace(before.base, looks)));
        while tries < TOY_STABLE_READ_RETRIES
            invariant
                tries <= TOY_STABLE_READ_RETRIES,
                port.wf(),
                port.performs() == old(port).performs(),
                start == old(port).log(),
                before == *old(self),
                *self == before,
                !before.window_too_small(),
                reaches(before.base, RTC_CTRL_REG),
                looks.len() == tries,
                forall|i: int|
                    0 <= i < looks.len() ==> (#[trigger] looks[i]).year != looks[i].again,
                w.enabled is Ok,
                w.enable_trace == enable_trace,
                counter_enabled(w.first, w.second, before.base, w.enable_trace, w.enabled),
                port.log() == start + (enable_trace + looks_trace(before.base, looks)),
            decreases TOY_STABLE_READ_RETRIES - tries,
        {
            let year: u32 = port.read32(self.base + TOY_READ1_REG);
            let word: u32 = port.read32(self.base + TOY_READ0_REG);
            let again: u32 = port.read32(self.base + TOY_READ1_REG);
            proof {
                let earlier = looks;
                looks = looks.push(Look { year, word, again });
                assert(looks.drop_last() =~= earlier);
                let trace = enable_trace + looks_trace(before.base, looks);
                assert(port.log() =~= start + trace);
                port::lemma_grown(start, trace);
            }
            if year == again {
                proof {
                    w = ReadRun { looks, ..w };
                }
                let ghost trace = enable_trace + looks_trace(before.base, looks);
                if year > u32::MAX - TOY_YEAR_BASE {
                    assert(calendar_read(
                        w,
                        before,
                        *self,
                        trace,
                        Err(Ls2kRtcError::Overflow),
                    ));
                    return Err(Ls2kRtcError::Overflow);
                }
                self.fix_year_offset = year / TOY_ALARM_YEAR_WINDOW * TOY_ALARM_YEAR_WINDOW;
                let result: Result<RtcDateTime, Ls2kRtcError> = match RtcDateTime::new(
                    year + TOY_YEAR_BASE,
                    word / 0x400_0000 % 64,
                    word / 0x20_0000 % 32,
                    word / 0x1_0000 % 32,
                    word / 0x400 % 64,
                    word / 0x10 % 64,
                ) {
                    Some(time) => Ok(time),
                    None => Err(Ls2kRtcError::InvalidDate),
                };
                assert(calendar_read(w, before, *self, trace, result));
                return result;
            }
            tries += 1;
        }
        proof {
            w = ReadRun { looks, ..w };
            let trace = enable_trace + looks_trace(before.base, looks);
            port::lemma_grown(start, trace);
            assert(calendar_read(w, before, *self, trace, Err(Ls2kRtcError::UnstableRead)));
        }
        Err(Ls2kRtcError::UnstableRead)
    }

    /// Reads the nanoseconds since the beginning of 1970.
    pub fn read_unix_time_ns<F: FnMut(Access) -> u64>(&mut self, port: &mut Port<F>) -> (result: Result<
        u64,
        Ls2kRtcError,
    >)
        requires
            old(port).wf(),
        ensures
            final(port).wf(),
            final(port).performs() == old(port).performs(),
            port::grown(final(port).log(), old(port).log()),
            exists|w: ReadRun, read: Result<RtcDateTime, Ls2kRtcError>| #[trigger]
                calendar_read(
                    w,
                    *old(self),
                    *final(self),
                    port::since(final(port).log(), old(port).log()),
                    read,
                ) && result == unix_result(read),
    {
        let ghost start = port.log();
        let ghost before = *self;
        let read = self.read_datetime(port);
        let ghost trace = port::since(port.log(), start);
        let ghost w = choose|w: ReadRun| #[trigger]
            calendar_read(w, before, *self, trace, read);
        let result: Result<u64, Ls2kRtcError> = match read {
            Ok(time) => match time.unix_time_ns() {
                Some(ns) => Ok(ns),
                None => Err(Ls2kRtcError::InvalidDate),
            },
            Err(error) => Err(error),
        };
        assert(calendar_read(w, before, *self, trace, read));
        result
    }

    /// Writes the calendar.
    pub fn write_datetime<F: FnMut(Access) -> u64>(&mut self, port: &mut Port<F>, time: RtcDateTime) -> (result:
        Result<(), Ls2kRtcError>)
        requires
            old(port).wf(),
        ensures
            final(port).wf(),
            final(port).performs() == old(port).performs(),
            port::grown(final(port).log(), old(port).log()),
            exists|first: u32, second: u32, enable_trace: Seq<Exchange>| #[trigger]
                calendar_written(
                    first,
                    second,
                    enable_trace,
                    *old(self),
                    *final(self),
                    time,
                    port::since(final(port).log(), old(port).log()),
                    result,
                ),
    {
        let ghost start = port.log();
        let ghost before = *self;
        let ghost none = Seq::<Exchange>::empty();
        proof {
            assert(start + none =~= start);
            port::lemma_grown(start, none);
        }
        if self.size != 0 && self.size < MIN_REG_SIZE {
            assert(calendar_written(
                0,
                0,
                none,
                before,
                *self,
                time,
                none,
                Err(Ls2kRtcError::RegisterWindowTooSmall),
            ));
            return Err(Ls2kRtcError::RegisterWindowTooSmall);
        }
        if time.year < TOY_YEAR_BASE {
            assert(calendar_written(
                0,
                0,
                none,
                before,
                *self,
                time,
                none,
                Err(Ls2kRtcError::InvalidDate),
            ));
            return Err(Ls2kRtcError::InvalidDate);
        }
        let offset: u32 = time.year - TOY_YEAR_BASE;
        let word: u32 = encode_toy_low(time);
        let ghost low = seq![port::w32((before.base + TOY_WRITE0_REG) as usize, word)];
        match self.base.checked_add(TOY_WRITE0_REG) {
            Some(reg) => {
                port.write32(reg, word);
                assert(port.log() =~= start + low);
            },
            None => {
                assert(calendar_written(
                    0,
                    0,
                    none,
                    before,
                    *self,
                    time,
                    none,
                    Err(Ls2kRtcError::Overflow),
                ));
                return Err(Ls2kRtcError::Overflow);
            },
        }
        match self.base.checked_add(TOY_WRITE1_REG) {
            Some(reg) => {
                port.write32(reg, offset);
            },
            None => {
                proof {
                    port::lemma_grown(start, low);
                    assert(calendar_written(
                        0,
                        0,
                        none,
                        before,
                        *self,
                        time,
                        low,
                        Err(Ls2kRtcError::Overflow),
                    ));
                }
                return Err(Ls2kRtcError::Overflow);
            },
        }
        self.fix_year_offset = offset / TOY_ALARM_YEAR_WINDOW * TOY_ALARM_YEAR_WINDOW;
        let ghost middle = port.log();
        let result = self.enable_counter(port);
        proof {
            let enable_trace = port::since(port.log(), middle);
            let (first, second) = choose|first: u32, second: u32| #[trigger]
                counter_enabled(first, second, before.base, enable_trace, result);
            let trace = low + seq![port::w32((before.base + TOY_WRITE1_REG) as usize, offset)]
                + enable_trace;
            assert(port.log() =~= start + trace);
            port::lemma_grown(start, trace);
            assert(calendar_written(
                first,
                second,
                enable_trace,
                before,
                *self,
                time,
                trace,
                result,
            ));
        }
        result
    }

    /// Finds the window of the alarm.
    fn ensure_fix_year<F: FnMut(Access) -> u64>(&mut self, port: &mut Port<F>) -> (result: Result<
        u32,
        Ls2kRtcError,
    >)
        requires
            old(port).wf(),
        ensures
            final(port).wf(),
            final(port).performs() == old(port).performs(),
            final(self).base == old(self).base,
            final(self).size == old(self).size,
            final(self).pm_base == old(self).pm_base,
            final(self).alarm_enabled == old(self).alarm_enabled,
            port::grown(final(port).log(), old(port).log()),
            exists|w: WindowRun| #[trigger]
                window_found(
                    w,
                    *old(self),
                    *final(self),
                    port::since(final(port).log(), old(port).log()),
                    result,
                ),
    {
        let ghost start = port.log();
        let ghost before = *self;
        let ghost mut w: WindowRun = arbitrary();
        let current: u32 = self.fix_year_offset;
        if current != 0 {
            proof {
                assert(start + Seq::<Exchange>::empty() =~= start);
                port::lemma_grown(start, Seq::empty());
                assert(window_found(w, before, *self, Seq::empty(), Ok(current)));
            }
            return Ok(current);
        }
        let read = self.read_datetime(port);
        let result: Result<u32, Ls2kRtcError> = match read {
            Ok(_) => Ok(self.fix_year_offset),
            Err(error) => Err(error),
        };
        proof {
            let trace = port::since(port.log(), start);
            let run = choose|run: ReadRun| #[trigger]
                calendar_read(run, before, *self, trace, read);
            w = WindowRun { read: run, result: read };
            assert(window_found(w, before, *self, trace, result));
        }
        result
    }

    /// Reads the alarm.
    pub fn read_alarm_datetime<F: FnMut(Access) -> u64>(&mut self, port: &mut Port<F>) -> (result:
        Result<RtcAlarm, Ls2kRtcError>)
        requires
            old(port).wf(),
        ensures
            final(port).wf(),
            final(port).performs() == old(port).performs(),
            port::grown(final(port).log(), old(port).log()),
            exists|w: AlarmRun| #[trigger]
                alarm_read(
                    w,
                    *old(self),
                    *final(self),
                    port::since(final(port).log(), old(port).log()),
                    result,
                ),
    {
        let ghost start = port.log();
        let ghost before = *self;
        let ghost mut w: AlarmRun = arbitrary();
        if self.size != 0 && self.size < MIN_ALARM_REG_SIZE {
            proof {
                assert(start + Seq::<Exchange>::empty() =~= start);
                port::lemma_grown(start, Seq::empty());
                assert(alarm_read(
                    w,
                    before,
                    *self,
                    Seq::empty(),
                    Err(Ls2kRtcError::RegisterWindowTooSmall),
                ));
            }
            return Err(Ls2kRtcError::RegisterWindowTooSmall);
        }
        let window_result = self.ensure_fix_year(port);
        let ghost window_trace = port::since(port.log(), start);
        proof {
            let window = choose|window: WindowRun| #[trigger]
                window_found(window, before, *self, window_trace, window_result);
            w = AlarmRun { window, window_trace, window_result, found: *self, ..w };
        }
        let fix_year: u32 = match window_result {
            Ok(fix_year) => fix_year,
            Err(error) => {
                assert(alarm_read(w, before, *self, window_trace, Err(error)));
                return Err(error);
            },
        };
        let word: u32 = match self.base.checked_add(TOY_MATCH0_REG) {
            Some(reg) => port.read32(reg),
            None => {
                assert(alarm_read(w, before, *self, window_trace, Err(Ls2kRtcError::Overflow)));
                return Err(Ls2kRtcError::Overflow);
            },
        };
        if word != 0 {
            self.alarm_match = word;
        }
        let raw: u32 = self.alarm_match;
        let ghost seen = window_trace.push(
            port::r32((before.base + TOY_MATCH0_REG) as usize, word),
        );
        proof {
            w = AlarmRun { word, ..w };
            assert(port.log() =~= start + seen);
            port::lemma_grown(start, seen);
        }
        let year: u64 = (raw / 0x400_0000) as u64 + fix_year as u64 + TOY_YEAR_BASE as u64;
        if year > u32::MAX as u64 {
            assert(alarm_read(w, before, *self, seen, Err(Ls2kRtcError::Overflow)));
            return Err(Ls2kRtcError::Overflow);
        }
        let time: RtcDateTime = match RtcDateTime::new(
            year as u32,
            raw / 0x40_0000 % 16,
            raw / 0x2_0000 % 32,
            raw / 0x1000 % 32,
            raw / 0x40 % 64,
            raw % 64,
        ) {
            Some(time) => time,
            None => {
                assert(alarm_read(w, before, *self, seen, Err(Ls2kRtcError::InvalidDate)));
                return Err(Ls2kRtcError::InvalidDate);
            },
        };
        match self.pm_base {
            Some(pm) => {
                let enable: u32 = match pm.checked_add(PM1_EN_REG) {
                    Some(reg) => port.read32(reg),
                    None => {
                        assert(alarm_read(w, before, *self, seen, Err(Ls2kRtcError::Overflow)));
                        return Err(Ls2kRtcError::Overflow);
                    },
                };
                let status: u32 = port.read32(pm + PM1_STS_REG);
                let alarm = RtcAlarm {
                    time,
                    enabled: enable / PM_RTC_BIT % 2 == 1,
                    pending: status / PM_RTC_BIT % 2 == 1,
                };
                proof {
                    w = AlarmRun { enable, status, ..w };
                    let trace = seen + seq![
                        port::r32((pm + PM1_EN_REG) as usize, enable),
                        port::r32((pm + PM1_STS_REG) as usize, status),
                    ];
                    assert(port.log() =~= start + trace);
                    port::lemma_grown(start, trace);
                    assert(alarm_read(w, before, *self, trace, Ok(alarm)));
                }
                Ok(alarm)
            },
            None => {
                let alarm = RtcAlarm { time, enabled: self.alarm_enabled, pending: false };
                assert(alarm_read(w, before, *self, seen, Ok(alarm)));
                Ok(alarm)
            },
        }
    }

    /// Switches the alarm.
    pub fn set_alarm_enabled<F: FnMut(Access) -> u64>(
        &mut self,
        port: &mut Port<F>,
        enabled: bool,
    ) -> (result: Result<(), Ls2kRtcError>)
        requires
            old(port).wf(),
        ensures
            final(port).wf(),
            final(port).performs() == old(port).performs(),
            port::grown(final(port).log(), old(port).log()),
            exists|value: u32| #[trigger]
                switch_done(
                    value,
                    *old(self),
                    *final(self),
                    enabled,
                    port::since(final(port).log(), old(port).log()),
                    result,
                ),
    {
        let ghost start = port.log();
        let ghost before = *self;
        if self.size != 0 && self.size < MIN_ALARM_REG_SIZE {
            proof {
                assert(start + Seq::<Exchange>::empty() =~= start);
                port::lemma_grown(start, Seq::empty());
                assert(switch_done(
                    0,
                    before,
                    *self,
                    enabled,
                    Seq::empty(),
                    Err(Ls2kRtcError::RegisterWindowTooSmall),
                ));
            }
            return Err(Ls2kRtcError::RegisterWindowTooSmall);
        }
        let mut value: u32 = 0;
        match self.pm_base {
            Some(pm) => {
                match pm.checked_add(PM1_STS_REG) {
                    Some(reg) => {
                        port.write32(reg, PM_RTC_BIT);
                    },
                    None => {
                        proof {
                            let trace = alarm_switched(before, 0, enabled);
                            assert(port.log() =~= start + trace);
                            port::lemma_grown(start, trace);
                            assert(switch_done(
                                0,
                                before,
                                *self,
                                enabled,
                                trace,
                                Err(Ls2kRtcError::Overflow),
                            ));
                        }
                        return Err(Ls2kRtcError::Overflow);
                    },
                }
                value = match pm.checked_add(PM1_EN_REG) {
                    Some(reg) => port.read32(reg),
                    None => {
                        proof {
                            let trace = alarm_switched(before, 0, enabled);
                            assert(port.log() =~= start + trace);
                            port::lemma_grown(start, trace);
                            assert(switch_done(
                                0,
                                before,
                                *self,
                                enabled,
                                trace,
                                Err(Ls2kRtcError::Overflow),
                            ));
                        }
                        return Err(Ls2kRtcError::Overflow);
                    },
                };
                let switched: u32 = if enabled {
                    value | PM_RTC_BIT
                } else {
                    value & 0xffff_fbff
                };
                port.write32(pm + PM1_EN_REG, switched);
            },
            None => {
                let raw: u32 = if enabled {
                    self.alarm_match
                } else {
                    0
                };
                match self.base.checked_add(TOY_MATCH0_REG) {
                    Some(reg) => {
                        port.write32(reg, raw);
                    },
                    None => {
                        proof {
                            let trace = alarm_switched(before, 0, enabled);
                            assert(port.log() =~= start + trace);
                            port::lemma_grown(start, trace);
                            assert(switch_done(
                                0,
                                before,
                                *self,
                                enabled,
                                trace,
                                Err(Ls2kRtcError::Overflow),
                            ));
                        }
                        return Err(Ls2kRtcError::Overflow);
                    },
                }
            },
        }
        self.alarm_enabled = enabled;
        proof {
            let trace = alarm_switched(before, value, enabled);
            assert(port.log() =~= start + trace);
            port::lemma_grown(start, trace);
            assert(switch_done(value, before, *self, enabled, trace, Ok(())));
        }
        Ok(())
    }

    /// Sets the alarm.
    pub fn write_alarm_datetime<F: FnMut(Access) -> u64>(
        &mut self,
        port: &mut Port<F>,
        alarm: RtcAlarm,
    ) -> (result: Result<(), Ls2kRtcError>)
        requires
            old(port).wf(),
        ensures
            final(port).wf(),
            final(port).performs() == old(port).performs(),
            port::grown(final(port).log(), old(port).log()),
            exists|w: SetRun| #[trigger]
                alarm_set(
                    w,
                    *old(self),
                    *final(self),
                    alarm,
                    port::since(final(port).log(), old(port).log()),
                    result,
                ),
    {
        let ghost start = port.log();
        let ghost before = *self;
        let ghost mut w: SetRun = arbitrary();
        let ghost none = Seq::<Exchange>::empty();
        proof {
            assert(start + none =~= start);
            port::lemma_grown(start, none);
        }
        if self.size != 0 && self.size < MIN_ALARM_REG_SIZE {
            assert(alarm_set(
                w,
                before,
                *self,
                alarm,
                none,
                Err(Ls2kRtcError::RegisterWindowTooSmall),
            ));
            return Err(Ls2kRtcError::RegisterWindowTooSmall);
        }
        let time = alarm.time;
        if time.year < TOY_YEAR_BASE {
            assert(alarm_set(w, before, *self, alarm, none, Err(Ls2kRtcError::InvalidDate)));
            return Err(Ls2kRtcError::InvalidDate);
        }
        let window_result = self.ensure_fix_year(port);
        let ghost window_trace = port::since(port.log(), start);
        proof {
            let window = choose|window: WindowRun| #[trigger]
                window_found(window, before, *self, window_trace, window_result);
            w = SetRun { window, window_trace, window_result, found: *self, ..w };
        }
        let fix_year: u32 = match window_result {
            Ok(fix_year) => fix_year,
            Err(error) => {
                assert(alarm_set(w, before, *self, alarm, window_trace, Err(error)));
                return Err(error);
            },
        };
        let offset: u32 = time.year - TOY_YEAR_BASE;
        if offset < fix_year || offset - fix_year >= TOY_ALARM_YEAR_WINDOW {
            assert(alarm_set(
                w,
                before,
                *self,
                alarm,
                window_trace,
                Err(Ls2kRtcError::InvalidDate),
            ));
            return Err(Ls2kRtcError::InvalidDate);
        }
        let word: u32 = time.second % 64 + (time.minute % 64) * 0x40 + (time.hour % 32) * 0x1000
            + (time.day % 32) * 0x2_0000 + (time.month % 16) * 0x40_0000 + (offset - fix_year)
            * 0x400_0000;
        self.alarm_match = word;
        match self.base.checked_add(TOY_MATCH0_REG) {
            Some(reg) => {
                port.write32(reg, word);
            },
            None => {
                assert(alarm_set(
                    w,
                    before,
                    *self,
                    alarm,
                    window_trace,
                    Err(Ls2kRtcError::Overflow),
                ));
                return Err(Ls2kRtcError::Overflow);
            },
        }
        let ghost matched = *self;
        let ghost middle = port.log();
        let result = self.set_alarm_enabled(port, alarm.enabled);
        proof {
            let switch_trace = port::since(port.log(), middle);
            let value = choose|value: u32| #[trigger]
                switch_done(value, matched, *self, alarm.enabled, switch_trace, result);
            w = SetRun { value, switch_trace, ..w };
            let trace = window_trace + seq![
                port::w32((before.base + TOY_MATCH0_REG) as usize, word),
            ] + switch_trace;
            assert(port.log() =~= start + trace);
            port::lemma_grown(start, trace);
            assert(matched == (Ls2kRtc { alarm_match: word, ..w.found }));
            assert(alarm_set(w, before, *self, alarm, trace, result));
        }
        result
    }

    /// Ends an event of the alarm: only a cleared date ends it.
    pub fn acknowledge_alarm_irq<F: FnMut(Access) -> u64>(&mut self, port: &mut Port<F>) -> (result:
        Result<bool, Ls2kRtcError>)
        requires
            old(port).wf(),
        ensures
            final(port).wf(),
            final(port).performs() == old(port).performs(),
            if old(self).alarm_too_small() {
                &&& *final(self) == *old(self)
                &&& final(port).log() == old(port).log()
                &&& result == Err::<bool, Ls2kRtcError>(Ls2kRtcError::RegisterWindowTooSmall)
            } else if !reaches(old(self).base, TOY_MATCH0_REG) {
                &&& *final(self) == *old(self)
                &&& final(port).log() == old(port).log()
                &&& result == Err::<bool, Ls2kRtcError>(Ls2kRtcError::Overflow)
            } else {
                &&& *final(self) == (Ls2kRtc { alarm_enabled: false, ..*old(self) })
                &&& final(port).log() == old(port).log().push(
                    port::w32((old(self).base + TOY_MATCH0_REG) as usize, 0),
                )
                &&& result == Ok::<bool, Ls2kRtcError>(true)
            },
    {
        if self.size != 0 && self.size < MIN_ALARM_REG_SIZE {
            return Err(Ls2kRtcError::RegisterWindowTooSmall);
        }
        match self.base.checked_add(TOY_MATCH0_REG) {
            Some(reg) => {
                port.write32(reg, 0);
            },
            None => {
                return Err(Ls2kRtcError::Overflow);
            },
        }
        self.alarm_enabled = false;
        Ok(true)
    }

    /// Switches the interrupt of the alarm, if there is one.
    pub fn set_alarm_irq_enabled<F: FnMut(Access) -> u64>(
        &mut self,
        port: &mut Port<F>,
        enabled: bool,
    ) -> (result: Result<(), RtcError>)
        requires
            old(port).wf(),
        ensures
            final(port).wf(),
            final(port).performs() == old(port).performs(),
            port::grown(final(port).log(), old(port).log()),
            !old(self).alarm_irq_available ==> *final(self) == *old(self) && final(port).log()
                == old(port).log() && result == Err::<(), RtcError>(RtcError::Unsupported),
            old(self).alarm_irq_available ==> exists|value: u32, switched: Result<(), Ls2kRtcError>|
             #[trigger]
                switch_done(
                    value,
                    *old(self),
                    *final(self),
                    enabled,
                    port::since(final(port).log(), old(port).log()),
                    switched,
                ) && result == seen_outside(switched),
    {
        let ghost start = port.log();
        let ghost before = *self;
        if !self.alarm_irq_available {
            proof {
                assert(start + Seq::<Exchange>::empty() =~= start);
                port::lemma_grown(start, Seq::empty());
            }
            return Err(RtcError::Unsupported);
        }
        let switched = self.set_alarm_enabled(port, enabled);
        let ghost trace = port::since(port.log(), start);
        let ghost value = choose|value: u32| #[trigger]
            switch_done(value, before, *self, enabled, trace, switched);
        assert(switch_done(value, before, *self, enabled, trace, switched));
        match switched {
            Ok(_) => Ok(()),
            Err(error) => Err(map_ls2k_rtc_error(error)),
        }
    }

    pub fn set_alarm_irq_available(&mut self, available: bool)
        ensures
            *final(self) == (Ls2kRtc { alarm_irq_available: available, ..*old(self) }),
    {
        self.alarm_irq_available = available;
    }

    /// What the clock can do.
    pub fn features(&self) -> (features: RtcFeatures)
        ensures
            features == (RtcFeatures {
                read_time: true,
                set_time: true,
                alarm: !self.alarm_too_small(),
                alarm_irq: !self.alarm_too_small() && self.alarm_irq_available,
            }),
    {
        let alarm: bool = self.size == 0 || self.size >= MIN_ALARM_REG_SIZE;
        RtcFeatures {
            read_time: true,
            set_time: true,
            alarm,
            alarm_irq: alarm && self.alarm_irq_available,
        }
    }
}

/// The nanoseconds of a calendar that was read.
pub open spec fn unix_result(read: Result<RtcDateTime, Ls2kRtcError>) -> Result<u64, Ls2kRtcError> {
    match read {
        Ok(time) => if time.year < 1970 || time.unix_seconds() * 1_000_000_000 > u64::MAX {
            Err(Ls2kRtcError::InvalidDate)
        } else {
            Ok((time.unix_seconds() * 1_000_000_000) as u64)
        },
        Err(error) => Err(error),
    }
}

/// What callers of a clock see of an error.
pub open spec fn outside_error(error: Ls2kRtcError) -> RtcError {
    match error {
        Ls2kRtcError::RegisterWindowTooSmall
        | Ls2kRtcError::InvalidDate
        | Ls2kRtcError::Overflow => RtcError::Invalid,
        Ls2kRtcError::CounterDisabled => RtcError::Io,
        Ls2kRtcError::UnstableRead => RtcError::Busy,
    }
}

/// What callers of a clock see of a result.
pub open spec fn seen_outside(result: Result<(), Ls2kRtcError>) -> Result<(), RtcError> {
    match result {
        Ok(_) => Ok(()),
        Err(error) => Err(outside_error(error)),
    }
}

pub fn map_ls2k_rtc_error(error: Ls2kRtcError) -> (mapped: RtcError)
    ensures
        mapped == outside_error(error),
{
    match error {
        Ls2kRtcError::RegisterWindowTooSmall
        | Ls2kRtcError::InvalidDate
        | Ls2kRtcError::Overflow => RtcError::Invalid,
        Ls2kRtcError::CounterDisabled => RtcError::Io,
        Ls2kRtcError::UnstableRead => RtcError::Busy,
    }
}

/// The word of a calendar.
pub fn encode_toy_low(time: RtcDateTime) -> (word: u32)
    ensures
        word == toy_word(time),
{
    (time.second % 64) * 0x10 + (time.minute % 64) * 0x400 + (time.hour % 32) * 0x1_0000 + (
    time.day % 32) * 0x20_0000 + (time.month % 64) * 0x400_0000
}

} // verus!
