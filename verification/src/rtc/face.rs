//! What the registers of the clock hold, and how its dates follow one another.

use vstd::prelude::*;
use crate::port;
use crate::port::{Access, Exchange};
use crate::rtc::calendar::RtcDateTime;
use crate::rtc::clock;
use crate::rtc::clock::{AlarmRun, Ls2kRtc, Ls2kRtcError, ReadRun, RtcAlarm, SetRun};

verus! {

/// Whether a word of the calendar holds the fields of a date, each above the one before.
pub open spec fn holds_date(word: u32, time: RtcDateTime) -> bool {
    word - word % 16 == time.second * 0x10 + time.minute * 0x400 + time.hour * 0x1_0000 + time.day
        * 0x20_0000 + time.month * 0x400_0000
}

/// Whether a word of the alarm holds a date, of whose year it has the place in a window.
pub open spec fn holds_alarm(word: u32, time: RtcDateTime, first_year: int) -> bool {
    word == time.second + time.minute * 0x40 + time.hour * 0x1000 + time.day * 0x2_0000 + time.month
        * 0x40_0000 + (time.year - first_year) * 0x400_0000
}

/// A date that was written is in the registers of the clock: the year, counted from 1900,
/// in one and the rest in the other.
pub proof fn written_date_is_in_the_registers(
    first: u32,
    second: u32,
    enable_trace: Seq<Exchange>,
    before: Ls2kRtc,
    after: Ls2kRtc,
    time: RtcDateTime,
    trace: Seq<Exchange>,
)
    requires
        time.valid(),
        clock::calendar_written(first, second, enable_trace, before, after, time, trace, Ok(())),
    ensures
        match port::last32(trace, before.base + 0x24) {
            Some(word) => holds_date(word, time) && word % 16 == 0,
            None => false,
        },
        match port::last32(trace, before.base + 0x28) {
            Some(year) => year + 1900 == time.year,
            None => false,
        },
{
    let base = before.base;
    let low = port::w32((base + 0x24) as usize, clock::toy_word(time));
    let high = port::w32((base + 0x28) as usize, (time.year - 1900) as u32);
    let front = seq![low] + seq![high];
    assert(front =~= Seq::empty().push(low).push(high));
    lemma_word(time);
    let reg = (base + 0x40) as usize;
    reveal_with_fuel(port::last32, 4);
    assert(enable_trace =~= seq![port::r32(reg, first)] || enable_trace =~= Seq::empty().push(
        port::r32(reg, first),
    ).push(port::w32(reg, first | 0x900)).push(port::r32(reg, second)));
    port::lemma_last32_concat(front, enable_trace, base + 0x24);
    port::lemma_last32_concat(front, enable_trace, base + 0x28);
    port::lemma_last32_push(Seq::empty().push(low), high, base + 0x24);
    port::lemma_last32_push(Seq::empty().push(low), high, base + 0x28);
    port::lemma_last32_push(Seq::empty(), low, base + 0x24);
    lemma_enabling(reg, first, second, base + 0x24);
    lemma_enabling(reg, first, second, base + 0x28);
}

proof fn lemma_enabling(reg: usize, first: u32, second: u32, offset: int)
    requires
        offset != reg,
    ensures
        port::last32(seq![port::r32(reg, first)], offset) is None,
        port::last32(
            seq![port::r32(reg, first), port::w32(reg, first | 0x900), port::r32(reg, second)],
            offset,
        ) is None,
{
    let none = Seq::<Exchange>::empty();
    let a = port::r32(reg, first);
    let b = port::w32(reg, first | 0x900);
    let c = port::r32(reg, second);
    assert(seq![a] =~= none.push(a));
    assert(seq![a, b, c] =~= none.push(a).push(b).push(c));
    port::lemma_last32_push(none, a, offset);
    port::lemma_last32_push(none.push(a), b, offset);
    port::lemma_last32_push(none.push(a).push(b), c, offset);
}

proof fn lemma_word(time: RtcDateTime)
    requires
        time.valid(),
    ensures
        holds_date(clock::toy_word(time), time),
        clock::toy_word(time) % 16 == 0,
{
    assert(time.second % 64 == time.second);
    assert(time.minute % 64 == time.minute);
    assert(time.hour % 32 == time.hour);
    assert(time.day % 32 == time.day);
    assert(time.month % 64 == time.month);
}

proof fn lemma_date_fields(word: u32)
    by (bit_vector)
    ensures
        word - word % 16 == (word / 0x10 % 64) * 0x10 + (word / 0x400 % 64) * 0x400 + (word
            / 0x1_0000 % 32) * 0x1_0000 + (word / 0x20_0000 % 32) * 0x20_0000 + (word / 0x400_0000
            % 64) * 0x400_0000,
{
}

proof fn lemma_alarm_fields(word: u32)
    by (bit_vector)
    ensures
        word == word % 64 + (word / 0x40 % 64) * 0x40 + (word / 0x1000 % 32) * 0x1000 + (word
            / 0x2_0000 % 32) * 0x2_0000 + (word / 0x40_0000 % 16) * 0x40_0000 + (word / 0x400_0000)
            * 0x400_0000,
{
}

/// A date that was read is what the registers of the clock held, with the same year before
/// and behind the rest, and there is such a date.
pub proof fn read_date_is_from_the_registers(
    w: ReadRun,
    before: Ls2kRtc,
    after: Ls2kRtc,
    trace: Seq<Exchange>,
    time: RtcDateTime,
)
    requires
        clock::reaches(before.base, 0x40),
        clock::calendar_read(w, before, after, trace, Ok(time)),
    ensures
        time.valid(),
        trace.len() >= 3,
        ({
            let year = trace[trace.len() - 3];
            let rest = trace[trace.len() - 2];
            let again = trace[trace.len() - 1];
            &&& year.access == Access::Read32((before.base + 0x30) as usize)
            &&& rest.access == Access::Read32((before.base + 0x2c) as usize)
            &&& again.access == Access::Read32((before.base + 0x30) as usize)
            &&& year.reply == again.reply
            &&& time.year == year.reply + 1900
            &&& holds_date(rest.reply as u32, time)
        }),
{
    lemma_date_fields(w.looks.last().word);
    let last = clock::look_trace(before.base, w.looks.last());
    let front = w.enable_trace + clock::looks_trace(before.base, w.looks.drop_last());
    assert(trace =~= front + last);
}

/// A date of the calendar that follows another by a second.
pub open spec fn next_second(time: RtcDateTime) -> RtcDateTime {
    let leap = if time.year % 400 == 0 || (time.year % 4 == 0 && time.year % 100 != 0) {
        1int
    } else {
        0
    };
    let lengths = seq![31int, 28 + leap, 31, 30, 31, 30, 31, 31, 30, 31, 30, 31];
    if time.second < 59 {
        RtcDateTime { second: (time.second + 1) as u32, ..time }
    } else if time.minute < 59 {
        RtcDateTime { minute: (time.minute + 1) as u32, second: 0, ..time }
    } else if time.hour < 23 {
        RtcDateTime { hour: (time.hour + 1) as u32, minute: 0, second: 0, ..time }
    } else if time.day < lengths[time.month - 1] {
        RtcDateTime { day: (time.day + 1) as u32, hour: 0, minute: 0, second: 0, ..time }
    } else if time.month < 12 {
        RtcDateTime {
            month: (time.month + 1) as u32,
            day: 1,
            hour: 0,
            minute: 0,
            second: 0,
            ..time
        }
    } else {
        RtcDateTime {
            year: (time.year + 1) as u32,
            month: 1,
            day: 1,
            hour: 0,
            minute: 0,
            second: 0,
        }
    }
}

/// The seconds since 1970 begin with zero, and grow by one from a date to the next.
pub proof fn seconds_are_counted(time: RtcDateTime)
    requires
        time.valid(),
        1970 <= time.year < u32::MAX,
    ensures
        (RtcDateTime { year: 1970, month: 1, day: 1, hour: 0, minute: 0, second: 0 }).valid(),
        (RtcDateTime { year: 1970, month: 1, day: 1, hour: 0, minute: 0, second: 0 }).unix_seconds()
            == 0,
        next_second(time).valid(),
        next_second(time).unix_seconds() == time.unix_seconds() + 1,
{
    reveal_with_fuel(crate::rtc::calendar::days_before_month, 14);
    reveal_with_fuel(crate::rtc::calendar::days_before_year, 2);
}

/// An alarm that was set is in its register: the place of its year in the window of the
/// clock, and the rest below.
pub proof fn set_alarm_is_in_the_register(
    w: SetRun,
    before: Ls2kRtc,
    after: Ls2kRtc,
    alarm: RtcAlarm,
    trace: Seq<Exchange>,
)
    requires
        alarm.time.valid(),
        clock::alarm_set(w, before, after, alarm, trace, Ok(())),
    ensures
        after.alarm_enabled == alarm.enabled,
        holds_alarm(after.alarm_match, alarm.time, w.found.fix_year_offset + 1900),
        trace.len() > w.window_trace.len(),
        trace[w.window_trace.len() as int].access == Access::Write32(
            (before.base + 0x34) as usize,
            after.alarm_match,
        ),
{
    let time = alarm.time;
    assert(time.second % 64 == time.second);
    assert(time.minute % 64 == time.minute);
    assert(time.hour % 32 == time.hour);
    assert(time.day % 32 == time.day);
    assert(time.month % 16 == time.month);
    assert(trace[w.window_trace.len() as int] == port::w32(
        (before.base + 0x34) as usize,
        after.alarm_match,
    ));
}

/// An alarm that was read is the one that its register held, or that was set last if the
/// register holds none.
pub proof fn read_alarm_is_from_the_register(
    w: AlarmRun,
    before: Ls2kRtc,
    after: Ls2kRtc,
    trace: Seq<Exchange>,
    alarm: RtcAlarm,
)
    requires
        clock::alarm_read(w, before, after, trace, Ok(alarm)),
    ensures
        alarm.time.valid(),
        holds_alarm(after.alarm_match, alarm.time, w.window_result->Ok_0 + 1900),
        trace.len() > w.window_trace.len(),
        ({
            let read = trace[w.window_trace.len() as int];
            &&& read.access == Access::Read32((before.base + 0x34) as usize)
            &&& read.reply != 0 ==> read.reply == after.alarm_match
            &&& read.reply == 0 ==> after.alarm_match == w.found.alarm_match
        }),
{
    lemma_alarm_fields(after.alarm_match);
    let seen = w.window_trace.push(port::r32((before.base + 0x34) as usize, w.word));
    assert(trace[w.window_trace.len() as int] == seen.last());
}

/// The alarm is switched by one bit of the power management, of which nothing else
/// changes, and an old event is cleared first. A clock without it is given the date of the
/// alarm, or none.
pub proof fn alarm_is_switched(
    value: u32,
    before: Ls2kRtc,
    after: Ls2kRtc,
    enabled: bool,
    trace: Seq<Exchange>,
)
    requires
        clock::switch_done(value, before, after, enabled, trace, Ok(())),
    ensures
        after.alarm_enabled == enabled,
        match before.pm_base {
            Some(pm) => {
                &&& trace.len() == 3
                &&& trace[0].access == Access::Write32((pm + 0xc) as usize, 0x400)
                &&& trace[1].access == Access::Read32((pm + 0x10) as usize)
                &&& trace[2].access matches Access::Write32(at, written) && {
                    &&& at == pm + 0x10
                    &&& (written / 0x400 % 2 == 1) == enabled
                    &&& written % 0x400 == trace[1].reply as u32 % 0x400
                    &&& written / 0x800 == trace[1].reply as u32 / 0x800
                }
            },
            None => {
                &&& trace.len() == 1
                &&& trace[0].access == Access::Write32(
                    (before.base + 0x34) as usize,
                    if enabled {
                        before.alarm_match
                    } else {
                        0
                    },
                )
            },
        },
{
    assert((value | 0x400) / 0x400 % 2 == 1 && (value | 0x400) % 0x400 == value % 0x400 && (value
        | 0x400) / 0x800 == value / 0x800 && (value & 0xffff_fbff) / 0x400 % 2 == 0 && (value
        & 0xffff_fbff) % 0x400 == value % 0x400 && (value & 0xffff_fbff) / 0x800 == value / 0x800)
        by (bit_vector);
}

} // verus!
