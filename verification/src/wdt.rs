//! The watchdog of the board.

use vstd::prelude::*;
use crate::platform;
use crate::platform::{PnpError, PnpResourceKind, has_id};
use crate::port;
use crate::port::{Access, Exchange, Port};

verus! {

pub const COMPAT_LOONGSON_LS2X_WDT: &'static str = "loongson,ls2x-wdt";

pub const WDT_EN_REG: usize = 0x0;

pub const WDT_TMR_REG: usize = 0x4;

pub const WDT_CNT_REG: usize = 0x8;

/// A timer with this count does not run.
pub const WDT_TMR_DISABLED: u32 = 0xffff_ffff;

pub const WDT_EN_BIT: u32 = 1;

pub const MIN_REG_SIZE: usize = 12;

#[derive(Clone, Copy, PartialEq, Eq, Structural, Debug)]
pub enum Ls2xWdtError {
    RegisterWindowTooSmall,
    Overflow,
}

/// What callers of a watchdog see of an error.
#[derive(Clone, Copy, PartialEq, Eq, Structural, Debug)]
pub enum WdtError {
    Invalid,
}

/// A watchdog.
#[derive(Clone, Copy, PartialEq, Eq, Structural, Debug)]
pub struct Ls2xWdt {
    pub base: usize,
    /// How many registers there are, or zero if that is not known.
    pub size: usize,
    pub clk_hz: u64,
    pub running: bool,
    pub timeout_secs: u32,
}

/// The longest time that the timer can count.
pub open spec fn longest(clk_hz: u64) -> u32 {
    if clk_hz == 0 {
        0
    } else {
        (u32::MAX as u64 / clk_hz) as u32
    }
}

/// The count for a time, or none if it is beyond all bounds.
pub open spec fn ticks(secs: u32, clk_hz: u64) -> Result<u32, Ls2xWdtError> {
    if secs * clk_hz > u64::MAX {
        Err(Ls2xWdtError::Overflow)
    } else if secs * clk_hz > u32::MAX {
        Ok(u32::MAX)
    } else {
        Ok((secs * clk_hz) as u32)
    }
}

/// A time within the bounds of the timer is counted in full.
pub proof fn longest_is_counted(secs: u32, clk_hz: u64)
    requires
        secs <= longest(clk_hz),
    ensures
        ticks(secs, clk_hz) == Ok::<u32, Ls2xWdtError>((secs * clk_hz) as u32),
        secs * clk_hz <= u32::MAX,
{
    if clk_hz != 0 {
        assert(secs * clk_hz <= u32::MAX) by (nonlinear_arith)
            requires
                clk_hz > 0,
                secs <= 0xffff_ffffu64 / clk_hz,
        ;
    } else {
        assert(secs * clk_hz == 0) by (nonlinear_arith)
            requires
                clk_hz == 0,
        ;
    }
}

/// No time is longer than the longest that the timer can count: a second more does not fit
/// its register.
pub proof fn longest_is_the_longest(clk_hz: u64)
    requires
        0 < clk_hz <= u32::MAX,
    ensures
        longest(clk_hz) * clk_hz <= 0xffff_ffff,
        (longest(clk_hz) + 1) * clk_hz > 0xffff_ffff,
{
    let secs = 0xffff_ffffu64 / clk_hz;
    assert(secs * clk_hz <= 0xffff_ffff && (secs + 1) * clk_hz > 0xffff_ffff && secs <= 0xffff_ffff)
        by (nonlinear_arith)
        requires
            clk_hz > 0,
            secs == 0xffff_ffffu64 / clk_hz,
    ;
}

/// The timer is loaded with one tick for each period of the clock in the time, in the
/// register behind the one that switches it on.
pub proof fn timer_is_loaded_with_the_time(wdt: Ls2xWdt, secs: u32)
    requires
        !wdt.load_error(secs),
        secs <= longest(wdt.clk_hz),
    ensures
        wdt.loaded(secs).access matches Access::Write32(at, count) && at == wdt.base + 4 && count
            == secs * wdt.clk_hz,
{
    longest_is_counted(secs, wdt.clk_hz);
}

/// The watchdog is switched by the lowest bit of its register, of which nothing else
/// changes.
pub proof fn lowest_bit_switches(enable: u32)
    ensures
        WDT_EN_REG == 0,
        (enable | WDT_EN_BIT) % 2 == 1,
        (enable | WDT_EN_BIT) / 2 == enable / 2,
        (enable & 0xffff_fffe) % 2 == 0,
        (enable & 0xffff_fffe) / 2 == enable / 2,
{
    assert((enable | 1) % 2 == 1 && (enable | 1) / 2 == enable / 2 && (enable & 0xffff_fffe) % 2
        == 0 && (enable & 0xffff_fffe) / 2 == enable / 2) by (bit_vector);
}

/// What callers of a watchdog see of an error.
pub fn map_ls2x_wdt_error(error: Ls2xWdtError) -> (mapped: WdtError)
    ensures
        mapped == WdtError::Invalid,
{
    match error {
        Ls2xWdtError::RegisterWindowTooSmall | Ls2xWdtError::Overflow => WdtError::Invalid,
    }
}

impl Ls2xWdt {
    /// Whether the timer has an address.
    pub open spec fn reaches_timer(&self) -> bool {
        self.base + WDT_TMR_REG <= usize::MAX
    }

    pub open spec fn too_small(&self) -> bool {
        self.size != 0 && self.size < MIN_REG_SIZE
    }

    /// Why the timer cannot be loaded with a time.
    pub open spec fn load_error(&self, secs: u32) -> bool {
        ticks(secs, self.clk_hz) is Err || self.too_small() || !self.reaches_timer()
    }

    /// The access that loads the timer.
    pub open spec fn loaded(&self, secs: u32) -> Exchange {
        port::w32((self.base + WDT_TMR_REG) as usize, ticks(secs, self.clk_hz)->Ok_0)
    }

    pub fn new(base: usize, size: usize, clk_hz: u64) -> (wdt: Self)
        ensures
            wdt == (Ls2xWdt { base, size, clk_hz, running: false, timeout_secs: 0 }),
    {
        Ls2xWdt { base, size, clk_hz, running: false, timeout_secs: 0 }
    }

    /// The longest time that the timer can count.
    pub fn max_timeout_secs(&self) -> (secs: u32)
        ensures
            secs == longest(self.clk_hz),
    {
        if self.clk_hz == 0 {
            return 0;
        }
        let secs: u64 = u32::MAX as u64 / self.clk_hz;
        proof {
            assert(u32::MAX as u64 / self.clk_hz <= u32::MAX) by (nonlinear_arith)
                requires
                    self.clk_hz > 0,
            ;
        }
        secs as u32
    }

    pub fn timeout_secs(&self) -> (secs: u32)
        ensures
            secs == self.timeout_secs,
    {
        self.timeout_secs
    }

    /// The count for a time.
    pub fn count_for(&self, secs: u32) -> (result: Result<u32, Ls2xWdtError>)
        ensures
            result == ticks(secs, self.clk_hz),
    {
        match (secs as u64).checked_mul(self.clk_hz) {
            None => Err(Ls2xWdtError::Overflow),
            Some(ticks) => {
                if ticks > u32::MAX as u64 {
                    Ok(u32::MAX)
                } else {
                    Ok(ticks as u32)
                }
            },
        }
    }

    /// Loads the timer.
    fn write_timer<F: FnMut(Access) -> u64>(&self, port: &mut Port<F>, secs: u32) -> (result: Result<
        (),
        WdtError,
    >)
        requires
            old(port).wf(),
        ensures
            final(port).wf(),
            final(port).performs() == old(port).performs(),
            (result is Err) == self.load_error(secs),
            final(port).log() == if result is Ok {
                old(port).log().push(self.loaded(secs))
            } else {
                old(port).log()
            },
    {
        let count: u32 = match self.count_for(secs) {
            Ok(count) => count,
            Err(error) => {
                return Err(map_ls2x_wdt_error(error));
            },
        };
        if self.size != 0 && self.size < MIN_REG_SIZE {
            return Err(map_ls2x_wdt_error(Ls2xWdtError::RegisterWindowTooSmall));
        }
        match self.base.checked_add(WDT_TMR_REG) {
            Some(timer) => {
                port.write32(timer, count);
                Ok(())
            },
            None => Err(map_ls2x_wdt_error(Ls2xWdtError::Overflow)),
        }
    }

    /// Sets the time, as far as the timer can count.
    pub fn set_timeout<F: FnMut(Access) -> u64>(&mut self, port: &mut Port<F>, secs: u32) -> (result:
        Result<u32, WdtError>)
        requires
            old(port).wf(),
        ensures
            final(port).wf(),
            final(port).performs() == old(port).performs(),
            ({
                let actual = if secs < longest(old(self).clk_hz) {
                    secs
                } else {
                    longest(old(self).clk_hz)
                };
                if old(self).too_small() || !old(self).reaches_timer() {
                    &&& *final(self) == *old(self)
                    &&& final(port).log() == old(port).log()
                    &&& result == Err::<u32, WdtError>(WdtError::Invalid)
                } else {
                    &&& *final(self) == (Ls2xWdt { timeout_secs: actual, ..*old(self) })
                    &&& final(port).log() == old(port).log().push(old(self).loaded(actual))
                    &&& result == Ok::<u32, WdtError>(actual)
                }
            }),
    {
        let longest_secs: u32 = self.max_timeout_secs();
        let actual: u32 = if secs < longest_secs {
            secs
        } else {
            longest_secs
        };
        proof {
            longest_is_counted(actual, self.clk_hz);
        }
        match self.write_timer(port, actual) {
            Ok(_) => {
                self.timeout_secs = actual;
                Ok(actual)
            },
            Err(error) => Err(error),
        }
    }

    /// Starts the watchdog; the timer is loaded first.
    pub fn start<F: FnMut(Access) -> u64>(&mut self, port: &mut Port<F>) -> (result: Result<
        (),
        WdtError,
    >)
        requires
            old(port).wf(),
        ensures
            final(port).wf(),
            final(port).performs() == old(port).performs(),
            (result is Err) == old(self).load_error(old(self).timeout_secs),
            result is Err ==> *final(self) == *old(self) && final(port).log() == old(port).log(),
            result is Ok ==> *final(self) == (Ls2xWdt { running: true, ..*old(self) })
                && exists|enable: u32|
                final(port).log() == old(port).log() + seq![
                    old(self).loaded(old(self).timeout_secs),
                    #[trigger] port::r32(old(self).base, enable),
                    port::w32(old(self).base, enable | WDT_EN_BIT),
                ],
    {
        let ghost start = port.log();
        match self.write_timer(port, self.timeout_secs) {
            Ok(_) => {},
            Err(error) => {
                return Err(error);
            },
        }
        let enable: u32 = port.read32(self.base + WDT_EN_REG);
        port.write32(self.base + WDT_EN_REG, enable | WDT_EN_BIT);
        self.running = true;
        assert(port.log() =~= start + seq![
            old(self).loaded(old(self).timeout_secs),
            port::r32(self.base, enable),
            port::w32(self.base, enable | WDT_EN_BIT),
        ]);
        Ok(())
    }

    /// Stops the watchdog and its timer.
    pub fn stop<F: FnMut(Access) -> u64>(&mut self, port: &mut Port<F>) -> (result: Result<
        (),
        WdtError,
    >)
        requires
            old(port).wf(),
        ensures
            final(port).wf(),
            final(port).performs() == old(port).performs(),
            result == if old(self).too_small() || !old(self).reaches_timer() {
                Err::<(), WdtError>(WdtError::Invalid)
            } else {
                Ok(())
            },
            result is Err ==> *final(self) == *old(self),
            old(self).too_small() ==> final(port).log() == old(port).log(),
            result is Ok ==> *final(self) == (Ls2xWdt { running: false, ..*old(self) }),
            !old(self).too_small() ==> exists|enable: u32|
                final(port).log() == old(port).log() + seq![
                    #[trigger] port::r32(old(self).base, enable),
                    port::w32(old(self).base, enable & 0xffff_fffe),
                ] + (if result is Ok {
                    seq![port::w32((old(self).base + WDT_TMR_REG) as usize, WDT_TMR_DISABLED)]
                } else {
                    Seq::empty()
                }),
    {
        let ghost start = port.log();
        if self.size != 0 && self.size < MIN_REG_SIZE {
            return Err(map_ls2x_wdt_error(Ls2xWdtError::RegisterWindowTooSmall));
        }
        let enable: u32 = port.read32(self.base + WDT_EN_REG);
        port.write32(self.base + WDT_EN_REG, enable & 0xffff_fffe);
        let ghost switched = seq![
            port::r32(self.base, enable),
            port::w32(self.base, enable & 0xffff_fffe),
        ];
        match self.base.checked_add(WDT_TMR_REG) {
            Some(timer) => {
                port.write32(timer, WDT_TMR_DISABLED);
                self.running = false;
                assert(port.log() =~= start + switched + seq![
                    port::w32((self.base + WDT_TMR_REG) as usize, WDT_TMR_DISABLED),
                ]);
                Ok(())
            },
            None => {
                assert(port.log() =~= start + switched + Seq::<Exchange>::empty());
                Err(map_ls2x_wdt_error(Ls2xWdtError::Overflow))
            },
        }
    }

    /// Begins the time anew.
    pub fn ping<F: FnMut(Access) -> u64>(&self, port: &mut Port<F>) -> (result: Result<(), WdtError>)
        requires
            old(port).wf(),
        ensures
            final(port).wf(),
            final(port).performs() == old(port).performs(),
            (result is Err) == self.load_error(self.timeout_secs),
            final(port).log() == if result is Ok {
                old(port).log().push(self.loaded(self.timeout_secs))
            } else {
                old(port).log()
            },
    {
        self.write_timer(port, self.timeout_secs)
    }

    /// Whether the watchdog runs.
    pub fn running<F: FnMut(Access) -> u64>(&self, port: &mut Port<F>) -> (runs: bool)
        requires
            old(port).wf(),
        ensures
            final(port).wf(),
            final(port).performs() == old(port).performs(),
            self.too_small() ==> final(port).log() == old(port).log() && runs == self.running,
            !self.too_small() ==> exists|enable: u32|
                final(port).log() == old(port).log().push(
                    #[trigger] port::r32(self.base, enable),
                ) && runs == (enable % 2 == 1),
    {
        if self.size != 0 && self.size < MIN_REG_SIZE {
            return self.running;
        }
        let enable: u32 = port.read32(self.base + WDT_EN_REG);
        assert(port.log() == old(port).log().push(port::r32(self.base, enable)));
        enable % 2 == 1
    }
}

/// The driver, with the function that maps the registers of a device.
pub struct Ls2xWdtPlatformDriver<M> {
    pub device_mmio_to_virt: M,
}

impl<M> Ls2xWdtPlatformDriver<M> {
    pub fn new(device_mmio_to_virt: M) -> (driver: Self)
        ensures
            driver.device_mmio_to_virt == device_mmio_to_virt,
    {
        Ls2xWdtPlatformDriver { device_mmio_to_virt }
    }
}

/// Whether a device with these names is a watchdog of this driver.
pub fn matches_platform(ids: &Vec<String>) -> (matching: bool)
    ensures
        matching == platform::compatible(ids@, COMPAT_LOONGSON_LS2X_WDT@),
{
    has_id(ids, COMPAT_LOONGSON_LS2X_WDT)
}

/// What the board said of the clock of the watchdog.
#[derive(Clone, Copy, PartialEq, Eq, Debug)]
pub enum ClockAnswer {
    /// The clock runs at a rate.
    Rate(u64),
    /// The clock runs, and has no rate.
    NoRate,
    /// No clock is described.
    Undescribed,
    Failed(PnpError),
}

/// The rate of the clock: that of the clock itself, or, without one, the one that
/// the device itself states.
pub open spec fn clock_rate(answer: ClockAnswer, stated_hz: Option<u32>) -> Result<u64, PnpError> {
    match answer {
        ClockAnswer::Failed(error) => Err(error),
        ClockAnswer::NoRate => Err(PnpError::HardwareFailure("wdt clock has no rate")),
        ClockAnswer::Rate(hz) => if hz == 0 {
            Err(PnpError::HardwareFailure("wdt clock rate is zero"))
        } else {
            Ok(hz)
        },
        ClockAnswer::Undescribed => match stated_hz {
            Some(hz) => if hz != 0 {
                Ok(hz as u64)
            } else {
                Err(PnpError::HardwareFailure("wdt has no clock rate source"))
            },
            None => Err(PnpError::HardwareFailure("wdt has no clock rate source")),
        },
    }
}

pub fn acquire_clock(answer: ClockAnswer, stated_hz: Option<u32>) -> (result: Result<u64, PnpError>)
    ensures
        result == clock_rate(answer, stated_hz),
{
    match answer {
        ClockAnswer::Failed(error) => Err(error),
        ClockAnswer::NoRate => Err(PnpError::HardwareFailure("wdt clock has no rate")),
        ClockAnswer::Rate(hz) => {
            if hz == 0 {
                Err(PnpError::HardwareFailure("wdt clock rate is zero"))
            } else {
                Ok(hz)
            }
        },
        ClockAnswer::Undescribed => match stated_hz {
            Some(hz) => {
                if hz != 0 {
                    Ok(hz as u64)
                } else {
                    Err(PnpError::HardwareFailure("wdt has no clock rate source"))
                }
            },
            None => Err(PnpError::HardwareFailure("wdt has no clock rate source")),
        },
    }
}

/// The registers of a watchdog.
pub fn check_window(first: Option<(usize, usize)>) -> (result: Result<(usize, usize), PnpError>)
    ensures
        result == match first {
            Some(range) => Ok::<(usize, usize), PnpError>(range),
            None => Err(PnpError::Missing(PnpResourceKind::Mmio, "wdt reg missing")),
        },
{
    match first {
        Some(range) => Ok(range),
        None => Err(PnpError::Missing(PnpResourceKind::Mmio, "wdt reg missing")),
    }
}

/// The longest time of a watchdog that is to be bound; it must be able to count a
/// second.
pub fn check_rate(wdt: &Ls2xWdt) -> (result: Result<u32, PnpError>)
    ensures
        result == if longest(wdt.clk_hz) == 0 {
            Err::<u32, PnpError>(PnpError::HardwareFailure("wdt clock rate too large"))
        } else {
            Ok(longest(wdt.clk_hz))
        },
{
    let secs: u32 = wdt.max_timeout_secs();
    if secs == 0 {
        Err(PnpError::HardwareFailure("wdt clock rate too large"))
    } else {
        Ok(secs)
    }
}

/// Gives a watchdog that is known its longest time.
pub fn set_first_timeout<F: FnMut(Access) -> u64>(wdt: &mut Ls2xWdt, port: &mut Port<F>) -> (result:
    Result<u32, PnpError>)
    requires
        old(port).wf(),
        longest(old(wdt).clk_hz) > 0,
    ensures
        final(port).wf(),
        final(port).performs() == old(port).performs(),
        ({
            let secs = longest(old(wdt).clk_hz);
            if old(wdt).too_small() || !old(wdt).reaches_timer() {
                &&& *final(wdt) == *old(wdt)
                &&& final(port).log() == old(port).log()
                &&& result == Err::<u32, PnpError>(
                    PnpError::HardwareFailure("wdt initial timeout setup failed"),
                )
            } else {
                &&& *final(wdt) == (Ls2xWdt { timeout_secs: secs, ..*old(wdt) })
                &&& final(port).log() == old(port).log().push(old(wdt).loaded(secs))
                &&& result == Ok::<u32, PnpError>(secs)
            }
        }),
{
    let secs: u32 = wdt.max_timeout_secs();
    match wdt.set_timeout(port, secs) {
        Ok(actual) => Ok(actual),
        Err(_) => Err(PnpError::HardwareFailure("wdt initial timeout setup failed")),
    }
}

} // verus!
