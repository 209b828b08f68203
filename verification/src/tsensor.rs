//! The temperature sensor of the board.

use vstd::prelude::*;
use crate::platform;
use crate::platform::{PnpError, PnpResourceKind, has_id};
use crate::port;
use crate::port::{Access, Port};
use crate::text;

verus! {

pub const COMPAT_LOONGSON_LS2K_TSENSOR: &'static str = "loongson,ls2k-tsensor";

pub const THSENS_CTRL_HI_REG: usize = 0x0;

pub const THSENS_CTRL_LOW_REG: usize = 0x8;

pub const THSENS_STATUS_REG: usize = 0x10;

pub const THSENS_OUT_REG: usize = 0x14;

pub const MIN_REG_SIZE: usize = 0x18;

pub const INT_EN: u16 = 3;

pub const CTRL_ENABLE: u16 = 0x100;

pub const DEFAULT_LOW_C: i32 = 60;

/// The class of the function of a sensor.
pub const THERMAL_CLASS: u64 = 0x6c73_326b_7473_6e73;

/// The requests that the function of a sensor answers.
pub const THERMAL_CONTRACT: &'static str = "mygo.device.thermal@1;1=read_temp_milli:i32";

pub const DEFAULT_HIGH_C: i32 = 95;

/// What a caller of a function of a device sees of an error.
#[derive(Clone, Copy, PartialEq, Eq, Structural, Debug)]
pub enum InvokeError {
    Gone,
    Invalid,
    Unsupported,
    Busy,
    Fault,
}

/// A sensor.
#[derive(Clone, Copy, PartialEq, Eq, Structural, Debug)]
pub struct Ls2kTsensor {
    pub active: bool,
    pub last_temp_milli: i32,
    pub threshold_crossings: usize,
}

/// The word of a threshold: degrees above minus one hundred, and that it counts.
pub open spec fn threshold_word(celsius: int) -> u16 {
    let degrees = if celsius + 100 < 0 {
        0
    } else if celsius + 100 > 0x7fff {
        0x7fff
    } else {
        celsius + 100
    };
    (degrees as u16) | CTRL_ENABLE
}

fn encode_threshold(celsius: i32) -> (word: u16)
    ensures
        word == threshold_word(celsius as int),
{
    let degrees: i64 = celsius as i64 + 100;
    let clamped: u16 = if degrees < 0 {
        0
    } else if degrees > 0x7fff {
        0x7fff
    } else {
        degrees as u16
    };
    clamped | CTRL_ENABLE
}

/// The temperature of a word, in thousandths of a degree.
pub open spec fn temperature(word: u32) -> int {
    (word as int % 256 - 100) * 1000
}

/// A threshold is a temperature: the sensor reads a threshold's own word as the threshold.
/// The bit above the degrees says that it counts.
pub proof fn thresholds_are_temperatures(celsius: int)
    requires
        -100 <= celsius < 156,
    ensures
        temperature(threshold_word(celsius) as u32) == celsius * 1000,
        threshold_word(celsius) / 0x100 == 1,
{
    let degrees = (celsius + 100) as u16;
    assert((degrees | 0x100) % 256 == degrees && (degrees | 0x100) / 0x100 == 1) by (bit_vector)
        requires
            degrees < 256,
    ;
}

/// A word that is one higher is a degree more; a word of 100 is the freezing point.
pub proof fn temperature_grows_by_degrees(word: u32)
    requires
        word % 256 < 255,
    ensures
        temperature(100) == 0,
        temperature((word + 1) as u32) == temperature(word) + 1000,
        word >= 256 ==> temperature(word) == temperature((word - 256) as u32),
{
}

/// The bytes of a temperature are those of a signed number of 32 bits, the lowest first.
pub proof fn temperature_is_in_its_bytes(milli: i32)
    ensures
        ({
            let bytes = milli_bytes(milli as int);
            let number = bytes[0] + bytes[1] * 0x100 + bytes[2] * 0x1_0000 + bytes[3] * 0x100_0000;
            &&& bytes.len() == 4
            &&& number == (if milli < 0 {
                milli + 0x1_0000_0000
            } else {
                milli as int
            })
        }),
{
    let word = milli as int % 0x1_0000_0000;
    assert(word / 256 / 256 == word / 65536);
    assert(word / 65536 / 256 == word / 16777216);
}

impl Ls2kTsensor {
    /// Sets the thresholds and switches the interrupt on.
    pub fn new<F: FnMut(Access) -> u64>(port: &mut Port<F>) -> (result: Result<Self, &'static str>)
        requires
            old(port).wf(),
        ensures
            final(port).wf(),
            final(port).performs() == old(port).performs(),
            result == Ok::<Self, &'static str>(
                Ls2kTsensor { active: true, last_temp_milli: 0, threshold_crossings: 0 },
            ),
            final(port).log() == old(port).log() + seq![
                port::w16(THSENS_CTRL_LOW_REG, threshold_word(60)),
                port::w16(THSENS_CTRL_HI_REG, threshold_word(95)),
                port::w16(THSENS_STATUS_REG, INT_EN),
            ],
    {
        let ghost start = port.log();
        Self::set_threshold(port, DEFAULT_LOW_C, DEFAULT_HIGH_C);
        port.write16(THSENS_STATUS_REG, INT_EN);
        assert(port.log() =~= start + seq![
            port::w16(THSENS_CTRL_LOW_REG, threshold_word(60)),
            port::w16(THSENS_CTRL_HI_REG, threshold_word(95)),
            port::w16(THSENS_STATUS_REG, INT_EN),
        ]);
        Ok(Ls2kTsensor { active: true, last_temp_milli: 0, threshold_crossings: 0 })
    }

    /// Sets the thresholds, in degrees.
    pub fn set_threshold<F: FnMut(Access) -> u64>(port: &mut Port<F>, low_c: i32, high_c: i32)
        requires
            old(port).wf(),
        ensures
            final(port).wf(),
            final(port).performs() == old(port).performs(),
            final(port).log() == old(port).log() + seq![
                port::w16(THSENS_CTRL_LOW_REG, threshold_word(low_c as int)),
                port::w16(THSENS_CTRL_HI_REG, threshold_word(high_c as int)),
            ],
    {
        let ghost start = port.log();
        port.write16(THSENS_CTRL_LOW_REG, encode_threshold(low_c));
        port.write16(THSENS_CTRL_HI_REG, encode_threshold(high_c));
        assert(port.log() =~= start + seq![
            port::w16(THSENS_CTRL_LOW_REG, threshold_word(low_c as int)),
            port::w16(THSENS_CTRL_HI_REG, threshold_word(high_c as int)),
        ]);
    }

    /// Reads the temperature, in thousandths of a degree.
    pub fn read_temp_milli<F: FnMut(Access) -> u64>(&mut self, port: &mut Port<F>) -> (milli: i32)
        requires
            old(port).wf(),
        ensures
            final(port).wf(),
            final(port).performs() == old(port).performs(),
            *final(self) == (Ls2kTsensor { last_temp_milli: milli, ..*old(self) }),
            exists|word: u32|
                final(port).log() == old(port).log().push(
                    #[trigger] port::r32(THSENS_OUT_REG, word),
                ) && milli == temperature(word),
    {
        let word: u32 = port.read32(THSENS_OUT_REG);
        let raw: i32 = (word % 256) as i32;
        let milli: i32 = (raw - 100) * 1000;
        self.last_temp_milli = milli;
        milli
    }

    /// Ends an event: the temperature is read, and the event counted.
    pub fn acknowledge<F: FnMut(Access) -> u64>(&mut self, port: &mut Port<F>) -> (done: bool)
        requires
            old(port).wf(),
        ensures
            final(port).wf(),
            final(port).performs() == old(port).performs(),
            done,
            exists|word: u32|
                final(port).log() == old(port).log() + seq![
                    port::w16(THSENS_STATUS_REG, INT_EN),
                    #[trigger] port::r32(THSENS_OUT_REG, word),
                ] && *final(self) == (Ls2kTsensor {
                    active: old(self).active,
                    last_temp_milli: temperature(word) as i32,
                    threshold_crossings: crossed(old(self).threshold_crossings),
                }),
    {
        let ghost start = port.log();
        port.write16(THSENS_STATUS_REG, INT_EN);
        let ghost middle = port.log();
        let milli: i32 = self.read_temp_milli(port);
        let ghost word = choose|word: u32|
            port.log() == middle.push(#[trigger] port::r32(THSENS_OUT_REG, word)) && milli
                == temperature(word);
        self.threshold_crossings = if self.threshold_crossings == usize::MAX {
            0
        } else {
            self.threshold_crossings + 1
        };
        assert(port.log() =~= start + seq![
            port::w16(THSENS_STATUS_REG, INT_EN),
            port::r32(THSENS_OUT_REG, word),
        ]);
        true
    }

    pub fn is_active(&self) -> (active: bool)
        ensures
            active == self.active,
    {
        self.active
    }

    pub fn mark_gone(&mut self)
        ensures
            *final(self) == (Ls2kTsensor { active: false, ..*old(self) }),
    {
        self.active = false;
    }

    pub fn last_temp_milli(&self) -> (milli: i32)
        ensures
            milli == self.last_temp_milli,
    {
        self.last_temp_milli
    }

    pub fn threshold_crossings(&self) -> (crossings: usize)
        ensures
            crossings == self.threshold_crossings,
    {
        self.threshold_crossings
    }

    /// Handles an interrupt; that of a sensor that is gone is nobody's.
    pub fn handle_irq<F: FnMut(Access) -> u64>(&mut self, port: &mut Port<F>) -> (handled: bool)
        requires
            old(port).wf(),
        ensures
            final(port).wf(),
            final(port).performs() == old(port).performs(),
            handled == old(self).active,
            !handled ==> *final(self) == *old(self) && final(port).log() == old(port).log(),
            handled ==> exists|word: u32|
                final(port).log() == old(port).log() + seq![
                    port::w16(THSENS_STATUS_REG, INT_EN),
                    #[trigger] port::r32(THSENS_OUT_REG, word),
                ] && *final(self) == (Ls2kTsensor {
                    active: true,
                    last_temp_milli: temperature(word) as i32,
                    threshold_crossings: crossed(old(self).threshold_crossings),
                }),
    {
        if !self.active {
            return false;
        }
        self.acknowledge(port)
    }
}

/// A count of events; it wraps.
pub open spec fn crossed(count: usize) -> usize {
    if count == usize::MAX {
        0
    } else {
        (count + 1) as usize
    }
}

/// The sensor as a function of its device.
pub struct Ls2kTsensorFunction {
    pub sensor: Ls2kTsensor,
    pub name: String,
}

/// The bytes of a temperature, the lowest first.
pub open spec fn milli_bytes(milli: int) -> Seq<u8> {
    let word = milli % 0x1_0000_0000;
    seq![
        (word % 256) as u8,
        (word / 256 % 256) as u8,
        (word / 65536 % 256) as u8,
        (word / 16777216 % 256) as u8,
    ]
}

/// Whether a request can be answered.
pub open spec fn request_error(active: bool, opcode: u32, input: int, output: int) -> Option<
    InvokeError,
> {
    if !active {
        Some(InvokeError::Gone)
    } else if opcode != 1 {
        Some(InvokeError::Unsupported)
    } else if input != 0 || output < 4 {
        Some(InvokeError::Invalid)
    } else {
        None
    }
}

/// Data that begins with other bytes.
pub open spec fn begun_with(data: Seq<u8>, bytes: Seq<u8>) -> Seq<u8> {
    bytes + data.skip(bytes.len() as int)
}

impl Ls2kTsensorFunction {
    pub fn new(sensor: Ls2kTsensor, name: String) -> (function: Self)
        ensures
            function.sensor == sensor,
            function.name == name,
    {
        Ls2kTsensorFunction { sensor, name }
    }

    pub fn class_id(&self) -> (class: u64)
        ensures
            class == THERMAL_CLASS,
    {
        THERMAL_CLASS
    }

    pub fn dev_name(&self) -> (name: &str)
        ensures
            name@ == self.name@,
    {
        self.name.as_str()
    }

    pub fn operation_contract(&self) -> (contract: Option<&'static str>)
        ensures
            contract == Some(THERMAL_CONTRACT),
    {
        Some(THERMAL_CONTRACT)
    }

    /// Answers a request: the first one is for the temperature.
    pub fn invoke<F: FnMut(Access) -> u64>(
        &mut self,
        port: &mut Port<F>,
        opcode: u32,
        input: &Vec<u8>,
        output: &mut Vec<u8>,
    ) -> (result: Result<usize, InvokeError>)
        requires
            old(port).wf(),
        ensures
            final(port).wf(),
            final(port).performs() == old(port).performs(),
            final(self).name == old(self).name,
            match request_error(
                old(self).sensor.active,
                opcode,
                input@.len() as int,
                old(output)@.len() as int,
            ) {
                Some(error) => {
                    &&& result == Err::<usize, InvokeError>(error)
                    &&& final(port).log() == old(port).log()
                    &&& final(output)@ == old(output)@
                    &&& final(self).sensor == old(self).sensor
                },
                None => {
                    &&& result == Ok::<usize, InvokeError>(4)
                    &&& exists|word: u32|
                        final(port).log() == old(port).log().push(
                            #[trigger] port::r32(THSENS_OUT_REG, word),
                        ) && final(output)@ == begun_with(
                            old(output)@,
                            milli_bytes(temperature(word)),
                        ) && final(self).sensor == (Ls2kTsensor {
                            last_temp_milli: temperature(word) as i32,
                            ..old(self).sensor
                        })
                },
            },
    {
        if !self.sensor.active {
            return Err(InvokeError::Gone);
        }
        if opcode != 1 {
            return Err(InvokeError::Unsupported);
        }
        if input.len() != 0 || output.len() < 4 {
            return Err(InvokeError::Invalid);
        }
        let ghost before = port.log();
        let milli: i32 = self.sensor.read_temp_milli(port);
        let ghost read = choose|word: u32|
            port.log() == before.push(#[trigger] port::r32(THSENS_OUT_REG, word)) && milli
                == temperature(word);
        let wide: i64 = milli as i64 + if milli < 0 {
            0x1_0000_0000
        } else {
            0
        };
        let word: u32 = wide as u32;
        assert(word == temperature(read) % 0x1_0000_0000);
        output.set(0, (word % 256) as u8);
        output.set(1, (word / 256 % 256) as u8);
        output.set(2, (word / 65536 % 256) as u8);
        output.set(3, (word / 16777216 % 256) as u8);
        assert(output@ =~= begun_with(old(output)@, milli_bytes(temperature(read))));
        Ok(4)
    }

    pub fn mark_gone(&mut self)
        ensures
            final(self).sensor == (Ls2kTsensor { active: false, ..old(self).sensor }),
            final(self).name == old(self).name,
    {
        self.sensor.mark_gone();
    }

    pub fn is_gone(&self) -> (gone: bool)
        ensures
            gone == !self.sensor.active,
    {
        !self.sensor.active
    }
}

/// The driver, with the function that maps the registers of a device.
pub struct Ls2kTsensorDriver<M> {
    pub device_mmio_to_virt: M,
}

impl<M> Ls2kTsensorDriver<M> {
    pub fn new(device_mmio_to_virt: M) -> (driver: Self)
        ensures
            driver.device_mmio_to_virt == device_mmio_to_virt,
    {
        Ls2kTsensorDriver { device_mmio_to_virt }
    }
}

/// Whether a device with these names is a sensor of this driver.
pub fn matches_platform(ids: &Vec<String>) -> (matching: bool)
    ensures
        matching == platform::compatible(ids@, COMPAT_LOONGSON_LS2K_TSENSOR@),
{
    has_id(ids, COMPAT_LOONGSON_LS2K_TSENSOR)
}

/// The registers of a sensor.
pub fn check_window(first: Option<(usize, usize)>) -> (result: Result<(usize, usize), PnpError>)
    ensures
        result == match first {
            None => Err::<(usize, usize), PnpError>(
                PnpError::Missing(PnpResourceKind::Mmio, "tsensor reg missing"),
            ),
            Some(range) => if range.1 < MIN_REG_SIZE {
                Err(PnpError::Malformed(PnpResourceKind::Mmio, "tsensor register window too small"))
            } else {
                Ok(range)
            },
        },
{
    match first {
        None => Err(PnpError::Missing(PnpResourceKind::Mmio, "tsensor reg missing")),
        Some(range) => {
            if range.1 < MIN_REG_SIZE {
                Err(PnpError::Malformed(PnpResourceKind::Mmio, "tsensor register window too small"))
            } else {
                Ok(range)
            }
        },
    }
}

/// Why an interrupt could not be had.
#[derive(Clone, Copy, PartialEq, Eq, Structural, Debug)]
pub enum IrqRegistrationError {
    NoResource,
    /// Its controller, or the default one, is not there yet.
    Unresolved(Option<u32>),
    RegistrationFailed,
}

pub fn map_irq_error(error: IrqRegistrationError) -> (mapped: PnpError)
    ensures
        mapped == match error {
            IrqRegistrationError::NoResource => PnpError::Missing(
                PnpResourceKind::Irq,
                "tsensor irq missing",
            ),
            IrqRegistrationError::Unresolved(controller) => PnpError::NeedsIrqDomain(controller),
            IrqRegistrationError::RegistrationFailed => PnpError::HardwareFailure(
                "tsensor irq registration failed",
            ),
        },
{
    match error {
        IrqRegistrationError::NoResource => PnpError::Missing(
            PnpResourceKind::Irq,
            "tsensor irq missing",
        ),
        IrqRegistrationError::Unresolved(controller) => PnpError::NeedsIrqDomain(controller),
        IrqRegistrationError::RegistrationFailed => PnpError::HardwareFailure(
            "tsensor irq registration failed",
        ),
    }
}

/// The name of a sensor, by the number that firmware may give it.
pub fn function_name(id: Option<u32>) -> (name: Vec<char>)
    ensures
        name@ == "tsensor-"@ + text::decimal(
            match id {
                Some(id) => id as nat,
                None => 0,
            },
        ),
{
    match id {
        Some(id) => text::numbered("tsensor-", id),
        None => text::numbered("tsensor-", 0),
    }
}

} // verus!
