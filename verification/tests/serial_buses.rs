use std::cell::RefCell;
use std::collections::VecDeque;

use platform_drivers::i2c;
use platform_drivers::i2c::{
    ClockAnswer, Ls2kI2cError, Ls2xI2cBus, Ls2xI2cFunction, map_i2c_error,
};
use platform_drivers::platform::{PnpError, PnpResourceKind};
use platform_drivers::port::{Access, Port};
use platform_drivers::spi::driver as spi_driver;
use platform_drivers::spi::driver::{Role, nor_size_from_capacity};
use platform_drivers::spi::master::{SpiMaster, SpiMasterRegistry, clock_code_for};
use platform_drivers::spi::nor::{
    FlashError, FlashIoError, SpiNorFlash, build_erase, build_write,
};
use platform_drivers::tsensor::InvokeError;

/// A two-wire bus: what is sent is kept, what is received comes from a list, and the
/// state after a command is fixed.
struct TwoWire {
    sent: RefCell<Vec<(u8, u8)>>,
    last: RefCell<u8>,
    incoming: RefCell<VecDeque<u8>>,
    state: u8,
    done: bool,
}

impl TwoWire {
    fn new(incoming: &[u8], state: u8, done: bool) -> Self {
        TwoWire {
            sent: RefCell::new(Vec::new()),
            last: RefCell::new(0),
            incoming: RefCell::new(incoming.iter().copied().collect()),
            state,
            done,
        }
    }

    fn perform(&self, access: Access) -> u64 {
        match access {
            Access::Write8(3, byte) => {
                *self.last.borrow_mut() = byte;
                0
            }
            Access::Write8(4, command) => {
                self.sent.borrow_mut().push((command, *self.last.borrow()));
                0
            }
            Access::Read8(3) => u64::from(self.incoming.borrow_mut().pop_front().unwrap_or(0xff)),
            Access::Read8(4) => u64::from(self.state | u8::from(self.done)),
            _ => 0,
        }
    }

    /// The commands but for those that only clear the state.
    fn commands(&self) -> Vec<(u8, u8)> {
        self.sent
            .borrow()
            .iter()
            .copied()
            .filter(|pair| pair.0 != 1)
            .collect()
    }
}

#[test]
fn bus_is_set_up_for_its_speed() {
    let log = RefCell::new(Vec::new());
    let mut port = Port::new(|access: Access| {
        log.borrow_mut().push(access);
        match access {
            Access::Read8(2) => 0xff,
            _ => 0,
        }
    });
    let bus = Ls2xI2cBus::new(&mut port, 100_000_000);
    assert_eq!(bus.clk_rate, 100_000_000);
    assert_eq!(
        log.borrow().as_slice(),
        [
            Access::Read8(2),
            Access::Write8(2, 0x3f),
            Access::Write8(0, 0x5d),
            Access::Write8(1, 0x02),
            Access::Read8(2),
            Access::Write8(2, 0xff),
        ]
    );
}

#[test]
fn write_calls_the_device_and_frees_the_bus() {
    let wire = TwoWire::new(&[], 0, true);
    let mut port = Port::new(|access: Access| wire.perform(access));
    let bus = Ls2xI2cBus { clk_rate: 0 };
    assert_eq!(bus.write(&mut port, 0x50, &vec![0xaa, 0xbb]), Ok(()));
    assert_eq!(
        wire.commands(),
        [(0x90, 0xa0), (0x10, 0xaa), (0x10, 0xbb), (0x40, 0xbb)]
    );
}

#[test]
fn register_read_turns_the_bus_round() {
    let wire = TwoWire::new(&[7, 8], 0, true);
    let mut port = Port::new(|access: Access| wire.perform(access));
    let bus = Ls2xI2cBus { clk_rate: 0 };
    let mut out = vec![0u8; 2];
    assert_eq!(bus.read_regs(&mut port, 0x50, 0x21, &mut out), Ok(()));
    assert_eq!(out, [7, 8]);
    assert_eq!(
        wire.commands(),
        [
            (0x90, 0xa0),
            (0x10, 0x21),
            (0x90, 0xa1),
            (0x20, 0xa1),
            (0x28, 0xa1),
            (0x40, 0xa1)
        ]
    );
    let wire = TwoWire::new(&[], 0, true);
    let mut port = Port::new(|access: Access| wire.perform(access));
    assert_eq!(bus.write_regs(&mut port, 1, 2, &vec![3]), Ok(()));
    assert_eq!(
        wire.commands(),
        [(0x90, 2), (0x10, 2), (0x10, 3), (0x40, 3)]
    );
}

#[test]
fn first_failing_step_ends_a_transaction() {
    let bus = Ls2xI2cBus { clk_rate: 0 };
    for (state, done, error) in [
        (0x80, true, Ls2kI2cError::NoAck),
        (0xa0, true, Ls2kI2cError::ArbitrationLost),
        (0x00, false, Ls2kI2cError::Timeout),
    ] {
        let wire = TwoWire::new(&[1], state, done);
        let mut port = Port::new(|access: Access| wire.perform(access));
        let mut out = vec![5u8; 1];
        assert_eq!(bus.read(&mut port, 0x50, &mut out), Err(error));
        assert_eq!(out, [5]);
        assert_eq!(wire.commands().len(), 1);
    }
    let wire = TwoWire::new(&[1], 0x40, true);
    let mut port = Port::new(|access: Access| wire.perform(access));
    let mut out = vec![5u8; 1];
    assert_eq!(bus.read(&mut port, 0x50, &mut out), Err(Ls2kI2cError::Timeout));
    assert_eq!(out, [1]);
    assert_eq!(map_i2c_error(Ls2kI2cError::Timeout), InvokeError::Busy);
    assert_eq!(map_i2c_error(Ls2kI2cError::NoAck), InvokeError::Fault);
    assert_eq!(map_i2c_error(Ls2kI2cError::ArbitrationLost), InvokeError::Fault);
    assert_eq!(map_i2c_error(Ls2kI2cError::Invalid), InvokeError::Invalid);
}

#[test]
fn bus_function_answers_four_requests() {
    let wire = TwoWire::new(&[9, 10, 11], 0, true);
    let mut port = Port::new(|access: Access| wire.perform(access));
    let mut function = Ls2xI2cFunction::new(Ls2xI2cBus { clk_rate: 0 }, "i2c-0".to_string());
    let mut none: Vec<u8> = vec![];
    let mut out = vec![0u8; 3];
    assert_eq!(function.dev_name(), "i2c-0");
    assert_eq!(
        function.operation_contract(),
        Some("mygo.device.i2c-bus@1;1=write;2=read;3=write_regs;4=read_regs")
    );
    assert_eq!(function.class_id(), 0x6c73_326b_6932_6362);
    assert_eq!(function.invoke(&mut port, 1, &vec![0x50, 1], &mut none), Ok(0));
    assert_eq!(function.invoke(&mut port, 2, &vec![0x50, 2], &mut out), Ok(2));
    assert_eq!(out, [9, 10, 0]);
    assert_eq!(function.invoke(&mut port, 3, &vec![0x50, 1], &mut none), Ok(0));
    assert_eq!(
        function.invoke(&mut port, 4, &vec![0x50, 1, 1], &mut out),
        Ok(1)
    );
    assert_eq!(out, [11, 10, 0]);
    assert_eq!(
        function.invoke(&mut port, 2, &vec![0x50, 4], &mut out),
        Err(InvokeError::Invalid)
    );
    assert_eq!(
        function.invoke(&mut port, 1, &vec![], &mut none),
        Err(InvokeError::Invalid)
    );
    assert_eq!(
        function.invoke(&mut port, 5, &vec![], &mut none),
        Err(InvokeError::Unsupported)
    );
    function.mark_gone();
    assert!(function.is_gone());
    assert_eq!(
        function.invoke(&mut port, 5, &vec![], &mut none),
        Err(InvokeError::Gone)
    );
}

#[test]
fn bus_without_a_clock_is_taken_at_zero() {
    assert_eq!(i2c::acquire_clock_hz(ClockAnswer::Undescribed), Ok(0));
    assert_eq!(i2c::acquire_clock_hz(ClockAnswer::Rate(3)), Ok(3));
    assert_eq!(
        i2c::acquire_clock_hz(ClockAnswer::NoRate),
        Err(PnpError::HardwareFailure("i2c clock has no rate"))
    );
    assert_eq!(
        i2c::acquire_clock_hz(ClockAnswer::Failed(PnpError::ProbeDeferred)),
        Err(PnpError::ProbeDeferred)
    );
    assert_eq!(
        i2c::check_window(Some((0, 7))),
        Err(PnpError::Malformed(
            PnpResourceKind::Mmio,
            "i2c register window too small"
        ))
    );
}

#[test]
fn clock_is_divided_by_the_next_power_of_two() {
    assert_eq!(clock_code_for(60_000_000, 30_000_000), 1);
    assert_eq!(clock_code_for(1, 30_000_000), 1);
    assert_eq!(clock_code_for(100_000_000, 30_000_000), 4);
    assert_eq!(clock_code_for(240_000_000, 30_000_000), 2);
    assert_eq!(clock_code_for(300_000_000, 30_000_000), 3);
    assert_eq!(clock_code_for(1_000_000, 1_000), 10);
    assert_eq!(clock_code_for(1_000_000, 1), 0);
}

/// A flash on a bus: it takes commands and holds bytes.
struct Flash {
    selected: RefCell<bool>,
    frame: RefCell<Vec<u8>>,
    frames: RefCell<Vec<Vec<u8>>>,
    memory: RefCell<Vec<u8>>,
    status: RefCell<VecDeque<u8>>,
    deaf: bool,
}

impl Flash {
    fn new(deaf: bool) -> Self {
        Flash {
            selected: RefCell::new(false),
            frame: RefCell::new(Vec::new()),
            frames: RefCell::new(Vec::new()),
            memory: RefCell::new(vec![0xff; 8192]),
            status: RefCell::new(VecDeque::new()),
            deaf,
        }
    }

    fn perform(&self, access: Access) -> u64 {
        match access {
            Access::Write8(5, value) => {
                let on = value & 0x11 == 0x11;
                if !on && *self.selected.borrow() {
                    let frame = self.frame.borrow().clone();
                    self.finish(&frame);
                    self.frames.borrow_mut().push(frame);
                }
                self.frame.borrow_mut().clear();
                *self.selected.borrow_mut() = on;
                0
            }
            Access::Write8(2, byte) => {
                self.frame.borrow_mut().push(byte);
                0
            }
            Access::Read8(1) => u64::from(self.deaf),
            Access::Read8(2) => u64::from(self.answer(&self.frame.borrow())),
            _ => 0,
        }
    }

    fn address(frame: &[u8]) -> usize {
        usize::from(frame[1]) << 16 | usize::from(frame[2]) << 8 | usize::from(frame[3])
    }

    fn answer(&self, frame: &[u8]) -> u8 {
        let at = frame.len() - 1;
        match frame[0] {
            0x9f if at > 0 => [0xef, 0x40, 0x17][at - 1],
            0x05 if at > 0 => self.status.borrow_mut().pop_front().unwrap_or(0),
            0x03 if at > 3 => self.memory.borrow()[Self::address(frame) + at - 4],
            _ => 0,
        }
    }

    fn finish(&self, frame: &[u8]) {
        let mut memory = self.memory.borrow_mut();
        match frame.first() {
            Some(0x02) => {
                let page = Self::address(frame) / 256 * 256;
                for (i, byte) in frame[4..].iter().enumerate() {
                    memory[page + (Self::address(frame) + i) % 256] &= byte;
                }
            }
            Some(0x20) => {
                let sector = Self::address(frame) / 4096 * 4096;
                for byte in &mut memory[sector..sector + 4096] {
                    *byte = 0xff;
                }
            }
            _ => {}
        }
    }
}

fn on_bus() -> SpiNorFlash {
    SpiNorFlash::new(SpiMaster::new(0, 0), 8192, Vec::new())
}

#[test]
fn flash_gives_back_what_was_written_across_pages() {
    let chip = Flash::new(false);
    let mut port = Port::new(|access: Access| chip.perform(access));
    let flash = on_bus();
    let data: Vec<u8> = (0..600).map(|i| (i % 251) as u8).collect();
    assert_eq!(flash.write(&mut port, 250, &data), Ok(()));
    let mut out = vec![0u8; 600];
    assert_eq!(flash.read(&mut port, 250, &mut out), Ok(()));
    assert_eq!(out, data);
    let starts: Vec<usize> = chip
        .frames
        .borrow()
        .iter()
        .filter(|frame| frame[0] == 0x02)
        .map(|frame| Flash::address(frame))
        .collect();
    assert_eq!(starts, [250, 256, 512, 768]);
    assert_eq!(flash.erase(&mut port, 0, 4096), Ok(()));
    assert_eq!(flash.read(&mut port, 250, &mut out), Ok(()));
    assert!(out.iter().all(|byte| *byte == 0xff));
}

#[test]
fn write_commands_keep_to_pages() {
    let commands = build_write(0x1_02fe, &vec![1, 2, 3]);
    assert_eq!(
        commands,
        [vec![2, 1, 2, 0xfe, 1, 2], vec![2, 1, 3, 0, 3]]
    );
    assert!(build_write(7, &vec![]).is_empty());
    assert_eq!(
        build_erase(0x1000, 0x2000),
        [vec![0x20, 0, 0x10, 0], vec![0x20, 0, 0x20, 0]]
    );
}

#[test]
fn flash_refuses_what_lies_outside_or_askew() {
    let chip = Flash::new(false);
    let mut port = Port::new(|access: Access| chip.perform(access));
    let flash = on_bus();
    let mut out = vec![0u8; 2];
    assert_eq!(
        flash.read(&mut port, 8191, &mut out),
        Err(FlashError::OutOfRange)
    );
    assert_eq!(
        flash.write(&mut port, usize::MAX, &vec![1]),
        Err(FlashIoError::OutOfRange)
    );
    assert_eq!(flash.erase(&mut port, 1, 4096), Err(FlashIoError::Invalid));
    assert_eq!(flash.erase(&mut port, 0, 4095), Err(FlashIoError::Invalid));
    assert_eq!(
        flash.erase(&mut port, 4096, 8192),
        Err(FlashIoError::OutOfRange)
    );
    assert!(chip.frames.borrow().is_empty());
    assert_eq!(
        flash.erase_region_at(0).map(|r| (r.block_size, r.block_count)),
        Some((4096, 2))
    );
    assert!(flash.erase_region_at(1).is_none());
    assert!(flash.capabilities().erasable);
}

#[test]
fn silent_flash_fails_and_a_busy_one_is_waited_for() {
    let chip = Flash::new(true);
    let mut port = Port::new(|access: Access| chip.perform(access));
    let flash = on_bus();
    assert_eq!(flash.write(&mut port, 0, &vec![1]), Err(FlashIoError::Io));
    let mut out = vec![3u8];
    assert_eq!(flash.read(&mut port, 0, &mut out), Err(FlashError::Invalid));
    assert_eq!(out, [3]);
    assert!(flash.read_id(&mut port).is_err());

    let chip = Flash::new(false);
    chip.status.borrow_mut().extend([1, 1, 0]);
    let pauses = RefCell::new(0);
    let mut port = Port::new(|access: Access| {
        if access == Access::Delay(100_000) {
            *pauses.borrow_mut() += 1;
        }
        chip.perform(access)
    });
    assert_eq!(flash.write(&mut port, 0, &vec![0]), Ok(()));
    assert_eq!(*pauses.borrow(), 2);
    chip.status.borrow_mut().extend(vec![1; 10_000]);
    assert_eq!(flash.erase(&mut port, 0, 4096), Err(FlashIoError::Busy));
}

#[test]
fn flash_is_named_after_its_identity() {
    let chip = Flash::new(false);
    let mut port = Port::new(|access: Access| chip.perform(access));
    let flash = spi_driver::probe_flash(&mut port, Some(SpiMaster::new(0, 0))).unwrap();
    assert_eq!(flash.size, 8 * 1024 * 1024);
    assert_eq!(flash.name.iter().collect::<String>(), "spi-nor_ef40");
    assert!(matches!(
        spi_driver::probe_flash(&mut port, None),
        Err(PnpError::ProbeDeferred)
    ));
    assert_eq!(
        spi_driver::flash_from(SpiMaster::new(0, 0), Ok([1, 2, 0x10])).err(),
        Some(PnpError::HardwareFailure("unknown SPI-NOR device"))
    );
    assert_eq!(
        spi_driver::flash_from(SpiMaster::new(0, 0), Err("x")).err(),
        Some(PnpError::HardwareFailure("spi-nor id read failed"))
    );
    assert_eq!(nor_size_from_capacity(0x11), Some(131_072));
    assert_eq!(nor_size_from_capacity(0x20), Some(1 << 32));
    assert_eq!(nor_size_from_capacity(0x21), None);
}

#[test]
fn registered_bus_is_found_by_its_path() {
    let mut registry = SpiMasterRegistry::new();
    registry.register_master("/soc/spi@0", SpiMaster::new(1, 2));
    registry.register_master("/soc/spi@1", SpiMaster::new(3, 4));
    registry.register_master("/soc/spi@0", SpiMaster::new(5, 6));
    assert_eq!(
        registry.lookup_master(Some("/soc/spi@0")),
        Some(SpiMaster::new(5, 6))
    );
    assert_eq!(
        registry.lookup_master(Some("/soc/spi@1")),
        Some(SpiMaster::new(3, 4))
    );
    assert_eq!(registry.lookup_master(Some("/soc")), None);
    assert_eq!(registry.lookup_master(None), None);
    assert_eq!(registry.masters.len(), 2);
}

#[test]
fn bus_registers_are_set_up_once() {
    let log = RefCell::new(Vec::new());
    let mut port = Port::new(|access: Access| {
        log.borrow_mut().push(access);
        match access {
            Access::Read8(_) => 0x53,
            _ => 0,
        }
    });
    let master = SpiMaster::new(0, 100_000_000);
    master.reginit(&mut port);
    master.cs_assert(&mut port, 1);
    master.cs_deassert(&mut port, 1);
    assert_eq!(
        log.borrow().as_slice(),
        [
            Access::Read8(0),
            Access::Write8(0, 0x13),
            Access::Write8(1, 0xc0),
            Access::Read8(0),
            Access::Write8(0, 0x53),
            Access::Read8(0),
            Access::Write8(0, 0x50),
            Access::Read8(3),
            Access::Write8(3, 0x51),
            Access::Read8(5),
            Access::Write8(5, 0x73),
            Access::Read8(5),
            Access::Write8(5, 0x53),
        ]
    );
    assert_eq!(
        spi_driver::role_of(&vec!["loongson,ls-spi".to_string()]),
        Some(Role::Controller)
    );
    assert_eq!(
        spi_driver::role_of(&vec!["jedec,spi-nor".to_string()]),
        Some(Role::Flash)
    );
    assert_eq!(spi_driver::role_of(&vec![]), None);
    assert_eq!(
        spi_driver::acquire_clock_hz(Ok(Some(0))),
        Err(PnpError::HardwareFailure("spi clock has no rate"))
    );
    assert_eq!(spi_driver::acquire_clock_hz(Ok(Some(9))), Ok(9));
}
