use std::cell::RefCell;
use std::collections::HashMap;

use platform_drivers::platform::PnpError;
use platform_drivers::port::{Access, NO_PAGE, Port};
use platform_drivers::usb::bus::{PortOutcome, UsbBus, UsbHcd, UsbSpeed, parse_interfaces};
use platform_drivers::usb::driver as usb_driver;
use platform_drivers::usb::driver::{ResourceAnswer, ScanKind};
use platform_drivers::usb::dwc2::Dwc2Hcd;
use platform_drivers::usb::high::EhciHcd;
use platform_drivers::usb::ohci::OhciHcd;
use platform_drivers::usb::pool::Pool;
use platform_drivers::usb::publish;
use platform_drivers::usb::publish::PublishStep;
use platform_drivers::usb::regs::{ED_H, UsbSetup, qh_next, qh_next_pointer};
use platform_drivers::usb::ring::QhRing;
use platform_drivers::usb::transaction::Submission;
use platform_drivers::usb::transfer::{QTD_COUNT, QTD_SIZE, Request};

const DEVICE: [u8; 18] = [
    18, 1, 0, 2, 8, 6, 80, 64, 0x81, 0x07, 0x67, 0x55, 0, 1, 0, 0, 0, 1,
];

const CONFIG: [u8; 32] = [
    9, 2, 32, 0, 1, 3, 0, 0x80, 50, 9, 4, 0, 0, 2, 8, 6, 80, 0, 7, 5, 0x81, 2, 0, 2, 0, 7, 5, 0x02,
    2, 0, 2, 1,
];

#[test]
fn scan_finds_the_device_and_its_interfaces() {
    let controller = HighSpeed::new(false);
    let port = Port::new(|access: Access| controller.perform(access));
    let hcd = EhciHcd::new(port, 0x20).ok().unwrap();
    let mut bus = UsbBus::new(0, hcd);
    let outcomes = usb_driver::start_bus(&mut bus).ok().unwrap();
    assert_eq!(outcomes.len(), 1);
    assert_eq!(outcomes[0].0, 0);
    let PortOutcome::Found(device) = &outcomes[0].1 else {
        panic!("no device");
    };
    assert_eq!(device.address, 1);
    assert_eq!((device.vendor, device.product), (0x0781, 0x5567));
    assert_eq!(device.speed, UsbSpeed::High);
    assert_eq!(device.configuration, 3);
    assert_eq!(device.max_packet_size, 64);
    assert_eq!(device.interfaces.len(), 1);
    let interface = &device.interfaces[0];
    assert_eq!((interface.class, interface.subclass, interface.protocol), (8, 6, 80));
    assert_eq!(interface.endpoints.len(), 2);
    assert_eq!(interface.endpoints[1].address, 2);
    assert_eq!(interface.endpoints[1].max_packet_size, 512);
    let requests = controller.requests.borrow();
    assert_eq!(requests.first(), Some(&6));
    assert!(requests.contains(&5));
    assert_eq!(requests.last(), Some(&9));
}

#[test]
fn refused_request_fails_the_port() {
    let controller = HighSpeed::new(true);
    let port = Port::new(|access: Access| controller.perform(access));
    let hcd = EhciHcd::new(port, 0x20).ok().unwrap();
    let mut bus = UsbBus::new(0, hcd);
    let outcomes = bus.scan_ports();
    assert!(matches!(outcomes[0].1, PortOutcome::Failed(_)));
    assert_eq!(controller.requests.borrow().last(), Some(&5));
}

#[test]
fn transfer_without_parts_never_enters_the_schedule() {
    let controller = HighSpeed::new(false);
    let port = Port::new(|access: Access| controller.perform(access));
    let mut hcd = EhciHcd::new(port, 0x20).ok().unwrap();
    let request = Request {
        address: 1,
        ep: 1,
        data_in: true,
        control: false,
    };
    let writes = controller.head_writes.borrow().len();
    let submitted = hcd.state.submit_linked(&mut hcd.port, request, &Vec::new(), &Vec::new());
    assert_eq!(submitted, Submission::Refused("empty qtd chain"));
    assert_eq!(controller.head_writes.borrow().len(), writes);
    assert!(!hcd.state.faulted);
}

#[test]
fn endpoints_belong_to_the_interface_before_them() {
    let interfaces = parse_interfaces(&CONFIG.to_vec(), 1, 2);
    assert_eq!(interfaces.len(), 1);
    assert_eq!(interfaces[0].num_endpoints, 2);
    let mut stray = CONFIG[18..].to_vec();
    stray.push(0);
    assert!(parse_interfaces(&stray, 1, 2).is_empty());
}

/// A high-speed controller with one device, which answers requests at once and
/// refuses an address if it is told to.
struct HighSpeed {
    command: RefCell<u64>,
    memory: RefCell<HashMap<usize, u8>>,
    next: RefCell<usize>,
    buffers: RefCell<Vec<usize>>,
    setup: RefCell<[u8; 8]>,
    requests: RefCell<Vec<u8>>,
    released: RefCell<Vec<u64>>,
    running_on: RefCell<bool>,
    /// The head that the controller starts at, and what was written there, with
    /// whether the controller was walking the schedule.
    head: RefCell<usize>,
    head_writes: RefCell<Vec<(u32, bool)>>,
    refuses: bool,
}

impl HighSpeed {
    fn new(refuses: bool) -> Self {
        HighSpeed {
            command: RefCell::new(0),
            memory: RefCell::new(HashMap::new()),
            next: RefCell::new(0x1_0000),
            buffers: RefCell::new(Vec::new()),
            setup: RefCell::new([0; 8]),
            requests: RefCell::new(Vec::new()),
            released: RefCell::new(Vec::new()),
            running_on: RefCell::new(false),
            head: RefCell::new(0),
            head_writes: RefCell::new(Vec::new()),
            refuses,
        }
    }

    fn load(&self, at: usize, len: usize) -> u64 {
        let memory = self.memory.borrow();
        (0..len).rev().fold(0, |value, i| {
            value << 8 | u64::from(memory.get(&(at + i)).copied().unwrap_or(0))
        })
    }

    fn store(&self, at: usize, len: usize, value: u64) {
        let mut memory = self.memory.borrow_mut();
        for i in 0..len {
            memory.insert(at + i, (value >> (8 * i)) as u8);
        }
    }

    /// What the device sends for its last request.
    fn reply(&self, at: usize) -> u8 {
        let setup = self.setup.borrow();
        let source: &[u8] = match (setup[1], setup[3]) {
            (6, 1) => &DEVICE,
            (6, 2) => &CONFIG,
            _ => &[],
        };
        source.get(at).copied().unwrap_or(0)
    }

    /// Runs the transfers that wait: requests first, then their data.
    fn run(&self) {
        let Some(first) = self.buffers.borrow().get(2).copied() else {
            return;
        };
        for requests in [true, false] {
            for index in 0..QTD_COUNT {
                let at = first + index * QTD_SIZE as usize + 8;
                let token = self.load(at, 4);
                if token & 0x80 == 0 || (token >> 8 & 3 == 2) != requests {
                    continue;
                }
                let buffer = self.load(at + 4, 4) as usize;
                let len = (token >> 16 & 0x7fff) as usize;
                if requests {
                    let mut setup = [0u8; 8];
                    for (i, byte) in setup.iter_mut().enumerate() {
                        *byte = self.load(buffer + i, 1) as u8;
                    }
                    self.requests.borrow_mut().push(setup[1]);
                    *self.setup.borrow_mut() = setup;
                } else if token >> 8 & 3 == 1 {
                    for i in 0..len {
                        self.store(buffer + i, 1, u64::from(self.reply(i)));
                    }
                }
                let halted = if self.refuses && self.setup.borrow()[1] == 5 {
                    0x40
                } else {
                    0
                };
                self.store(at, 4, token & 0x8000_ff7f | halted);
            }
        }
    }

    fn perform(&self, access: Access) -> u64 {
        match access {
            Access::Read32(0x04) => 1,
            Access::Read32(0x20) => *self.command.borrow() & !2,
            Access::Read32(0x24) => {
                let command = *self.command.borrow();
                if *self.running_on.borrow() && !self.requests.borrow().is_empty() {
                    return 0x8000;
                }
                (if command & 1 == 0 { 0x1000 } else { 0 })
                    | (if command & 0x20 != 0 { 0x8000 } else { 0 })
            }
            Access::Read32(0x64) => 0x1005,
            Access::Write32(0x20, value) => {
                *self.command.borrow_mut() = u64::from(value);
                0
            }
            Access::Load8(at) => self.load(at, 1),
            Access::Load32(at) => {
                self.run();
                self.load(at, 4)
            }
            Access::Load64(at) => self.load(at, 8),
            Access::Store8(at, value) => {
                self.store(at, 1, u64::from(value));
                0
            }
            Access::Write32(0x38, value) => {
                *self.head.borrow_mut() = value as usize;
                0
            }
            Access::Store32(at, value) => {
                if at == *self.head.borrow() {
                    let walking = *self.command.borrow() & 0x20 != 0;
                    self.head_writes.borrow_mut().push((value, walking));
                }
                self.store(at, 4, u64::from(value));
                0
            }
            Access::Store64(at, value) => {
                self.store(at, 8, value);
                0
            }
            Access::MapPayload(_) => NO_PAGE,
            Access::ReleaseBuffer(address) => {
                self.released.borrow_mut().push(address);
                0
            }
            Access::AllocateBuffer(len, align) => {
                let mut next = self.next.borrow_mut();
                let at = (*next + align - 1) / align * align;
                *next = at + len;
                self.buffers.borrow_mut().push(at);
                at as u64
            }
            _ => 0,
        }
    }
}

#[test]
fn high_speed_request_brings_its_data() {
    let controller = HighSpeed::new(false);
    let port = Port::new(|access: Access| controller.perform(access));
    let mut hcd = EhciHcd::new(port, 0x20).ok().unwrap();
    assert_eq!(hcd.name(), "ehci");
    assert_eq!(hcd.port_count(), 1);
    assert!(hcd.port_connected(0));
    let setup = UsbSetup {
        request_type: 0x80,
        request: 6,
        value: 0x100,
        index: 0,
        length: 8,
    };
    let mut data = vec![0u8; 8];
    assert_eq!(hcd.control_transfer(1, setup, &mut data, true), Ok(8));
    assert_eq!(data, DEVICE[..8]);
    let mut out = vec![9u8; 3];
    assert_eq!(hcd.bulk_transfer(1, 2, &mut out, false), Ok(3));
    assert_eq!(out, [9; 3]);
    let head = *controller.head.borrow() as u32;
    let writes = controller.head_writes.borrow().clone();
    assert_eq!(writes.len(), 4);
    assert!(writes.iter().all(|(_, walking)| !walking));
    assert_ne!(writes[0].0, head | 2);
    assert_eq!(writes[1].0, head | 2);
    assert_eq!(hcd.shutdown(), Ok(()));
}

#[test]
fn memory_stays_with_a_controller_that_does_not_stop() {
    let controller = HighSpeed::new(false);
    let port = Port::new(|access: Access| controller.perform(access));
    let mut hcd = EhciHcd::new(port, 0x20).ok().unwrap();
    let setup = UsbSetup {
        request_type: 0x80,
        request: 6,
        value: 0x100,
        index: 0,
        length: 8,
    };
    let mut data = vec![0u8; 8];
    assert_eq!(hcd.control_transfer(1, setup, &mut data, true), Ok(8));
    let given_back = controller.released.borrow().len();
    assert!(given_back > 0);
    *controller.running_on.borrow_mut() = true;
    data = vec![0u8; 8];
    assert!(hcd.control_transfer(1, setup, &mut data, true).is_err());
    assert_eq!(data, [0; 8]);
    assert!(hcd.control_transfer(1, setup, &mut data, true).is_err());
}

#[test]
fn high_speed_controller_without_memory_does_not_start() {
    let port = Port::new(|access: Access| match access {
        Access::AllocateBuffer(_, _) => NO_PAGE,
        _ => 0,
    });
    assert_eq!(
        EhciHcd::new(port, 0x20).err(),
        Some("EHCI DMA buffer is unavailable")
    );
}

#[test]
fn full_speed_controller_without_memory_does_not_start() {
    let port = Port::new(|access: Access| match access {
        Access::AllocateBuffer(_, _) => NO_PAGE,
        _ => 0,
    });
    assert_eq!(
        OhciHcd::new(port).err(),
        Some("OHCI DMA buffer is unavailable")
    );
}

/// Makes a request of a device and gives the speed that the reset found and the word
/// that marks the endpoint.
fn full_speed_request(port_status: u64) -> (u8, u32) {
    let stored: RefCell<HashMap<usize, u32>> = RefCell::new(HashMap::new());
    let next = RefCell::new(0x1_0000usize);
    let port = Port::new(|access: Access| match access {
        Access::Read32(0x54) => port_status,
        Access::Read32(0x0c) => 1,
        Access::Store32(at, value) => {
            stored.borrow_mut().insert(at, value);
            0
        }
        Access::AllocateBuffer(len, _) | Access::MapPayload(len) => {
            let at = *next.borrow();
            *next.borrow_mut() = at + (len + 0xfff) / 0x1000 * 0x1000;
            at as u64
        }
        _ => 0,
    });
    let mut hcd = OhciHcd::new(port).ok().unwrap();
    assert_eq!(hcd.name(), "ohci");
    assert_eq!(hcd.port_power_on(0), Ok(()));
    assert!(hcd.port_connected(0));
    let speed = hcd.port_reset(0).unwrap();
    let setup = UsbSetup {
        request_type: 0,
        request: 9,
        value: 1,
        index: 0,
        length: 0,
    };
    assert_eq!(hcd.control_transfer(5, setup, &mut Vec::new(), true), Ok(0));
    let word = stored.borrow()[&(0x1_0000 + 16 * 29 + 4)];
    (speed, word)
}

#[test]
fn endpoints_of_low_speed_devices_are_marked() {
    assert_eq!(full_speed_request(0x201), (2, 0x8_3005));
    assert_eq!(full_speed_request(0x001), (1, 0x8_1005));
}

#[test]
fn dual_role_controller_that_never_resets_does_not_start() {
    let port = Port::new(|_access: Access| 0xffff_ffff);
    assert_eq!(Dwc2Hcd::new(port).err(), Some("dwc2 core reset timeout"));
}

#[test]
fn descriptors_are_taken_once() {
    let mut pool = Pool::new(3);
    let first = pool.take().unwrap();
    let second = pool.take().unwrap();
    assert_ne!(first, second);
    pool.give(first);
    assert_eq!(pool.take(), Some(first));
    assert!(pool.take().is_some());
    assert_eq!(pool.take(), None);
    pool.give_all(&vec![first, second]);
    assert!(pool.take().is_some() && pool.take().is_some());
    assert_eq!(pool.take(), None);
}

#[test]
fn heads_leave_the_ring_they_joined() {
    let mut ring = QhRing::new(0x1000, 0);
    ring.link(2);
    ring.link(3);
    assert_eq!(qh_next_pointer(ring.links[0]), ring.qh_dma(3));
    assert_eq!(ring.unlink(2), Some(3));
    assert_eq!(ring.unlink(2), None);
    assert_eq!(ring.unlink(3), Some(0));
    assert_eq!(qh_next_pointer(ring.links[0]), ring.qh_dma(0));
    assert_eq!(qh_next_pointer(qh_next(0x1234_5680)), 0x1234_5680);
}

#[test]
fn driver_tells_controllers_apart() {
    let ids = |name: &str| vec![name.to_string()];
    assert_eq!(usb_driver::kind_of(&ids("generic-usb")), None);
    assert_eq!(
        usb_driver::use_optional_resource(ResourceAnswer::Granted),
        Ok(true)
    );
    assert_eq!(
        usb_driver::use_optional_resource(ResourceAnswer::Failed(PnpError::OutOfMemory)),
        Err(PnpError::OutOfMemory)
    );
    let mut port = Port::new(|_access: Access| 0x0100_0020);
    assert_eq!(usb_driver::find_operation_offset(&mut port, 0x100), Ok(0x20));
    assert!(usb_driver::find_operation_offset(&mut port, 0x80).is_err());
    let mut absent = Port::new(|_access: Access| 0xffff_ffff);
    assert!(usb_driver::find_operation_offset(&mut absent, 0x100).is_err());
    assert!(usb_driver::may_release(Ok(())));
    assert!(!usb_driver::may_release(Err("x")));
    assert_eq!(usb_driver::pnp_error_message(PnpError::OutOfMemory), "out of memory");
    assert_eq!(usb_driver::pnp_error_message(PnpError::ProbeDeferred), "deferred");
    assert_eq!(usb_driver::pnp_error_message(PnpError::NoDriver), "pnp error");
    assert_ne!(
        usb_driver::init_error(ScanKind::Ehci),
        usb_driver::init_error(ScanKind::Ohci)
    );
}

#[test]
fn interfaces_are_made_known_in_turn() {
    let mut step = PublishStep::CreateDevice;
    let mut taken = Vec::new();
    while !matches!(step, PublishStep::Finished(_)) {
        taken.push(step);
        let done = !matches!(step, PublishStep::ProbeInterface(_));
        step = publish::advance_publishing(step, done, 2);
    }
    assert_eq!(step, PublishStep::Finished(Ok(2)));
    assert_eq!(taken.len(), 9);
    assert_eq!(taken[3], PublishStep::CreateInterface(0));
    assert_eq!(taken[8], PublishStep::ProbeInterface(1));
    for (at, message) in [
        (PublishStep::CreateDevice, "usb device pnp allocation failed"),
        (PublishStep::RegisterDevice, "usb device registration failed"),
        (PublishStep::WrapDevice, "usb device wrapper failed"),
        (PublishStep::CreateInterface(1), "usb interface creation failed"),
        (PublishStep::RegisterInterface(1), "usb interface registration failed"),
    ] {
        assert_eq!(
            publish::advance_publishing(at, false, 2),
            PublishStep::Finished(Err(message))
        );
    }
    assert_eq!(
        publish::advance_publishing(PublishStep::WrapDevice, true, 0),
        PublishStep::Finished(Ok(0))
    );
}

#[test]
fn devices_and_interfaces_have_names_of_their_own() {
    let text = |name: Vec<char>| name.into_iter().collect::<String>();
    assert_eq!(text(publish::device_name(0, 1)), "usb-0:1");
    assert_eq!(text(publish::device_name(12, 127)), "usb-12:127");
    assert_eq!(text(publish::interface_name(1, 20, 105)), "usb-1:20.105");
}

/// A full-speed controller whose memory begins at 0x10000: endpoints, then transfers
/// at 0x11000, then its own area, then payloads from 0x13000 on. It uses buffers whole.
struct FullSpeed {
    words: RefCell<HashMap<usize, u32>>,
    next: RefCell<usize>,
    time: RefCell<u64>,
    /// How many more looks it takes until the end is reported.
    looks: RefCell<Option<u32>>,
    waits: RefCell<u32>,
    released: RefCell<Vec<u64>>,
}

impl FullSpeed {
    fn new() -> Self {
        FullSpeed {
            words: RefCell::new(HashMap::new()),
            next: RefCell::new(0x1_0000),
            time: RefCell::new(0),
            looks: RefCell::new(Some(0)),
            waits: RefCell::new(0),
            released: RefCell::new(Vec::new()),
        }
    }

    fn perform(&self, access: Access) -> u64 {
        match access {
            Access::Read32(0x0c) => match *self.looks.borrow_mut() {
                Some(0) => {
                    for index in 0..128 {
                        self.words.borrow_mut().insert(0x1_1000 + 16 * index + 8, 0);
                    }
                    1
                }
                Some(ref mut left) => {
                    *left -= 1;
                    0
                }
                None => 0,
            },
            Access::Now => {
                let now = *self.time.borrow();
                *self.time.borrow_mut() = now + 900_000_000;
                now
            }
            Access::Delay(5_000) => {
                *self.waits.borrow_mut() += 1;
                0
            }
            Access::Store32(at, value) => {
                self.words.borrow_mut().insert(at, value);
                0
            }
            Access::Load32(at) => u64::from(self.words.borrow().get(&at).copied().unwrap_or(0)),
            Access::AllocateBuffer(len, _) | Access::MapPayload(len) => {
                let at = *self.next.borrow();
                *self.next.borrow_mut() = at + (len + 0xfff) / 0x1000 * 0x1000;
                at as u64
            }
            Access::ReleaseBuffer(address) => {
                self.released.borrow_mut().push(address);
                0
            }
            _ => 0,
        }
    }

    fn word(&self, at: usize) -> u32 {
        self.words.borrow()[&at]
    }
}

const SET_CONFIGURATION: UsbSetup = UsbSetup {
    request_type: 0,
    request: 9,
    value: 1,
    index: 0,
    length: 0,
};

#[test]
fn full_speed_endpoint_names_its_first_and_last_transfer() {
    let controller = FullSpeed::new();
    let port = Port::new(|access: Access| controller.perform(access));
    let mut hcd = OhciHcd::new(port).ok().unwrap();
    assert_eq!(
        hcd.control_transfer(5, SET_CONFIGURATION, &mut Vec::new(), true),
        Ok(0)
    );
    let endpoint = 0x1_0000 + 16 * 29;
    assert_eq!(controller.word(endpoint + 8), 0x1_1000 + 16 * 126);
    assert_eq!(controller.word(endpoint + 12), (0x1_1000 + 16 * 127) | ED_H);
    assert_eq!(controller.word(0x1_1000 + 16 * 127), 0x1_1000 + 16 * 126);
    assert_eq!(controller.released.borrow().len(), 1);
}

#[test]
fn full_speed_transfer_waits_until_its_end_is_reported() {
    let controller = FullSpeed::new();
    let port = Port::new(|access: Access| controller.perform(access));
    let mut hcd = OhciHcd::new(port).ok().unwrap();
    *controller.looks.borrow_mut() = Some(2);
    let mut data = vec![7u8; 3];
    assert_eq!(hcd.bulk_transfer(5, 1, &mut data, false), Ok(3));
    assert_eq!(*controller.waits.borrow(), 2);
    assert_eq!(data, [7; 3]);
}

#[test]
fn full_speed_transfer_that_is_never_reported_is_given_up() {
    let controller = FullSpeed::new();
    let port = Port::new(|access: Access| controller.perform(access));
    let mut hcd = OhciHcd::new(port).ok().unwrap();
    *controller.looks.borrow_mut() = None;
    assert_eq!(
        hcd.control_transfer(5, SET_CONFIGURATION, &mut Vec::new(), true),
        Err("OHCI transfer timeout")
    );
    assert_eq!(*controller.waits.borrow(), 2);
    assert!(controller.released.borrow().is_empty());
    let lost = 0x1_0000 + 16 * 29;
    let head = 0x1_0000 + 16 * 31;
    assert_eq!(controller.word(head), lost);
    *controller.looks.borrow_mut() = Some(0);
    assert_eq!(
        hcd.control_transfer(5, SET_CONFIGURATION, &mut Vec::new(), true),
        Ok(0)
    );
    let second = 0x1_0000 + 16 * 28;
    assert_eq!(controller.word(second), lost);
    assert_eq!(controller.word(second + 8), 0x1_1000 + 16 * 124);
    assert_eq!(controller.word(head), lost);
}

#[test]
fn full_speed_count_is_what_the_last_buffer_took() {
    let controller = FullSpeed::new();
    let port = Port::new(|access: Access| {
        let reply = controller.perform(access);
        match access {
            Access::Load32(0x1_17e8) => 0x1_3000 + 4096 + 100,
            _ => reply,
        }
    });
    let mut hcd = OhciHcd::new(port).ok().unwrap();
    assert_eq!(hcd.bulk_transfer(5, 1, &mut vec![0u8; 5000], true), Ok(4196));
    let whole = FullSpeed::new();
    let port = Port::new(|access: Access| whole.perform(access));
    let mut hcd = OhciHcd::new(port).ok().unwrap();
    assert_eq!(hcd.bulk_transfer(5, 1, &mut vec![0u8; 5000], true), Ok(5000));
}

#[test]
fn full_speed_transfer_error_is_told() {
    let controller = FullSpeed::new();
    let port = Port::new(|access: Access| match access {
        Access::Load32(_) => 0x4000_0000,
        _ => controller.perform(access),
    });
    let mut hcd = OhciHcd::new(port).ok().unwrap();
    assert_eq!(
        hcd.bulk_transfer(5, 1, &mut vec![0u8; 8], false),
        Err("OHCI transfer error")
    );
    assert_eq!(controller.released.borrow().len(), 1);
}

/// Makes a request on a high-speed controller whose schedule does not start any more;
/// says what came of it and of one more, and how many buffers were given back.
fn request_without_start(halts: bool) -> (Result<usize, &'static str>, bool, usize) {
    let controller = HighSpeed::new(false);
    let stuck = RefCell::new(false);
    let port = Port::new(|access: Access| match access {
        Access::Read32(0x24) if *stuck.borrow() => {
            if halts && *controller.command.borrow() & 1 == 0 {
                0x1000
            } else {
                0
            }
        }
        _ => controller.perform(access),
    });
    let mut hcd = EhciHcd::new(port, 0x20).ok().unwrap();
    *stuck.borrow_mut() = true;
    let mut data = vec![0u8; 8];
    let setup = UsbSetup {
        request_type: 0x80,
        request: 6,
        value: 0x100,
        index: 0,
        length: 8,
    };
    let first = hcd.control_transfer(1, setup, &mut data, true);
    let released = controller.released.borrow().len();
    let second = hcd.control_transfer(1, setup, &mut data, true);
    (first, second == Err("EHCI controller is faulted"), released)
}

#[test]
fn memory_is_kept_unless_the_controller_halted() {
    assert_eq!(
        request_without_start(true),
        (Err("EHCI async schedule start timeout"), true, 2)
    );
    assert_eq!(
        request_without_start(false),
        (Err("EHCI host controller halt timeout"), true, 0)
    );
}
