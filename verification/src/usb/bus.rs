//! Finding the devices on a bus.

use vstd::prelude::*;
use crate::bytes;
use crate::bytes::le16;
use crate::usb::regs;
use crate::usb::regs::{UsbInterfaceDesc, UsbSetup};

verus! {

/// What a host controller was asked, and what it answered.
pub ghost enum Call {
    PowerOn { on_port: usize, power_result: Result<(), &'static str> },
    Reset { reset_port: usize, reset_result: Result<u8, &'static str> },
    Connected { seen_port: usize, seen: bool },
    Control {
        address: u8,
        setup: UsbSetup,
        data: Seq<u8>,
        data_in: bool,
        result: Result<usize, &'static str>,
        after: Seq<u8>,
    },
    Bulk {
        bulk_address: u8,
        bulk_ep: u8,
        bulk_data: Seq<u8>,
        bulk_in: bool,
        bulk_result: Result<usize, &'static str>,
        bulk_after: Seq<u8>,
    },
    Interrupt {
        int_address: u8,
        int_ep: u8,
        int_data: Seq<u8>,
        int_in: bool,
        int_result: Result<usize, &'static str>,
        int_after: Seq<u8>,
    },
    Shutdown { shutdown_result: Result<(), &'static str> },
    Wait { duration_ns: u64 },
}

/// A host controller.
pub trait UsbHcd {
    spec fn wf(&self) -> bool;

    /// What it was asked so far.
    spec fn calls(&self) -> Seq<Call>;

    /// How many ports it has.
    spec fn ports(&self) -> usize;

    /// What it is called.
    spec fn label(&self) -> Seq<char>;

    fn name(&self) -> (name: &'static str)
        ensures
            name@ == self.label(),
    ;

    fn port_count(&self) -> (count: usize)
        ensures
            count == self.ports(),
    ;

    /// Stops the controller and its use of memory.
    fn shutdown(&mut self) -> (result: Result<(), &'static str>)
        requires
            old(self).wf(),
        ensures
            final(self).wf(),
            final(self).ports() == old(self).ports(),
            final(self).calls() == old(self).calls().push(
                Call::Shutdown { shutdown_result: result },
            ),
    ;

    fn port_power_on(&mut self, port: usize) -> (result: Result<(), &'static str>)
        requires
            old(self).wf(),
            port < old(self).ports(),
        ensures
            final(self).wf(),
            final(self).ports() == old(self).ports(),
            final(self).calls() == old(self).calls().push(
                Call::PowerOn { on_port: port, power_result: result },
            ),
    ;

    /// Resets a port and gives the speed of the device at it.
    fn port_reset(&mut self, port: usize) -> (result: Result<u8, &'static str>)
        requires
            old(self).wf(),
            port < old(self).ports(),
        ensures
            final(self).wf(),
            final(self).ports() == old(self).ports(),
            final(self).calls() == old(self).calls().push(
                Call::Reset { reset_port: port, reset_result: result },
            ),
    ;

    fn port_connected(&mut self, port: usize) -> (connected: bool)
        requires
            old(self).wf(),
            port < old(self).ports(),
        ensures
            final(self).wf(),
            final(self).ports() == old(self).ports(),
            final(self).calls() == old(self).calls().push(
                Call::Connected { seen_port: port, seen: connected },
            ),
    ;

    /// A request, with data that may be empty.
    fn control_transfer(
        &mut self,
        dev_addr: u8,
        setup: UsbSetup,
        data: &mut Vec<u8>,
        data_in: bool,
    ) -> (result: Result<usize, &'static str>)
        requires
            old(self).wf(),
        ensures
            final(self).wf(),
            final(self).ports() == old(self).ports(),
            final(data)@.len() == old(data)@.len(),
            final(self).calls() == old(self).calls().push(
                Call::Control {
                    address: dev_addr,
                    setup,
                    data: old(data)@,
                    data_in,
                    result,
                    after: final(data)@,
                },
            ),
    ;

    fn bulk_transfer(&mut self, dev_addr: u8, ep: u8, data: &mut Vec<u8>, data_in: bool) -> (result:
        Result<usize, &'static str>)
        requires
            old(self).wf(),
        ensures
            final(self).wf(),
            final(self).ports() == old(self).ports(),
            final(data)@.len() == old(data)@.len(),
            final(self).calls() == old(self).calls().push(
                Call::Bulk {
                    bulk_address: dev_addr,
                    bulk_ep: ep,
                    bulk_data: old(data)@,
                    bulk_in: data_in,
                    bulk_result: result,
                    bulk_after: final(data)@,
                },
            ),
    ;

    fn interrupt_transfer(
        &mut self,
        dev_addr: u8,
        ep: u8,
        data: &mut Vec<u8>,
        data_in: bool,
    ) -> (result: Result<usize, &'static str>)
        requires
            old(self).wf(),
        ensures
            final(self).wf(),
            final(self).ports() == old(self).ports(),
            final(data)@.len() == old(data)@.len(),
            final(self).calls() == old(self).calls().push(
                Call::Interrupt {
                    int_address: dev_addr,
                    int_ep: ep,
                    int_data: old(data)@,
                    int_in: data_in,
                    int_result: result,
                    int_after: final(data)@,
                },
            ),
    ;

    /// Waits before the next request.
    fn wait(&mut self, duration_ns: u64)
        requires
            old(self).wf(),
        ensures
            final(self).wf(),
            final(self).ports() == old(self).ports(),
            final(self).calls() == old(self).calls().push(Call::Wait { duration_ns }),
    ;
}

/// How fast a device is.
#[derive(Clone, Copy, PartialEq, Eq, Structural, Debug)]
pub enum UsbSpeed {
    Low,
    Full,
    High,
}

/// An endpoint of an interface.
#[derive(Clone, Copy, PartialEq, Eq, Structural, Debug)]
pub struct UsbEndpointDesc {
    pub address: u8,
    pub attributes: u8,
    pub max_packet_size: u16,
    pub interval: u8,
}

/// An interface of a device.
pub struct UsbInterfaceInfo {
    pub class: u8,
    pub subclass: u8,
    pub protocol: u8,
    pub interface_number: u8,
    pub num_endpoints: u8,
    pub endpoints: Vec<UsbEndpointDesc>,
    pub vendor: u16,
    pub product: u16,
}

/// What is known of an interface.
pub ghost struct InterfaceView {
    pub class: u8,
    pub subclass: u8,
    pub protocol: u8,
    pub interface_number: u8,
    pub num_endpoints: u8,
    pub endpoints: Seq<UsbEndpointDesc>,
    pub vendor: u16,
    pub product: u16,
}

impl View for UsbInterfaceInfo {
    type V = InterfaceView;

    open spec fn view(&self) -> InterfaceView {
        InterfaceView {
            class: self.class,
            subclass: self.subclass,
            protocol: self.protocol,
            interface_number: self.interface_number,
            num_endpoints: self.num_endpoints,
            endpoints: self.endpoints@,
            vendor: self.vendor,
            product: self.product,
        }
    }
}

/// What is known of several interfaces.
pub open spec fn interface_views(list: Seq<UsbInterfaceInfo>) -> Seq<InterfaceView> {
    Seq::new(list.len(), |i: int| list[i]@)
}

/// An interface as its description has it, without endpoints yet.
pub open spec fn new_interface(desc: UsbInterfaceDesc, vendor: u16, product: u16) -> InterfaceView {
    InterfaceView {
        class: desc.interface_class,
        subclass: desc.interface_subclass,
        protocol: desc.interface_protocol,
        interface_number: desc.interface_number,
        num_endpoints: desc.num_endpoints,
        endpoints: Seq::empty(),
        vendor,
        product,
    }
}

/// The endpoint at a position.
pub open spec fn endpoint_at(config: Seq<u8>, position: int) -> UsbEndpointDesc {
    UsbEndpointDesc {
        address: config[position + 2],
        attributes: config[position + 3],
        max_packet_size: bytes::le16_at(config, position + 4),
        interval: config[position + 6],
    }
}

/// An interface with one endpoint more.
pub open spec fn with_endpoint(interface: InterfaceView, endpoint: UsbEndpointDesc) -> InterfaceView {
    InterfaceView {
        endpoints: interface.endpoints.push(endpoint),
        num_endpoints: ((interface.endpoints.len() + 1) % 256) as u8,
        ..interface
    }
}

/// The interfaces after the description at a position: a description of an
/// interface begins one, and one of an endpoint belongs to the last interface.
/// Descriptions that are too short count for nothing.
pub open spec fn described(
    config: Seq<u8>,
    position: int,
    interfaces: Seq<InterfaceView>,
    vendor: u16,
    product: u16,
) -> Seq<InterfaceView> {
    let length = config[position];
    let kind = config[position + 1];
    if kind == regs::USB_DT_INTERFACE && length >= 9 {
        interfaces.push(new_interface(UsbInterfaceDesc::at(config, position), vendor, product))
    } else if kind == regs::USB_DT_ENDPOINT && length >= 7 && interfaces.len() > 0 {
        interfaces.update(
            interfaces.len() - 1,
            with_endpoint(interfaces.last(), endpoint_at(config, position)),
        )
    } else {
        interfaces
    }
}

/// The interfaces that a configuration describes, from a position on. A description
/// without a length, or that is longer than what is left, ends it.
pub open spec fn interfaces_from(
    config: Seq<u8>,
    position: int,
    interfaces: Seq<InterfaceView>,
    vendor: u16,
    product: u16,
) -> Seq<InterfaceView>
    decreases config.len() - position,
{
    if position < 0 || position + 2 > config.len() || config[position] == 0 || position
        + config[position] > config.len() {
        interfaces
    } else {
        interfaces_from(
            config,
            position + config[position],
            described(config, position, interfaces, vendor, product),
            vendor,
            product,
        )
    }
}

/// The interfaces that a configuration describes.
pub fn parse_interfaces(config: &Vec<u8>, vendor: u16, product: u16) -> (interfaces: Vec<
    UsbInterfaceInfo,
>)
    ensures
        interface_views(interfaces@) == interfaces_from(
            config@,
            9,
            Seq::empty(),
            vendor,
            product,
        ),
{
    let mut interfaces: Vec<UsbInterfaceInfo> = Vec::new();
    let mut position: usize = 9;
    assert(interface_views(interfaces@) =~= Seq::<InterfaceView>::empty());
    while position < config.len() && config.len() - position >= 2
        invariant
            interfaces_from(config@, 9, Seq::empty(), vendor, product) == interfaces_from(
                config@,
                position as int,
                interface_views(interfaces@),
                vendor,
                product,
            ),
        decreases config@.len() - position,
    {
        let length: usize = config[position] as usize;
        let kind: u8 = config[position + 1];
        if length == 0 || length > config.len() - position {
            return interfaces;
        }
        let ghost before = interface_views(interfaces@);
        if kind == regs::USB_DT_INTERFACE && length >= 9 {
            let desc = UsbInterfaceDesc::read(config, position);
            let ghost list = interfaces@;
            let info = UsbInterfaceInfo {
                class: desc.interface_class,
                subclass: desc.interface_subclass,
                protocol: desc.interface_protocol,
                interface_number: desc.interface_number,
                num_endpoints: desc.num_endpoints,
                endpoints: Vec::new(),
                vendor,
                product,
            };
            assert(info@.endpoints =~= Seq::<UsbEndpointDesc>::empty());
            interfaces.push(info);
            assert(interface_views(interfaces@) =~= before.push(
                new_interface(desc, vendor, product),
            ));
        } else if kind == regs::USB_DT_ENDPOINT && length >= 7 && interfaces.len() > 0 {
            let desc = UsbEndpointDesc {
                address: config[position + 2],
                attributes: config[position + 3],
                max_packet_size: le16(config.as_slice(), position + 4),
                interval: config[position + 6],
            };
            let last: usize = interfaces.len() - 1;
            interfaces[last].endpoints.push(desc);
            let count: usize = interfaces[last].endpoints.len();
            interfaces[last].num_endpoints = (count % 256) as u8;
            assert(interface_views(interfaces@) =~= before.update(
                last as int,
                with_endpoint(before.last(), desc),
            ));
        }
        assert(interface_views(interfaces@) == described(
            config@,
            position as int,
            before,
            vendor,
            product,
        ));
        position += length;
    }
    interfaces
}

/// Every endpoint belongs to an interface, and each interface counts its own.
pub proof fn endpoints_are_counted(
    config: Seq<u8>,
    position: int,
    interfaces: Seq<InterfaceView>,
    vendor: u16,
    product: u16,
    i: int,
)
    requires
        forall|k: int|
            0 <= k < interfaces.len() ==> counts_its_own(#[trigger] interfaces[k]),
        0 <= i < interfaces_from(config, position, interfaces, vendor, product).len(),
    ensures
        counts_its_own(interfaces_from(config, position, interfaces, vendor, product)[i]),
    decreases config.len() - position,
{
    if !(position < 0 || position + 2 > config.len() || config[position] == 0 || position
        + config[position] > config.len()) {
        endpoints_are_counted(
            config,
            position + config[position],
            described(config, position, interfaces, vendor, product),
            vendor,
            product,
            i,
        );
    }
}

/// Whether an interface with endpoints counts them.
pub open spec fn counts_its_own(interface: InterfaceView) -> bool {
    interface.endpoints.len() > 0 ==> interface.num_endpoints == interface.endpoints.len() % 256
}

/// A device that was found.
pub struct UsbDeviceRecord {
    pub address: u8,
    pub speed: UsbSpeed,
    pub vendor: u16,
    pub product: u16,
    pub device_class: u8,
    pub device_subclass: u8,
    pub device_protocol: u8,
    pub max_packet_size: u8,
    pub num_configurations: u8,
    pub configuration: u8,
    pub interfaces: Vec<UsbInterfaceInfo>,
}

/// Zeros.
pub open spec fn zeros(count: int) -> Seq<u8> {
    Seq::new(count as nat, |i: int| 0u8)
}

/// The request for a descriptor.
pub open spec fn descriptor_request(kind: u8, index: u8, length: int) -> UsbSetup {
    UsbSetup {
        request_type: 0x80,
        request: regs::USB_REQ_GET_DESCRIPTOR,
        value: (kind * 256 + index) as u16,
        index: 0,
        length: length as u16,
    }
}

/// A request without data.
pub open spec fn plain_request(request: u8, value: u8) -> UsbSetup {
    UsbSetup { request_type: 0, request, value: value as u16, index: 0, length: 0 }
}

/// Whether a call is this request.
pub open spec fn requested(
    call: Call,
    address: u8,
    setup: UsbSetup,
    data: Seq<u8>,
    data_in: bool,
) -> bool {
    &&& call is Control
    &&& call->address == address
    &&& call->setup == setup
    &&& call->data == data
    &&& call->data_in == data_in
    &&& call->after.len() == data.len()
}

/// The address that comes after another one; it has seven bits.
pub open spec fn address_of(next: u8) -> u8 {
    if next == 0 {
        1
    } else {
        (next % 128) as u8
    }
}

/// The speed of a device.
pub open spec fn speed_of(code: u8) -> UsbSpeed {
    if code == regs::USB_SPEED_HIGH {
        UsbSpeed::High
    } else if code == regs::USB_SPEED_LOW {
        UsbSpeed::Low
    } else {
        UsbSpeed::Full
    }
}

/// A configuration that was chosen: its number, its value, and its bytes.
pub ghost struct Chosen {
    pub value: u8,
    pub config: Seq<u8>,
}

/// Whether the calls from `at` on choose a configuration, from `index` on: the head
/// is read, then all of it, and the first that is complete is set. One whose head
/// is wrong, or that is too long, or shorter than its own head, or that cannot be
/// read completely is passed over.
pub open spec fn chosen(
    t: Seq<Call>,
    at: int,
    address: u8,
    index: int,
    count: int,
    result: Result<Option<Chosen>, &'static str>,
) -> bool
    decreases count - index,
{
    if index >= count {
        t.len() == at && result == Ok::<Option<Chosen>, &'static str>(None)
    } else {
        let head = t[at];
        &&& t.len() > at
        &&& requested(
            head,
            address,
            descriptor_request(regs::USB_DT_CONFIG, index as u8, 9),
            zeros(9),
            true,
        )
        &&& match head->result {
            Err(error) => t.len() == at + 1 && result == Err::<Option<Chosen>, &'static str>(error),
            Ok(got) => {
                let total = bytes::le16_at(head->after, 2) as int;
                if got < 9 || head->after[1] != regs::USB_DT_CONFIG || total > 4096 || total < 9 {
                    chosen(t, at + 1, address, index + 1, count, result)
                } else {
                    let whole = t[at + 1];
                    &&& t.len() > at + 1
                    &&& requested(
                        whole,
                        address,
                        descriptor_request(regs::USB_DT_CONFIG, index as u8, total),
                        head->after + zeros(total - 9),
                        true,
                    )
                    &&& match whole->result {
                        Err(error) => t.len() == at + 2 && result == Err::<
                            Option<Chosen>,
                            &'static str,
                        >(error),
                        Ok(got) => if got < total {
                            chosen(t, at + 2, address, index + 1, count, result)
                        } else {
                            let value = head->after[5];
                            &&& t.len() == at + 3
                            &&& requested(
                                t[at + 2],
                                address,
                                plain_request(regs::USB_REQ_SET_CONFIGURATION, value),
                                Seq::empty(),
                                false,
                            )
                            &&& match t[at + 2]->result {
                                Err(error) => result == Err::<Option<Chosen>, &'static str>(error),
                                Ok(_) => result == Ok::<Option<Chosen>, &'static str>(
                                    Some(Chosen { value, config: whole->after }),
                                ),
                            }
                        },
                    }
                }
            },
        }
    }
}

/// Whether the calls find the device at a port: the port is reset; if the device is
/// still there, its first descriptor is read, it is given an address, and, after it
/// had time to take it, the rest is read at that address.
pub open spec fn enumerated(
    t: Seq<Call>,
    port: usize,
    next: u8,
    result: Result<Option<UsbDeviceRecord>, &'static str>,
    after: u8,
) -> bool {
    let address = address_of(next);
    &&& t.len() >= 1
    &&& t[0] is Reset
    &&& t[0]->reset_port == port
    &&& match t[0]->reset_result {
        Err(error) => t.len() == 1 && after == next && result == Err::<
            Option<UsbDeviceRecord>,
            &'static str,
        >(error),
        Ok(speed) => {
            &&& t.len() >= 2
            &&& t[1] is Connected
            &&& t[1]->seen_port == port
            &&& if !t[1]->seen {
                t.len() == 2 && after == next && result == Ok::<
                    Option<UsbDeviceRecord>,
                    &'static str,
                >(None)
            } else {
                &&& t.len() >= 3
                &&& requested(
                    t[2],
                    0,
                    descriptor_request(regs::USB_DT_DEVICE, 0, 8),
                    zeros(8),
                    true,
                )
                &&& match t[2]->result {
                    Err(error) => t.len() == 3 && after == next && result == Err::<
                        Option<UsbDeviceRecord>,
                        &'static str,
                    >(error),
                    Ok(got) => if got < 8 || t[2]->after[1] != regs::USB_DT_DEVICE {
                        t.len() == 3 && after == next && result == Err::<
                            Option<UsbDeviceRecord>,
                            &'static str,
                        >("invalid short device descriptor")
                    } else {
                        &&& after == ((next + 1) % 256) as u8
                        &&& addressed(t, speed, address, result)
                    },
                }
            }
        },
    }
}

/// The rest of finding a device, from giving it an address on.
pub open spec fn addressed(
    t: Seq<Call>,
    speed: u8,
    address: u8,
    result: Result<Option<UsbDeviceRecord>, &'static str>,
) -> bool {
    &&& t.len() >= 4
    &&& requested(
        t[3],
        0,
        plain_request(regs::USB_REQ_SET_ADDRESS, address),
        Seq::empty(),
        false,
    )
    &&& match t[3]->result {
        Err(error) => t.len() == 4 && result == Err::<Option<UsbDeviceRecord>, &'static str>(error),
        Ok(_) => {
            &&& t.len() >= 6
            &&& t[4] == (Call::Wait { duration_ns: 2_000_000 })
            &&& requested(
                t[5],
                address,
                descriptor_request(regs::USB_DT_DEVICE, 0, 18),
                zeros(18),
                true,
            )
            &&& match t[5]->result {
                Err(error) => t.len() == 6 && result == Err::<
                    Option<UsbDeviceRecord>,
                    &'static str,
                >(error),
                Ok(got) => if got < 18 || t[5]->after[1] != regs::USB_DT_DEVICE {
                    t.len() == 6 && result == Err::<Option<UsbDeviceRecord>, &'static str>(
                        "invalid device descriptor",
                    )
                } else {
                    exists|choice: Result<Option<Chosen>, &'static str>| #[trigger]
                        configured(t, speed, address, t[2]->after, t[5]->after, choice, result)
                },
            }
        },
    }
}

/// The end of finding a device: what is known of it once a configuration is set.
pub open spec fn configured(
    t: Seq<Call>,
    speed: u8,
    address: u8,
    short: Seq<u8>,
    desc: Seq<u8>,
    choice: Result<Option<Chosen>, &'static str>,
    result: Result<Option<UsbDeviceRecord>, &'static str>,
) -> bool {
    let vendor = bytes::le16_at(desc, 8);
    let product = bytes::le16_at(desc, 10);
    let count = if desc[17] == 0 {
        1int
    } else {
        desc[17] as int
    };
    &&& chosen(t, 6, address, 0, count, choice)
    &&& match choice {
        Err(error) => result == Err::<Option<UsbDeviceRecord>, &'static str>(error),
        Ok(None) => result == Err::<Option<UsbDeviceRecord>, &'static str>(
            "no usable configuration",
        ),
        Ok(Some(chosen)) => {
            &&& result matches Ok(Some(device))
            &&& device.address == address
            &&& device.speed == speed_of(speed)
            &&& device.vendor == vendor
            &&& device.product == product
            &&& device.device_class == desc[4]
            &&& device.device_subclass == desc[5]
            &&& device.device_protocol == desc[6]
            &&& device.max_packet_size == (if short[7] < 8 {
                8
            } else {
                short[7]
            })
            &&& device.num_configurations == desc[17]
            &&& device.configuration == chosen.value
            &&& interface_views(device.interfaces@) == interfaces_from(
                chosen.config,
                9,
                Seq::empty(),
                vendor,
                product,
            )
        },
    }
}

fn zero_bytes(count: usize) -> (data: Vec<u8>)
    ensures
        data@ == zeros(count as int),
{
    let mut data: Vec<u8> = Vec::new();
    let mut i: usize = 0;
    while i < count
        invariant
            i <= count,
            data@.len() == i,
            forall|k: int| 0 <= k < i ==> data@[k] == 0,
        decreases count - i,
    {
        data.push(0);
        i += 1;
    }
    assert(data@ =~= zeros(count as int));
    data
}

/// A bus, with the host controller that it hangs on.
pub struct UsbBus<H> {
    pub bus_id: u8,
    pub hcd: H,
    pub next_address: u8,
}

/// What became of a port.
pub enum PortOutcome {
    /// The device left while it was looked for.
    Left,
    Found(UsbDeviceRecord),
    Failed(&'static str),
}

/// Whether an outcome is what finding the device came to.
pub open spec fn outcome_is(
    outcome: PortOutcome,
    result: Result<Option<UsbDeviceRecord>, &'static str>,
) -> bool {
    match result {
        Ok(None) => outcome == PortOutcome::Left,
        Ok(Some(device)) => outcome == PortOutcome::Found(device),
        Err(error) => outcome == PortOutcome::Failed(error),
    }
}

/// A moment of a scan.
pub ghost struct ScanStage {
    pub calls: Seq<Call>,
    pub next: u8,
    pub outcomes: Seq<(usize, PortOutcome)>,
}

/// Whether a port was scanned from one moment to the next: a device is looked for
/// if one is connected.
pub open spec fn port_scanned(stages: Seq<ScanStage>, port: int) -> bool {
    let before = stages[port];
    let after = stages[port + 1];
    exists|connected: bool, t: Seq<Call>, result: Result<Option<UsbDeviceRecord>, &'static str>|
        #[trigger] scan_step(before, after, port as usize, connected, t, result)
}

pub open spec fn scan_step(
    before: ScanStage,
    after: ScanStage,
    port: usize,
    connected: bool,
    t: Seq<Call>,
    result: Result<Option<UsbDeviceRecord>, &'static str>,
) -> bool {
    let looked = before.calls.push(Call::Connected { seen_port: port, seen: connected });
    if !connected {
        after == (ScanStage { calls: looked, ..before })
    } else {
        &&& enumerated(t, port, before.next, result, after.next)
        &&& after.calls == looked + t
        &&& after.outcomes.len() == before.outcomes.len() + 1
        &&& after.outcomes.drop_last() == before.outcomes
        &&& after.outcomes.last().0 == port
        &&& outcome_is(after.outcomes.last().1, result)
    }
}

impl<H: UsbHcd> UsbBus<H> {
    pub open spec fn the_hcd(&self) -> H {
        self.hcd
    }

    pub open spec fn next(&self) -> u8 {
        self.next_address
    }

    pub open spec fn wf(&self) -> bool {
        self.the_hcd().wf()
    }

    pub open spec fn calls(&self) -> Seq<Call> {
        self.the_hcd().calls()
    }

    pub fn new(bus_id: u8, hcd: H) -> (bus: Self)
        requires
            hcd.wf(),
        ensures
            bus.wf(),
            bus.bus_id == bus_id,
            bus.the_hcd() == hcd,
            bus.next() == 1,
    {
        UsbBus { bus_id, hcd, next_address: 1 }
    }

    pub fn hcd(&self) -> (hcd: &H)
        ensures
            *hcd == self.the_hcd(),
    {
        &self.hcd
    }

    /// Gives the host controller back.
    pub fn into_hcd(self) -> (hcd: H)
        ensures
            hcd == self.the_hcd(),
    {
        self.hcd
    }

    fn alloc_address(&mut self) -> (address: u8)
        ensures
            address == address_of(old(self).next()),
            final(self).next() == ((old(self).next() + 1) % 256) as u8,
            final(self).the_hcd() == old(self).the_hcd(),
            final(self).bus_id == old(self).bus_id,
    {
        let next: u8 = self.next_address;
        self.next_address = if next == 255 {
            0
        } else {
            next + 1
        };
        if next == 0 {
            1
        } else {
            next % 128
        }
    }

    fn get_descriptor(&mut self, address: u8, kind: u8, index: u8, out: &mut Vec<u8>) -> (result:
        Result<usize, &'static str>)
        requires
            old(self).wf(),
            old(out)@.len() <= u16::MAX,
        ensures
            final(self).wf(),
            final(self).the_hcd().ports() == old(self).the_hcd().ports(),
            final(self).next() == old(self).next(),
            final(self).bus_id == old(self).bus_id,
            final(out)@.len() == old(out)@.len(),
            final(self).calls() == old(self).calls().push(
                Call::Control {
                    address,
                    setup: descriptor_request(kind, index, old(out)@.len() as int),
                    data: old(out)@,
                    data_in: true,
                    result,
                    after: final(out)@,
                },
            ),
    {
        let setup = UsbSetup {
            request_type: regs::USB_DIR_IN + regs::USB_TYPE_STANDARD + regs::USB_RECIP_DEVICE,
            request: regs::USB_REQ_GET_DESCRIPTOR,
            value: kind as u16 * 256 + index as u16,
            index: 0,
            length: out.len() as u16,
        };
        assert(setup == descriptor_request(kind, index, out@.len() as int));
        self.hcd.control_transfer(address, setup, out, true)
    }

    fn plain(&mut self, address: u8, request: u8, value: u8) -> (result: Result<
        usize,
        &'static str,
    >)
        requires
            old(self).wf(),
        ensures
            final(self).wf(),
            final(self).the_hcd().ports() == old(self).the_hcd().ports(),
            final(self).next() == old(self).next(),
            final(self).bus_id == old(self).bus_id,
            final(self).calls() == old(self).calls().push(
                Call::Control {
                    address,
                    setup: plain_request(request, value),
                    data: Seq::empty(),
                    data_in: false,
                    result,
                    after: Seq::empty(),
                },
            ),
    {
        let setup = UsbSetup {
            request_type: regs::USB_DIR_OUT + regs::USB_TYPE_STANDARD + regs::USB_RECIP_DEVICE,
            request,
            value: value as u16,
            index: 0,
            length: 0,
        };
        let mut empty: Vec<u8> = Vec::new();
        let ghost before = empty@;
        assert(before =~= Seq::<u8>::empty());
        let result = self.hcd.control_transfer(address, setup, &mut empty, false);
        assert(empty@ =~= Seq::<u8>::empty());
        result
    }

    /// Reads the configurations until one is complete, and sets it.
    #[verifier::rlimit(60)]
    fn choose_configuration(&mut self, address: u8, count: u8) -> (result: Result<
        Option<(u8, Vec<u8>)>,
        &'static str,
    >)
        requires
            old(self).wf(),
        ensures
            final(self).wf(),
            final(self).the_hcd().ports() == old(self).the_hcd().ports(),
            final(self).next() == old(self).next(),
            final(self).bus_id == old(self).bus_id,
            exists|t: Seq<Call>| #[trigger]
                chosen(t, 0, address, 0, count as int, chosen_view(result)) && final(self).calls()
                    == old(self).calls() + t,
    {
        let ghost start = self.calls();
        let ghost mut t: Seq<Call> = Seq::empty();
        let mut index: u8 = 0;
        assert(start + t =~= start);
        while index < count
            invariant
                index <= count,
                self.wf(),
                self.the_hcd().ports() == old(self).the_hcd().ports(),
                self.next() == old(self).next(),
                self.bus_id == old(self).bus_id,
                start == old(self).calls(),
                self.calls() == start + t,
                passed_over(t, 0, address, 0, index as int),
            decreases count - index,
        {
            let ghost before = t;
            let mut head: Vec<u8> = zero_bytes(9);
            let got_head = self.get_descriptor(address, regs::USB_DT_CONFIG, index, &mut head);
            proof {
                t = t.push(self.calls().last());
                assert(self.calls() =~= start + t);
            }
            let got: usize = match got_head {
                Ok(got) => got,
                Err(error) => {
                    proof {
                        assert(chosen(
                            t,
                            before.len() as int,
                            address,
                            index as int,
                            count as int,
                            Err(error),
                        ));
                        lemma_passed_over(
                            before,
                            t,
                            0,
                            address,
                            0,
                            index as int,
                            count as int,
                            Err(error),
                        );
                    }
                    return Err(error);
                },
            };
            let total: usize = le16(head.as_slice(), 2) as usize;
            if got < 9 || head[1] != regs::USB_DT_CONFIG || total > 4096 || total < 9 {
                proof {
                    lemma_one_over(before, t, 0, address, 0, index as int);
                }
                index += 1;
                continue ;
            }
            let mut config: Vec<u8> = Vec::new();
            let mut i: usize = 0;
            while i < total
                invariant
                    i <= total,
                    head@.len() == 9,
                    config@.len() == i,
                    forall|k: int|
                        0 <= k < i ==> config@[k] == (if k < 9 {
                            head@[k]
                        } else {
                            0
                        }),
                decreases total - i,
            {
                config.push(
                    if i < 9 {
                        head[i]
                    } else {
                        0
                    },
                );
                i += 1;
            }
            assert(config@ =~= head@ + zeros(total - 9));
            let got_config = self.get_descriptor(
                address,
                regs::USB_DT_CONFIG,
                index,
                &mut config,
            );
            proof {
                t = t.push(self.calls().last());
                assert(self.calls() =~= start + t);
            }
            let got: usize = match got_config {
                Ok(got) => got,
                Err(error) => {
                    proof {
                        assert(chosen(
                            t,
                            before.len() as int,
                            address,
                            index as int,
                            count as int,
                            Err(error),
                        ));
                        lemma_passed_over(
                            before,
                            t,
                            0,
                            address,
                            0,
                            index as int,
                            count as int,
                            Err(error),
                        );
                    }
                    return Err(error);
                },
            };
            if got < total {
                proof {
                    lemma_one_over(before, t, 0, address, 0, index as int);
                }
                index += 1;
                continue ;
            }
            let value: u8 = head[5];
            let set = self.plain(address, regs::USB_REQ_SET_CONFIGURATION, value);
            proof {
                t = t.push(self.calls().last());
                assert(self.calls() =~= start + t);
            }
            let ghost view = match set {
                Ok(_) => Ok::<Option<Chosen>, &'static str>(
                    Some(Chosen { value, config: config@ }),
                ),
                Err(error) => Err(error),
            };
            proof {
                assert(chosen(
                    t,
                    before.len() as int,
                    address,
                    index as int,
                    count as int,
                    view,
                ));
                lemma_passed_over(
                    before,
                    t,
                    0,
                    address,
                    0,
                    index as int,
                    count as int,
                    view,
                );
            }
            return match set {
                Ok(_) => Ok(Some((value, config))),
                Err(error) => Err(error),
            };
        }
        proof {
            assert(chosen(
                t,
                t.len() as int,
                address,
                index as int,
                count as int,
                Ok(None),
            ));
            lemma_passed_over(t, t, 0, address, 0, index as int, count as int, Ok(None));
        }
        Ok(None)
    }

    /// Finds the device at a port.
    #[verifier::rlimit(60)]
    pub fn enumerate_port(&mut self, port: usize) -> (result: Result<
        Option<UsbDeviceRecord>,
        &'static str,
    >)
        requires
            old(self).wf(),
            port < old(self).the_hcd().ports(),
        ensures
            final(self).wf(),
            final(self).the_hcd().ports() == old(self).the_hcd().ports(),
            final(self).bus_id == old(self).bus_id,
            exists|t: Seq<Call>| #[trigger]
                enumerated(t, port, old(self).next(), result, final(self).next()) && final(self).calls() == old(self).calls() + t,
    {
        let ghost start = self.calls();
        let ghost next = self.next();
        let ghost mut t: Seq<Call> = Seq::empty();
        let reset = self.hcd.port_reset(port);
        proof {
            t = t.push(self.calls().last());
            assert(self.calls() =~= start + t);
        }
        let speed: u8 = match reset {
            Ok(speed) => speed,
            Err(error) => {
                assert(enumerated(t, port, next, Err(error), self.next()));
                return Err(error);
            },
        };
        let connected = self.hcd.port_connected(port);
        proof {
            t = t.push(self.calls().last());
            assert(self.calls() =~= start + t);
        }
        if !connected {
            assert(enumerated(t, port, next, Ok(None), self.next()));
            return Ok(None);
        }
        let mut short: Vec<u8> = zero_bytes(8);
        let got_short = self.get_descriptor(0, regs::USB_DT_DEVICE, 0, &mut short);
        proof {
            t = t.push(self.calls().last());
            assert(self.calls() =~= start + t);
        }
        let got: usize = match got_short {
            Ok(got) => got,
            Err(error) => {
                assert(enumerated(t, port, next, Err(error), self.next()));
                return Err(error);
            },
        };
        if got < 8 || short[1] != regs::USB_DT_DEVICE {
            assert(enumerated(
                t,
                port,
                next,
                Err("invalid short device descriptor"),
                self.next(),
            ));
            return Err("invalid short device descriptor");
        }
        let max_packet: u8 = if short[7] < 8 {
            8
        } else {
            short[7]
        };
        let address: u8 = self.alloc_address();
        let set = self.plain(0, regs::USB_REQ_SET_ADDRESS, address);
        proof {
            t = t.push(self.calls().last());
            assert(self.calls() =~= start + t);
        }
        if let Err(error) = set {
            assert(addressed(t, speed, address, Err(error)));
            assert(enumerated(t, port, next, Err(error), self.next()));
            return Err(error);
        }
        self.hcd.wait(2_000_000);
        proof {
            t = t.push(self.calls().last());
            assert(self.calls() =~= start + t);
        }
        let mut desc: Vec<u8> = zero_bytes(18);
        let got_desc = self.get_descriptor(address, regs::USB_DT_DEVICE, 0, &mut desc);
        proof {
            t = t.push(self.calls().last());
            assert(self.calls() =~= start + t);
        }
        let got: usize = match got_desc {
            Ok(got) => got,
            Err(error) => {
                assert(addressed(t, speed, address, Err(error)));
                assert(enumerated(t, port, next, Err(error), self.next()));
                return Err(error);
            },
        };
        if got < 18 || desc[1] != regs::USB_DT_DEVICE {
            assert(addressed(t, speed, address, Err("invalid device descriptor")));
            assert(enumerated(t, port, next, Err("invalid device descriptor"), self.next()));
            return Err("invalid device descriptor");
        }
        let vendor: u16 = le16(desc.as_slice(), 8);
        let product: u16 = le16(desc.as_slice(), 10);
        let num_configs: u8 = desc[17];
        let count: u8 = if num_configs == 0 {
            1
        } else {
            num_configs
        };
        let ghost opened = t;
        let choice = self.choose_configuration(address, count);
        let ghost u = choose|u: Seq<Call>| #[trigger]
            chosen(u, 0, address, 0, count as int, chosen_view(choice)) && self.calls() == start
                + opened + u;
        proof {
            t = opened + u;
            assert(self.calls() =~= start + t);
            lemma_chosen_moved(
                u,
                t,
                0,
                6,
                address,
                0,
                count as int,
                chosen_view(choice),
            );
            assert(t[0] == opened[0] && t[1] == opened[1] && t[2] == opened[2] && t[3] == opened[3]
                && t[4] == opened[4] && t[5] == opened[5]);
        }
        let result = match choice {
            Err(error) => Err(error),
            Ok(None) => Err("no usable configuration"),
            Ok(Some((configuration, config))) => {
                let interfaces = parse_interfaces(&config, vendor, product);
                let speed_enum = if speed == regs::USB_SPEED_HIGH {
                    UsbSpeed::High
                } else if speed == regs::USB_SPEED_LOW {
                    UsbSpeed::Low
                } else {
                    UsbSpeed::Full
                };
                Ok(
                    Some(
                        UsbDeviceRecord {
                            address,
                            speed: speed_enum,
                            vendor,
                            product,
                            device_class: desc[4],
                            device_subclass: desc[5],
                            device_protocol: desc[6],
                            max_packet_size: max_packet,
                            num_configurations: num_configs,
                            configuration,
                            interfaces,
                        },
                    ),
                )
            },
        };
        proof {
            assert(configured(
                t,
                speed,
                address,
                t[2]->after,
                t[5]->after,
                chosen_view(choice),
                result,
            ));
            assert(addressed(t, speed, address, result));
            assert(enumerated(t, port, next, result, self.next()));
        }
        result
    }

    /// Looks for a device at every port where one is connected.
    pub fn scan_ports(&mut self) -> (outcomes: Vec<(usize, PortOutcome)>)
        requires
            old(self).wf(),
        ensures
            final(self).wf(),
            final(self).the_hcd().ports() == old(self).the_hcd().ports(),
            final(self).bus_id == old(self).bus_id,
            exists|stages: Seq<ScanStage>| #[trigger]
                scanned(
                    stages,
                    old(self).the_hcd().ports() as int,
                    old(self).calls(),
                    old(self).next(),
                    final(self).calls(),
                    final(self).next(),
                    outcomes@,
                ),
    {
        let mut outcomes: Vec<(usize, PortOutcome)> = Vec::new();
        let count: usize = self.hcd.port_count();
        let ghost first = ScanStage {
            calls: self.calls(),
            next: self.next(),
            outcomes: Seq::empty(),
        };
        let ghost mut stages: Seq<ScanStage> = seq![first];
        assert(outcomes@ =~= Seq::<(usize, PortOutcome)>::empty());
        let mut port: usize = 0;
        while port < count
            invariant
                port <= count,
                count == self.the_hcd().ports(),
                count == old(self).the_hcd().ports(),
                self.wf(),
                self.bus_id == old(self).bus_id,
                stages.len() == port + 1,
                stages[0] == first,
                first.calls == old(self).calls(),
                first.next == old(self).next(),
                first.outcomes == Seq::<(usize, PortOutcome)>::empty(),
                stages[port as int] == (ScanStage {
                    calls: self.calls(),
                    next: self.next(),
                    outcomes: outcomes@,
                }),
                forall|k: int| 0 <= k < port ==> #[trigger] port_scanned(stages, k),
            decreases count - port,
        {
            let ghost before = stages[port as int];
            let connected = self.hcd.port_connected(port);
            let ghost looked = self.calls();
            assert(self.next() == before.next);
            let ghost mut t: Seq<Call> = Seq::empty();
            let ghost mut found: Result<Option<UsbDeviceRecord>, &'static str> = Ok(None);
            if connected {
                let result = self.enumerate_port(port);
                proof {
                    t = choose|t: Seq<Call>| #[trigger]
                        enumerated(t, port, before.next, result, self.next()) && self.calls()
                            == looked + t;
                    found = result;
                }
                let outcome = match result {
                    Ok(None) => PortOutcome::Left,
                    Ok(Some(device)) => PortOutcome::Found(device),
                    Err(error) => PortOutcome::Failed(error),
                };
                outcomes.push((port, outcome));
                assert(outcomes@.drop_last() =~= before.outcomes);
            }
            proof {
                let after = ScanStage {
                    calls: self.calls(),
                    next: self.next(),
                    outcomes: outcomes@,
                };
                let shorter = stages;
                stages = stages.push(after);
                assert(scan_step(before, after, port, connected, t, found));
                assert forall|k: int| 0 <= k < port + 1 implies #[trigger] port_scanned(
                    stages,
                    k,
                ) by {
                    if k < port {
                        assert(port_scanned(shorter, k));
                        assert(stages[k] == shorter[k] && stages[k + 1] == shorter[k + 1]);
                    } else {
                        assert(stages[k] == before && stages[k + 1] == after);
                        assert(k as usize == port);
                        assert(scan_step(
                            stages[k],
                            stages[k + 1],
                            k as usize,
                            connected,
                            t,
                            found,
                        ));
                    }
                }
            }
            port += 1;
        }
        assert(scanned(
            stages,
            old(self).the_hcd().ports() as int,
            old(self).calls(),
            old(self).next(),
            self.calls(),
            self.next(),
            outcomes@,
        ));
        outcomes
    }
}

/// Whether every port was scanned, in order.
pub open spec fn scanned(
    stages: Seq<ScanStage>,
    ports: int,
    calls: Seq<Call>,
    next: u8,
    calls_after: Seq<Call>,
    next_after: u8,
    outcomes: Seq<(usize, PortOutcome)>,
) -> bool {
    &&& stages.len() == ports + 1
    &&& stages[0] == (ScanStage { calls, next, outcomes: Seq::empty() })
    &&& stages[ports] == (ScanStage { calls: calls_after, next: next_after, outcomes })
    &&& forall|port: int| 0 <= port < ports ==> #[trigger] port_scanned(stages, port)
}

/// What a choice of a configuration says.
pub open spec fn chosen_view(result: Result<Option<(u8, Vec<u8>)>, &'static str>) -> Result<
    Option<Chosen>,
    &'static str,
> {
    match result {
        Err(error) => Err(error),
        Ok(None) => Ok(None),
        Ok(Some((value, config))) => Ok(Some(Chosen { value, config: config@ })),
    }
}

/// How many calls it takes to pass over a configuration; none if it is not passed
/// over.
pub open spec fn over(t: Seq<Call>, at: int, address: u8, index: int) -> int {
    let head = t[at];
    if t.len() > at && requested(
        head,
        address,
        descriptor_request(regs::USB_DT_CONFIG, index as u8, 9),
        zeros(9),
        true,
    ) && head->result is Ok {
        let total = bytes::le16_at(head->after, 2) as int;
        let whole = t[at + 1];
        if head->result->Ok_0 < 9 || head->after[1] != regs::USB_DT_CONFIG || total > 4096 || total
            < 9 {
            1
        } else if t.len() > at + 1 && requested(
            whole,
            address,
            descriptor_request(regs::USB_DT_CONFIG, index as u8, total),
            head->after + zeros(total - 9),
            true,
        ) && whole->result is Ok && whole->result->Ok_0 < total {
            2
        } else {
            0
        }
    } else {
        0
    }
}

/// Whether all the calls from `at` on pass over the configurations from `index` to
/// `end`.
pub open spec fn passed_over(t: Seq<Call>, at: int, address: u8, index: int, end: int) -> bool
    decreases end - index,
{
    if index >= end {
        index == end && t.len() == at
    } else {
        over(t, at, address, index) > 0 && passed_over(
            t,
            at + over(t, at, address, index),
            address,
            index + 1,
            end,
        )
    }
}

proof fn lemma_one_over(
    before: Seq<Call>,
    t: Seq<Call>,
    at: int,
    address: u8,
    index: int,
    end: int,
)
    requires
        0 <= at,
        passed_over(before, at, address, index, end),
        before.len() <= t.len(),
        before =~= t.take(before.len() as int),
        over(t, before.len() as int, address, end) > 0,
        t.len() == before.len() + over(t, before.len() as int, address, end),
    ensures
        passed_over(t, at, address, index, end + 1),
    decreases end - index,
{
    if index >= end {
        assert(passed_over(t, t.len() as int, address, end + 1, end + 1));
    } else {
        let step = over(before, at, address, index);
        lemma_over_same(before, t, at, address, index);
        lemma_one_over(before, t, at + step, address, index + 1, end);
    }
}

proof fn lemma_over_same(before: Seq<Call>, t: Seq<Call>, at: int, address: u8, index: int)
    requires
        0 <= at,
        before.len() <= t.len(),
        before =~= t.take(before.len() as int),
        over(before, at, address, index) > 0,
    ensures
        over(t, at, address, index) == over(before, at, address, index),
{
    assert(before[at] == t[at]);
    if before.len() > at + 1 {
        assert(before[at + 1] == t[at + 1]);
    }
}

proof fn lemma_passed_over(
    before: Seq<Call>,
    t: Seq<Call>,
    at: int,
    address: u8,
    index: int,
    end: int,
    count: int,
    result: Result<Option<Chosen>, &'static str>,
)
    requires
        0 <= at,
        0 <= index <= end <= count <= 255,
        passed_over(before, at, address, index, end),
        before.len() <= t.len(),
        before =~= t.take(before.len() as int),
        chosen(t, before.len() as int, address, end, count, result),
    ensures
        chosen(t, at, address, index, count, result),
    decreases end - index,
{
    if index < end {
        let step = over(before, at, address, index);
        lemma_over_same(before, t, at, address, index);
        lemma_passed_over(before, t, at + step, address, index + 1, end, count, result);
    }
}

proof fn lemma_chosen_moved(
    u: Seq<Call>,
    t: Seq<Call>,
    at: int,
    shift: int,
    address: u8,
    index: int,
    count: int,
    result: Result<Option<Chosen>, &'static str>,
)
    requires
        0 <= at,
        0 <= shift,
        t.len() == u.len() + shift,
        t.skip(shift) =~= u,
        chosen(u, at, address, index, count, result),
    ensures
        chosen(t, at + shift, address, index, count, result),
    decreases count - index,
{
    if index < count {
        assert(t.skip(shift)[at] == t[at + shift]);
        if u.len() > at + 1 {
            assert(t.skip(shift)[at + 1] == t[at + 1 + shift]);
        }
        if u.len() > at + 2 {
            assert(t.skip(shift)[at + 2] == t[at + 2 + shift]);
        }
        let head = u[at];
        if let Ok(got) = head->result {
            let total = bytes::le16_at(head->after, 2) as int;
            if got < 9 || head->after[1] != regs::USB_DT_CONFIG || total > 4096 || total < 9 {
                lemma_chosen_moved(u, t, at + 1, shift, address, index + 1, count, result);
            } else {
                let whole = u[at + 1];
                if let Ok(got) = whole->result {
                    if got < total {
                        lemma_chosen_moved(u, t, at + 2, shift, address, index + 1, count, result);
                    }
                }
            }
        }
    }
}

} // verus!
