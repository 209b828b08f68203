//! What finding a device means to it: the requests that it gets, and that what is known
//! of it afterwards is what it answered.

use vstd::prelude::*;
use crate::usb::bus;
use crate::usb::bus::{Call, Chosen, InterfaceView, UsbDeviceRecord, UsbEndpointDesc, UsbSpeed};
use crate::usb::transaction;
use crate::usb::ehci::{AsyncStopState, StartFailure};

verus! {

/// Whether a call is a request to a device: what it asks for, the number that goes with
/// it, and how many bytes of data there are, from the device or to it.
pub open spec fn asks(
    call: Call,
    address: int,
    request_type: int,
    request: int,
    value: int,
    len: int,
) -> bool {
    &&& call is Control
    &&& call->address == address
    &&& call->setup.request_type == request_type
    &&& call->setup.request == request
    &&& call->setup.value == value
    &&& call->setup.index == 0
    &&& call->setup.length == len
    &&& call->data.len() == len
    &&& call->data_in == (request_type >= 0x80)
}

/// Whether the calls from a place on are all requests to an address.
pub open spec fn all_to(t: Seq<Call>, at: int, address: u8) -> bool {
    forall|i: int| at <= i < t.len() ==> (#[trigger] t[i]) is Control && t[i]->address == address
}

proof fn lemma_chosen(
    t: Seq<Call>,
    at: int,
    address: u8,
    index: int,
    count: int,
    value: u8,
    config: Seq<u8>,
)
    requires
        0 <= at,
        0 <= index < 256,
        count <= 255,
        bus::chosen(
            t,
            at,
            address,
            index,
            count,
            Ok(Some(Chosen { value, config })),
        ),
    ensures
        t.len() >= at + 3,
        all_to(t, at, address),
        asks(t[t.len() - 1], address as int, 0, 9, value as int, 0),
        ({
            let head = t[t.len() - 3];
            let whole = t[t.len() - 2];
            let total = head->after[2] + 256 * head->after[3];
            &&& exists|number: int|
                0 <= number < count && #[trigger] asks(
                    head,
                    address as int,
                    0x80,
                    6,
                    0x200 + number,
                    9,
                ) && asks(whole, address as int, 0x80, 6, 0x200 + number, total)
            &&& head->after[1] == 2
            &&& value == head->after[5]
            &&& config == whole->after
            &&& config.len() == total
            &&& whole->result matches Ok(got) && got >= total
        }),
    decreases count - index,
{
    let head = t[at];
    if index < count {
        match head->result {
            Err(error) => {},
            Ok(got) => {
                let total = crate::bytes::le16_at(head->after, 2) as int;
                if got < 9 || head->after[1] != 2 || total > 4096 || total < 9 {
                    lemma_chosen(t, at + 1, address, index + 1, count, value, config);
                } else {
                    let whole = t[at + 1];
                    match whole->result {
                        Err(error) => {},
                        Ok(got) => {
                            if got < total {
                                lemma_chosen(t, at + 2, address, index + 1, count, value, config);
                            } else {
                                assert(asks(head, address as int, 0x80, 6, 0x200 + index, 9));
                            }
                        },
                    }
                }
            },
        }
    }
}

/// A device that is found was given its address while it had none, and every later request
/// went to that address; it was set to the configuration that is recorded. What is recorded
/// of it is what it answered: its maker and product, its class, how long its first packets
/// are, and its speed as the port said.
pub proof fn found_device_is_as_it_answered(
    t: Seq<Call>,
    port: usize,
    next: u8,
    device: UsbDeviceRecord,
    after: u8,
)
    requires
        bus::enumerated(t, port, next, Ok(Some(device)), after),
    ensures
        t.len() >= 9,
        t[0] is Reset,
        t[0]->reset_port == port,
        asks(t[2], 0, 0x80, 6, 0x100, 8),
        asks(t[3], 0, 0, 5, device.address as int, 0),
        asks(t[5], device.address as int, 0x80, 6, 0x100, 18),
        all_to(t, 5, device.address),
        asks(t[t.len() - 1], device.address as int, 0, 9, device.configuration as int, 0),
        device.configuration == t[t.len() - 3]->after[5],
        device.vendor == t[5]->after[8] + 256 * t[5]->after[9],
        device.product == t[5]->after[10] + 256 * t[5]->after[11],
        device.device_class == t[5]->after[4],
        device.device_subclass == t[5]->after[5],
        device.device_protocol == t[5]->after[6],
        device.num_configurations == t[5]->after[17],
        t[2]->after[7] >= 8 ==> device.max_packet_size == t[2]->after[7],
        device.max_packet_size >= 8,
        t[0]->reset_result == Ok::<u8, &'static str>(0) ==> device.speed == UsbSpeed::High,
        t[0]->reset_result == Ok::<u8, &'static str>(1) ==> device.speed == UsbSpeed::Full,
        t[0]->reset_result == Ok::<u8, &'static str>(2) ==> device.speed == UsbSpeed::Low,
        bus::interface_views(device.interfaces@) == bus::interfaces_from(
            t[t.len() - 2]->after,
            9,
            Seq::empty(),
            device.vendor,
            device.product,
        ),
        0 < next < 128 ==> device.address == next,
        device.address < 128,
{
    let speed = t[0]->reset_result->Ok_0;
    let address = bus::address_of(next);
    let choice = choose|choice: Result<Option<Chosen>, &'static str>| #[trigger]
        bus::configured(
            t,
            speed,
            address,
            t[2]->after,
            t[5]->after,
            choice,
            Ok(Some(device)),
        );
    let desc = t[5]->after;
    let count = if desc[17] == 0 {
        1int
    } else {
        desc[17] as int
    };
    let picked = choice->Ok_0->0;
    lemma_chosen(t, 6, address, 0, count, picked.value, picked.config);
    assert(t[5]->address == address);
}

/// Two devices that are found one after the other get different addresses, until there are
/// no new ones.
pub proof fn devices_get_different_addresses(
    first: Seq<Call>,
    second: Seq<Call>,
    port: usize,
    other: usize,
    next: u8,
    between: u8,
    after: u8,
    one: UsbDeviceRecord,
    two: UsbDeviceRecord,
)
    requires
        bus::enumerated(first, port, next, Ok(Some(one)), between),
        bus::enumerated(second, other, between, Ok(Some(two)), after),
        0 < next < 127,
    ensures
        one.address != two.address,
        one.address != 0,
        two.address != 0,
{
    found_device_is_as_it_answered(first, port, next, one, between);
    found_device_is_as_it_answered(second, other, between, two, after);
}

/// An interface and two endpoints as a device describes them.
pub open spec fn interface_bytes(
    number: u8,
    class: u8,
    subclass: u8,
    protocol: u8,
    one: UsbEndpointDesc,
    two: UsbEndpointDesc,
) -> Seq<u8> {
    seq![
        9u8,
        4u8,
        number,
        0u8,
        2u8,
        class,
        subclass,
        protocol,
        0u8,
        7u8,
        5u8,
        one.address,
        one.attributes,
        (one.max_packet_size % 256) as u8,
        (one.max_packet_size / 256) as u8,
        one.interval,
        7u8,
        5u8,
        two.address,
        two.attributes,
        (two.max_packet_size % 256) as u8,
        (two.max_packet_size / 256) as u8,
        two.interval,
    ]
}

/// An interface is recorded as the device describes it, with its endpoints in their order.
pub proof fn interface_is_as_described(
    config: Seq<u8>,
    number: u8,
    class: u8,
    subclass: u8,
    protocol: u8,
    one: UsbEndpointDesc,
    two: UsbEndpointDesc,
    vendor: u16,
    product: u16,
)
    requires
        config.len() == 32,
        config.skip(9) == interface_bytes(number, class, subclass, protocol, one, two),
    ensures
        bus::interfaces_from(config, 9, Seq::empty(), vendor, product) == seq![
            (InterfaceView {
                class,
                subclass,
                protocol,
                interface_number: number,
                num_endpoints: 2,
                endpoints: seq![one, two],
                vendor,
                product,
            }),
        ],
{
    let b = interface_bytes(number, class, subclass, protocol, one, two);
    assert forall|i: int| 0 <= i < 23 implies config[9 + i] == b[i] by {
        assert(config.skip(9)[i] == config[9 + i]);
    }
    assert(config[9] == b[0] && config[10] == b[1] && config[11] == b[2] && config[12] == b[3]
        && config[13] == b[4] && config[14] == b[5] && config[15] == b[6] && config[16] == b[7]
        && config[17] == b[8]);
    assert(config[18] == b[9] && config[19] == b[10] && config[20] == b[11] && config[21] == b[12]
        && config[22] == b[13] && config[23] == b[14] && config[24] == b[15]);
    assert(config[25] == b[16] && config[26] == b[17] && config[27] == b[18] && config[28] == b[19]
        && config[29] == b[20] && config[30] == b[21] && config[31] == b[22]);
    let none = Seq::<InterfaceView>::empty();
    let bare = InterfaceView {
        class,
        subclass,
        protocol,
        interface_number: number,
        num_endpoints: 2,
        endpoints: Seq::empty(),
        vendor,
        product,
    };
    let with_one = InterfaceView { endpoints: seq![one], num_endpoints: 1, ..bare };
    let with_two = InterfaceView { endpoints: seq![one, two], num_endpoints: 2, ..bare };
    assert(bus::described(config, 9, none, vendor, product) =~= seq![bare]);
    assert(bus::endpoint_at(config, 18) == one);
    assert(bus::endpoint_at(config, 25) == two);
    assert(bare.endpoints.push(one) =~= seq![one]);
    assert(with_one.endpoints.push(two) =~= seq![one, two]);
    assert(bus::described(config, 18, seq![bare], vendor, product) =~= seq![with_one]);
    assert(bus::described(config, 25, seq![with_one], vendor, product) =~= seq![with_two]);
    assert(bus::interfaces_from(config, 32, seq![with_two], vendor, product) == seq![with_two]);
    assert(bus::interfaces_from(config, 25, seq![with_one], vendor, product) == seq![with_two]);
    assert(bus::interfaces_from(config, 18, seq![bare], vendor, product) == seq![with_two]);
    assert(bus::interfaces_from(config, 9, none, vendor, product) == seq![with_two]);
}

/// A high-speed transfer succeeds only if the controller ended it without a halt and
/// stopped in good order; what counts as moved is what the controller did not leave over.
pub proof fn moved_bytes_are_counted(
    end: Option<u32>,
    state: AsyncStopState,
    restarted: Result<(), StartFailure>,
    expected: usize,
    token: u32,
)
    ensures
        transaction::outcome(end, state, restarted, expected, token) matches Ok(moved) ==> {
            &&& end is Some
            &&& end->0 / 0x40 % 2 == 0
            &&& restarted is Ok
            &&& state == AsyncStopState::ScheduleStopped
            &&& token / 0x1_0000 % 0x8000 <= expected ==> moved + token / 0x1_0000 % 0x8000
                == expected
            &&& moved <= expected
        },
        end is Some && end->0 / 0x40 % 2 == 0 && restarted is Ok && state
            == AsyncStopState::ScheduleStopped ==> transaction::outcome(
            end,
            state,
            restarted,
            expected,
            token,
        ) is Ok,
{
}

} // verus!
