//! Making a device and its interfaces known to the kernel.

use vstd::prelude::*;
use crate::text;

verus! {

/// What is to be done next for a device that was found. An interface is named by its
/// place among those of the device.
#[derive(Clone, Copy, PartialEq, Eq, Debug)]
pub enum PublishStep {
    CreateDevice,
    RegisterDevice,
    WrapDevice,
    CreateInterface(usize),
    RegisterInterface(usize),
    ProbeInterface(usize),
    /// How many interfaces are known, or why it ended.
    Finished(Result<usize, &'static str>),
}

/// The step for an interface, or the end behind the last one.
pub open spec fn interface_step(index: usize, count: usize) -> PublishStep {
    if index < count {
        PublishStep::CreateInterface(index)
    } else {
        PublishStep::Finished(Ok(count))
    }
}

/// The step after a step. Every failure ends it, but for that of a driver that does
/// not take an interface.
pub open spec fn published(step: PublishStep, done: bool, count: usize) -> PublishStep {
    match step {
        PublishStep::CreateDevice => if done {
            PublishStep::RegisterDevice
        } else {
            PublishStep::Finished(Err("usb device pnp allocation failed"))
        },
        PublishStep::RegisterDevice => if done {
            PublishStep::WrapDevice
        } else {
            PublishStep::Finished(Err("usb device registration failed"))
        },
        PublishStep::WrapDevice => if done {
            interface_step(0, count)
        } else {
            PublishStep::Finished(Err("usb device wrapper failed"))
        },
        PublishStep::CreateInterface(index) => if done {
            PublishStep::RegisterInterface(index)
        } else {
            PublishStep::Finished(Err("usb interface creation failed"))
        },
        PublishStep::RegisterInterface(index) => if done {
            PublishStep::ProbeInterface(index)
        } else {
            PublishStep::Finished(Err("usb interface registration failed"))
        },
        PublishStep::ProbeInterface(index) => if index < count {
            interface_step((index + 1) as usize, count)
        } else {
            PublishStep::Finished(Ok(count))
        },
        PublishStep::Finished(result) => PublishStep::Finished(result),
    }
}

/// At most how many steps are left.
pub open spec fn steps_left(step: PublishStep, count: usize) -> int {
    match step {
        PublishStep::CreateDevice => 3 * count + 4,
        PublishStep::RegisterDevice => 3 * count + 3,
        PublishStep::WrapDevice => 3 * count + 2,
        PublishStep::CreateInterface(index) => 3 * (count - index) + 1,
        PublishStep::RegisterInterface(index) => 3 * (count - index),
        PublishStep::ProbeInterface(index) => 3 * (count - index) - 1,
        PublishStep::Finished(_) => 0,
    }
}

/// Whether a step is one for the interfaces that there are.
pub open spec fn step_fits(step: PublishStep, count: usize) -> bool {
    match step {
        PublishStep::CreateInterface(index) => index < count,
        PublishStep::RegisterInterface(index) => index < count,
        PublishStep::ProbeInterface(index) => index < count,
        _ => true,
    }
}

/// The step after a step of which it is known whether it could be done.
pub fn advance_publishing(step: PublishStep, done: bool, count: usize) -> (next: PublishStep)
    ensures
        next == published(step, done, count),
{
    match step {
        PublishStep::CreateDevice => if done {
            PublishStep::RegisterDevice
        } else {
            PublishStep::Finished(Err("usb device pnp allocation failed"))
        },
        PublishStep::RegisterDevice => if done {
            PublishStep::WrapDevice
        } else {
            PublishStep::Finished(Err("usb device registration failed"))
        },
        PublishStep::WrapDevice => if !done {
            PublishStep::Finished(Err("usb device wrapper failed"))
        } else if count > 0 {
            PublishStep::CreateInterface(0)
        } else {
            PublishStep::Finished(Ok(count))
        },
        PublishStep::CreateInterface(index) => if done {
            PublishStep::RegisterInterface(index)
        } else {
            PublishStep::Finished(Err("usb interface creation failed"))
        },
        PublishStep::RegisterInterface(index) => if done {
            PublishStep::ProbeInterface(index)
        } else {
            PublishStep::Finished(Err("usb interface registration failed"))
        },
        PublishStep::ProbeInterface(index) => if index < count && index + 1 < count {
            PublishStep::CreateInterface(index + 1)
        } else {
            PublishStep::Finished(Ok(count))
        },
        PublishStep::Finished(result) => PublishStep::Finished(result),
    }
}

/// Publishing goes on only with interfaces that there are, and it ends: every step
/// leaves fewer.
pub proof fn publishing_ends(step: PublishStep, done: bool, count: usize)
    requires
        step_fits(step, count),
    ensures
        step_fits(published(step, done, count), count),
        step is Finished || steps_left(published(step, done, count), count) < steps_left(
            step,
            count,
        ),
        steps_left(published(step, done, count), count) >= 0,
{
}

/// The steps of a device, as long as each of them can be done.
pub open spec fn all_done(count: usize, steps: nat) -> PublishStep
    decreases steps,
{
    if steps == 0 {
        PublishStep::CreateDevice
    } else {
        published(all_done(count, (steps - 1) as nat), true, count)
    }
}

/// Where nothing fails every interface has its turn, one after the other: each is
/// created, registered and probed, and then the device is done.
pub proof fn every_interface_has_its_turn(count: usize, index: usize)
    requires
        index <= count,
    ensures
        index < count ==> {
            &&& all_done(count, (3 * index + 3) as nat) == PublishStep::CreateInterface(index)
            &&& all_done(count, (3 * index + 4) as nat) == PublishStep::RegisterInterface(index)
            &&& all_done(count, (3 * index + 5) as nat) == PublishStep::ProbeInterface(index)
        },
        index == count ==> all_done(count, (3 * index + 3) as nat) == PublishStep::Finished(
            Ok(count),
        ),
    decreases index,
{
    reveal_with_fuel(all_done, 6);
    if index > 0 {
        every_interface_has_its_turn(count, (index - 1) as usize);
    }
}

/// The name of a device: its bus and its address.
pub open spec fn device_named(bus_id: u8, address: u8) -> Seq<char> {
    "usb-"@ + text::decimal(bus_id as nat) + ":"@ + text::decimal(address as nat)
}

/// The name of an interface: that of its device and its number.
pub open spec fn interface_named(bus_id: u8, address: u8, number: u8) -> Seq<char> {
    device_named(bus_id, address) + "."@ + text::decimal(number as nat)
}

pub fn device_name(bus_id: u8, address: u8) -> (name: Vec<char>)
    ensures
        name@ == device_named(bus_id, address),
{
    let mut name = text::numbered("usb-", bus_id as u32);
    text::push_text(&mut name, ":");
    text::push_decimal(&mut name, address as u32);
    name
}

pub fn interface_name(bus_id: u8, address: u8, number: u8) -> (name: Vec<char>)
    ensures
        name@ == interface_named(bus_id, address, number),
{
    let mut name = device_name(bus_id, address);
    text::push_text(&mut name, ".");
    text::push_decimal(&mut name, number as u32);
    name
}

/// No two devices of a bus have one name, nor two interfaces of a device.
pub proof fn names_are_distinct(bus_id: u8, address: u8, first: u8, second: u8)
    requires
        first != second,
    ensures
        device_named(bus_id, first) != device_named(bus_id, second),
        interface_named(bus_id, address, first) != interface_named(bus_id, address, second),
{
    text::numbered_are_distinct(
        "usb-"@ + text::decimal(bus_id as nat) + ":"@,
        first as nat,
        second as nat,
    );
    text::numbered_are_distinct(
        device_named(bus_id, address) + "."@,
        first as nat,
        second as nat,
    );
}

} // verus!
