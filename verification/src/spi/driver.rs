//! Which devices are buses and flashes, and what becomes of one that is found.

use vstd::prelude::*;
use crate::platform;
use crate::platform::{PnpError, PnpResourceKind, has_id};
use crate::port;
use crate::port::{Access, Port};
use crate::spi::master::SpiMaster;
use crate::spi::nor;
use crate::spi::nor::{Frame, SpiNorFlash};

verus! {

pub const COMPAT_LS_SPI: &'static str = "loongson,ls-spi";

pub const COMPAT_JEDEC_SPI_NOR: &'static str = "jedec,spi-nor";

/// The driver, with the function that maps the registers of a device.
pub struct Ls2kSpiDriver<M> {
    pub device_mmio_to_virt: M,
}

impl<M> Ls2kSpiDriver<M> {
    pub fn new(device_mmio_to_virt: M) -> (driver: Self)
        ensures
            driver.device_mmio_to_virt == device_mmio_to_virt,
    {
        Ls2kSpiDriver { device_mmio_to_virt }
    }
}

/// Whether a device with these names is a bus.
pub fn matches_controller(ids: &Vec<String>) -> (matching: bool)
    ensures
        matching == platform::compatible(ids@, COMPAT_LS_SPI@),
{
    has_id(ids, COMPAT_LS_SPI)
}

/// Whether a device with these names is a flash.
pub fn matches_flash(ids: &Vec<String>) -> (matching: bool)
    ensures
        matching == platform::compatible(ids@, COMPAT_JEDEC_SPI_NOR@),
{
    has_id(ids, COMPAT_JEDEC_SPI_NOR)
}

/// What a device is to this driver.
#[derive(Clone, Copy, PartialEq, Eq, Structural, Debug)]
pub enum Role {
    Controller,
    Flash,
}

/// What a device with these names is: a bus first, then a flash.
pub fn role_of(ids: &Vec<String>) -> (role: Option<Role>)
    ensures
        role == if platform::compatible(ids@, COMPAT_LS_SPI@) {
            Some(Role::Controller)
        } else if platform::compatible(ids@, COMPAT_JEDEC_SPI_NOR@) {
            Some(Role::Flash)
        } else {
            None
        },
{
    if matches_controller(ids) {
        Some(Role::Controller)
    } else if matches_flash(ids) {
        Some(Role::Flash)
    } else {
        None
    }
}

/// The registers of a bus.
pub fn check_window(first: Option<(usize, usize)>) -> (result: Result<(usize, usize), PnpError>)
    ensures
        result == match first {
            None => Err::<(usize, usize), PnpError>(
                PnpError::Missing(PnpResourceKind::Mmio, "spi reg missing"),
            ),
            Some(range) => if range.1 < 0x10 {
                Err(PnpError::Malformed(PnpResourceKind::Mmio, "spi register window too small"))
            } else {
                Ok(range)
            },
        },
{
    match first {
        None => Err(PnpError::Missing(PnpResourceKind::Mmio, "spi reg missing")),
        Some(range) => {
            if range.1 < 0x10 {
                Err(PnpError::Malformed(PnpResourceKind::Mmio, "spi register window too small"))
            } else {
                Ok(range)
            }
        },
    }
}

/// The rate of the clock of a bus, from what the clock answered: without one there is
/// no bus.
pub fn acquire_clock_hz(answer: Result<Option<u64>, PnpError>) -> (result: Result<u64, PnpError>)
    ensures
        result == match answer {
            Err(error) => Err::<u64, PnpError>(error),
            Ok(Some(hz)) if hz != 0 => Ok(hz),
            _ => Err(PnpError::HardwareFailure("spi clock has no rate")),
        },
{
    match answer {
        Err(error) => Err(error),
        Ok(Some(hz)) => {
            if hz != 0 {
                Ok(hz)
            } else {
                Err(PnpError::HardwareFailure("spi clock has no rate"))
            }
        },
        Ok(None) => Err(PnpError::HardwareFailure("spi clock has no rate")),
    }
}

/// Two to a power.
pub open spec fn doubled(times: int) -> int
    decreases times,
{
    if times <= 0 {
        1
    } else {
        2 * doubled(times - 1)
    }
}

/// How many bytes a flash of a capacity has: 0x11 is one megabit, and each next code
/// twice as much, up to 0x20.
pub open spec fn capacity_size(code: u8) -> Option<u64> {
    if 0x11 <= code <= 0x20 {
        Some((doubled(code - 0x11) * 0x20000) as u64)
    } else {
        None
    }
}

/// Each capacity is twice the one before it; the first is a megabit, and a flash is as large
/// as the third byte of its identity says.
pub proof fn capacities_double(code: u8, id: [u8; 3])
    ensures
        capacity_size(0x11) == Some(0x2_0000u64),
        0x11 <= code < 0x20 ==> (capacity_size(code) matches Some(size) && capacity_size(
            (code + 1) as u8,
        ) matches Some(next) && next == 2 * size),
        capacity_size(code) is Some <==> 0x11 <= code <= 0x20,
        flash_for(Ok(id)) matches Ok(flash) ==> capacity_size(id@[2]) == Some(flash.0),
{
    if 0x11 <= code <= 0x20 {
        lemma_doubled_bound(code - 0x11);
        lemma_doubled_bound(code - 0x10);
    }
}

proof fn lemma_doubled_bound(times: int)
    requires
        times <= 0x10,
    ensures
        1 <= doubled(times) <= 0x1_0000,
        times > 0 ==> doubled(times) == 2 * doubled(times - 1),
{
    reveal_with_fuel(doubled, 18);
}

pub fn nor_size_from_capacity(code: u8) -> (size: Option<u64>)
    ensures
        size == capacity_size(code),
{
    if code < 0x11 || code > 0x20 {
        return None;
    }
    let mut megabits: u64 = 1;
    let mut step: u8 = 0x11;
    proof {
        reveal_with_fuel(doubled, 17);
    }
    while step < code
        invariant
            0x11 <= step <= code <= 0x20,
            megabits == doubled(step - 0x11),
            doubled(15) == 0x8000,
            forall|k: int| 0 <= k <= 15 ==> #[trigger] doubled(k) <= 0x8000,
        decreases code - step,
    {
        assert(doubled(step + 1 - 0x11) == 2 * doubled(step - 0x11));
        assert(doubled((step + 1 - 0x11) as int) <= 0x8000);
        megabits = megabits * 2;
        step += 1;
    }
    Some(megabits * 0x20000)
}

/// A digit of a number to the base 16.
pub open spec fn hex_digit(value: u8) -> char {
    if value < 10 {
        (48 + value) as char
    } else {
        (87 + value) as char
    }
}

/// The name of a flash: its maker and its type, each as two digits.
pub open spec fn name_of(maker: u8, model: u8) -> Seq<char> {
    seq![
        's',
        'p',
        'i',
        '-',
        'n',
        'o',
        'r',
        '_',
        hex_digit(maker / 16),
        hex_digit(maker % 16),
        hex_digit(model / 16),
        hex_digit(model % 16),
    ]
}

fn digit(value: u8) -> (c: char)
    requires
        value < 16,
    ensures
        c == hex_digit(value),
{
    if value < 10 {
        (48 + value) as char
    } else {
        (87 + value) as char
    }
}

pub fn flash_name(maker: u8, model: u8) -> (name: Vec<char>)
    ensures
        name@ == name_of(maker, model),
{
    let mut name: Vec<char> = Vec::new();
    name.push('s');
    name.push('p');
    name.push('i');
    name.push('-');
    name.push('n');
    name.push('o');
    name.push('r');
    name.push('_');
    name.push(digit(maker / 16));
    name.push(digit(maker % 16));
    name.push(digit(model / 16));
    name.push(digit(model % 16));
    assert(name@ =~= name_of(maker, model));
    name
}

/// The flash with an identity, or why there is none.
pub open spec fn flash_for(id: Result<[u8; 3], &'static str>) -> Result<
    (u64, Seq<char>),
    PnpError,
> {
    match id {
        Err(_) => Err(PnpError::HardwareFailure("spi-nor id read failed")),
        Ok(id) => match capacity_size(id@[2]) {
            None => Err(PnpError::HardwareFailure("unknown SPI-NOR device")),
            Some(size) => Ok((size, name_of(id@[0], id@[1]))),
        },
    }
}

/// Whether a flash is as it was asked for.
pub open spec fn is_flash(
    result: Result<SpiNorFlash, PnpError>,
    master: SpiMaster,
    wanted: Result<(u64, Seq<char>), PnpError>,
) -> bool {
    match wanted {
        Err(error) => result == Err::<SpiNorFlash, PnpError>(error),
        Ok(wanted) => {
            &&& result is Ok
            &&& result->Ok_0.master == master
            &&& result->Ok_0.size == wanted.0
            &&& result->Ok_0.name@ == wanted.1
        },
    }
}

/// The flash with an identity, on a bus.
pub fn flash_from(master: SpiMaster, id: Result<[u8; 3], &'static str>) -> (result: Result<
    SpiNorFlash,
    PnpError,
>)
    ensures
        is_flash(result, master, flash_for(id)),
{
    match id {
        Err(_) => Err(PnpError::HardwareFailure("spi-nor id read failed")),
        Ok(id) => match nor_size_from_capacity(id[2]) {
            None => Err(PnpError::HardwareFailure("unknown SPI-NOR device")),
            Some(size) => Ok(SpiNorFlash::new(master, size, flash_name(id[0], id[1]))),
        },
    }
}

/// Whether a flash was looked for so.
pub open spec fn probed(
    w: Frame,
    id: Result<[u8; 3], &'static str>,
    master: SpiMaster,
    trace: Seq<port::Exchange>,
    result: Result<SpiNorFlash, PnpError>,
) -> bool {
    &&& nor::identified(w, trace, id)
    &&& is_flash(result, master, flash_for(id))
}

/// Looks for a flash on a bus. While its bus is not known, it is to be looked for
/// again later.
pub fn probe_flash<F: FnMut(Access) -> u64>(port: &mut Port<F>, master: Option<SpiMaster>) -> (result:
    Result<SpiNorFlash, PnpError>)
    requires
        old(port).wf(),
    ensures
        final(port).wf(),
        final(port).performs() == old(port).performs(),
        master is None ==> final(port).log() == old(port).log() && result == Err::<
            SpiNorFlash,
            PnpError,
        >(PnpError::ProbeDeferred),
        port::grown(final(port).log(), old(port).log()),
        master is Some ==> exists|w: Frame, id: Result<[u8; 3], &'static str>| #[trigger]
            probed(
                w,
                id,
                master->0,
                port::since(final(port).log(), old(port).log()),
                result,
            ),
{
    let ghost start = port.log();
    match master {
        None => {
            proof {
                assert(port.log() =~= start + Seq::<port::Exchange>::empty());
                port::lemma_grown(start, Seq::empty());
            }
            Err(PnpError::ProbeDeferred)
        },
        Some(bus) => {
            let unnamed = SpiNorFlash::new(bus, 0, Vec::new());
            let id = unnamed.read_id(port);
            let ghost trace = port::since(port.log(), start);
            let ghost w = choose|w: Frame| #[trigger] nor::identified(w, trace, id);
            let result = flash_from(bus, id);
            assert(probed(w, id, bus, trace, result));
            result
        },
    }
}

} // verus!
