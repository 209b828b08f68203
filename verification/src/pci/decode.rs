//! What bridges and functions make of their registers.

use vstd::prelude::*;
use crate::align;
use crate::pci::bar::PciBarKind;
use crate::pci::config_port::{ConfigAccess, ConfigExchange, PciBdf};
use crate::pci::finalize;
use crate::pci::finalize::ForwardWindow;
use crate::pci::host::{DtbPciConfigSpace, PciEcamRegion};
use crate::pci::host_runtime;
use crate::pci::host_runtime::PciIntxUpstream;
use crate::pci::ls2k_config;
use crate::pci::probe::BarProbe;
use crate::pci::resources;
use crate::pci::routing;
use crate::pci::routing::{PciIntxRouting, PciMsiMapRoute};
use crate::pci::scan;
use crate::pci::scan::{BarRecord, BarState, PciFunctionNode};
use crate::pci::topology::{
    Apertures, PciBridgeIoWindow, PciBridgeMemoryWindow, PciBridgePrefetchWindow, PciResourceRange,
    PciResourceSpace,
};
use crate::pci::tree;

verus! {

/// Whether a bridge whose registers hold these bounds forwards an address: from the first
/// bound on, up to the last byte of the unit of the second one.
pub open spec fn forwards(base: int, limit: int, unit: int, address: int) -> bool {
    base <= address < limit + unit
}

/// Whether a bridge forwards all of a range, and beyond either end less than a unit.
pub open spec fn forwards_range(base: int, limit: int, unit: int, range: PciResourceRange) -> bool {
    &&& forall|address: int|
        range.start <= address < range.end ==> #[trigger] forwards(base, limit, unit, address)
    &&& range.start - unit < base
    &&& limit + unit < range.end + unit
}

/// A bridge that is set up for a range of memory forwards it: the two halves of its
/// register are the upper twelve bits of the first and of the last address.
pub proof fn memory_is_forwarded(
    trace: Seq<ConfigExchange>,
    bdf: PciBdf,
    wanted: Option<PciResourceRange>,
    blocked: bool,
    before: Apertures,
    after: Apertures,
    range: PciResourceRange,
)
    requires
        finalize::space_forwarded(
            trace,
            bdf,
            PciResourceSpace::Memory,
            wanted,
            false,
            blocked,
            before,
            after,
            Some(range),
        ),
    ensures
        wanted == Some(range),
        trace.len() == 1,
        trace[0].access matches ConfigAccess::Write32(b, 0x20, word) && b == bdf && forwards_range(
            word as int % 0x1_0000 / 16 * 0x10_0000,
            word as int / 0x1_0000 / 16 * 0x10_0000,
            0x10_0000,
            range,
        ),
{
    let window = choose|window: ForwardWindow| #[trigger]
        finalize::window_for(bdf, PciResourceSpace::Memory, range, false, window) && before.free(
            PciResourceSpace::Memory,
            window.forwarded,
        ) && resources::written(trace, window.writes, true);
    let w = choose|w: PciBridgeMemoryWindow| #[trigger]
        finalize::memory_encodes(w, range) && window == (ForwardWindow {
            forwarded: w.forwarded,
            writes: resources::memory_writes(bdf, w),
        });
    let word = (w.base + w.limit * 0x1_0000) as u32;
    assert(trace[0].access == ConfigAccess::Write32(bdf, 0x20, word));
    assert(word as int % 0x1_0000 == w.base);
    assert(word as int / 0x1_0000 == w.limit);
}

/// What the registers of a prefetchable window hold together.
proof fn lemma_prefetch_window(w: PciBridgePrefetchWindow, range: PciResourceRange, wide: bool)
    requires
        finalize::prefetch_encodes(w, range, wide),
    ensures
        ({
            let word = (w.base + w.limit * 0x1_0000) as u32;
            forwards_range(
                w.base_upper * 0x1_0000_0000 + word as int % 0x1_0000 / 16 * 0x10_0000,
                w.limit_upper * 0x1_0000_0000 + word as int / 0x1_0000 / 16 * 0x10_0000,
                0x10_0000,
                range,
            )
        }),
{
    let word = (w.base + w.limit * 0x1_0000) as u32;
    assert(word == w.base + w.limit * 0x1_0000);
    assert(word as int % 0x1_0000 == w.base);
    assert(word as int / 0x1_0000 == w.limit);
}

/// A bridge that is set up for a range of prefetchable memory forwards it, with the upper
/// halves of the bounds in registers of their own.
pub proof fn prefetchable_memory_is_forwarded(
    trace: Seq<ConfigExchange>,
    bdf: PciBdf,
    wanted: Option<PciResourceRange>,
    wide: bool,
    blocked: bool,
    before: Apertures,
    after: Apertures,
    range: PciResourceRange,
)
    requires
        finalize::space_forwarded(
            trace,
            bdf,
            PciResourceSpace::PrefetchableMemory,
            wanted,
            wide,
            blocked,
            before,
            after,
            Some(range),
        ),
    ensures
        wanted == Some(range),
        trace.len() == 3,
        ({
            match (trace[0].access, trace[1].access, trace[2].access) {
                (
                    ConfigAccess::Write32(a, 0x24, word),
                    ConfigAccess::Write32(b, 0x28, base_upper),
                    ConfigAccess::Write32(c, 0x2c, limit_upper),
                ) => {
                    &&& a == bdf && b == bdf && c == bdf
                    &&& forwards_range(
                        base_upper * 0x1_0000_0000 + word as int % 0x1_0000 / 16 * 0x10_0000,
                        limit_upper * 0x1_0000_0000 + word as int / 0x1_0000 / 16 * 0x10_0000,
                        0x10_0000,
                        range,
                    )
                },
                _ => false,
            }
        }),
{
    let window = choose|window: ForwardWindow| #[trigger]
        finalize::window_for(bdf, PciResourceSpace::PrefetchableMemory, range, wide, window)
            && before.free(PciResourceSpace::PrefetchableMemory, window.forwarded)
            && resources::written(trace, window.writes, true);
    let w = choose|w: PciBridgePrefetchWindow| #[trigger]
        finalize::prefetch_encodes(w, range, wide) && window == (ForwardWindow {
            forwarded: w.forwarded,
            writes: resources::prefetch_writes(bdf, w),
        });
    let word = (w.base + w.limit * 0x1_0000) as u32;
    lemma_prefetch_window(w, range, wide);
    assert(trace[0].access == ConfigAccess::Write32(bdf, 0x24, word));
    assert(trace[1].access == ConfigAccess::Write32(bdf, 0x28, w.base_upper));
    assert(trace[2].access == ConfigAccess::Write32(bdf, 0x2c, w.limit_upper));
}

/// What the registers of an I/O window hold together.
proof fn lemma_io_window(w: PciBridgeIoWindow, range: PciResourceRange, wide: bool)
    requires
        finalize::io_encodes(w, range, wide),
    ensures
        ({
            let word = (w.base_low + w.limit_low * 0x100) as u16;
            let upper = (w.base_upper + w.limit_upper * 0x1_0000) as u32;
            forwards_range(
                upper as int % 0x1_0000 * 0x1_0000 + word as int % 0x100 / 16 * 0x1000,
                upper as int / 0x1_0000 * 0x1_0000 + word as int / 0x100 / 16 * 0x1000,
                0x1000,
                range,
            )
        }),
{
    let word = (w.base_low + w.limit_low * 0x100) as u16;
    let upper = (w.base_upper + w.limit_upper * 0x1_0000) as u32;
    assert(word == w.base_low + w.limit_low * 0x100);
    assert(upper == w.base_upper + w.limit_upper * 0x1_0000);
    assert(word as int % 0x100 == w.base_low);
    assert(word as int / 0x100 == w.limit_low);
    assert(upper as int % 0x1_0000 == w.base_upper);
    assert(upper as int / 0x1_0000 == w.limit_upper);
}

/// A bridge that is set up for a range of I/O addresses forwards it: four bits of each
/// bound are in the halves of one register, and the bits above in those of another.
pub proof fn io_is_forwarded(
    trace: Seq<ConfigExchange>,
    bdf: PciBdf,
    wanted: Option<PciResourceRange>,
    wide: bool,
    blocked: bool,
    before: Apertures,
    after: Apertures,
    range: PciResourceRange,
)
    requires
        finalize::space_forwarded(
            trace,
            bdf,
            PciResourceSpace::Io,
            wanted,
            wide,
            blocked,
            before,
            after,
            Some(range),
        ),
    ensures
        wanted == Some(range),
        trace.len() == 2,
        ({
            match (trace[0].access, trace[1].access) {
                (
                    ConfigAccess::Write16(a, 0x1c, word),
                    ConfigAccess::Write32(b, 0x30, upper),
                ) => {
                    &&& a == bdf && b == bdf
                    &&& forwards_range(
                        upper as int % 0x1_0000 * 0x1_0000 + word as int % 0x100 / 16 * 0x1000,
                        upper as int / 0x1_0000 * 0x1_0000 + word as int / 0x100 / 16 * 0x1000,
                        0x1000,
                        range,
                    )
                },
                _ => false,
            }
        }),
{
    let window = choose|window: ForwardWindow| #[trigger]
        finalize::window_for(bdf, PciResourceSpace::Io, range, wide, window) && before.free(
            PciResourceSpace::Io,
            window.forwarded,
        ) && resources::written(trace, window.writes, true);
    let w = choose|w: PciBridgeIoWindow| #[trigger]
        finalize::io_encodes(w, range, wide) && window == (ForwardWindow {
            forwarded: w.forwarded,
            writes: resources::io_writes(bdf, w),
        });
    let word = (w.base_low + w.limit_low * 0x100) as u16;
    let upper = (w.base_upper + w.limit_upper * 0x1_0000) as u32;
    lemma_io_window(w, range, wide);
    assert(trace[0].access == ConfigAccess::Write16(bdf, 0x1c, word));
    assert(trace[1].access == ConfigAccess::Write32(bdf, 0x30, upper));
}

/// A bridge whose windows are closed forwards nothing.
pub proof fn closed_windows_forward_nothing(
    io: Seq<ConfigExchange>,
    memory: Seq<ConfigExchange>,
    prefetch: Seq<ConfigExchange>,
    bdf: PciBdf,
    address: int,
)
    requires
        finalize::closes(PciResourceSpace::Io, io, bdf),
        finalize::closes(PciResourceSpace::Memory, memory, bdf),
        finalize::closes(PciResourceSpace::PrefetchableMemory, prefetch, bdf),
    ensures
        io.len() == 2,
        match (io[0].access, io[1].access) {
            (
                ConfigAccess::Write16(a, 0x1c, word),
                ConfigAccess::Write32(b, 0x30, upper),
            ) => a == bdf && b == bdf && !forwards(
                upper as int % 0x1_0000 * 0x1_0000 + word as int % 0x100 / 16 * 0x1000,
                upper as int / 0x1_0000 * 0x1_0000 + word as int / 0x100 / 16 * 0x1000,
                0x1000,
                address,
            ),
            _ => false,
        },
        memory.len() == 1,
        memory[0].access matches ConfigAccess::Write32(b, 0x20, word) && b == bdf && !forwards(
            word as int % 0x1_0000 / 16 * 0x10_0000,
            word as int / 0x1_0000 / 16 * 0x10_0000,
            0x10_0000,
            address,
        ),
        prefetch.len() == 3,
        match (prefetch[0].access, prefetch[1].access, prefetch[2].access) {
            (
                ConfigAccess::Write32(a, 0x24, word),
                ConfigAccess::Write32(b, 0x28, base_upper),
                ConfigAccess::Write32(c, 0x2c, limit_upper),
            ) => a == bdf && b == bdf && c == bdf && !forwards(
                base_upper * 0x1_0000_0000 + word as int % 0x1_0000 / 16 * 0x10_0000,
                limit_upper * 0x1_0000_0000 + word as int / 0x1_0000 / 16 * 0x10_0000,
                0x10_0000,
                address,
            ),
            _ => false,
        },
{
    let (a, b) = choose|a: bool, b: bool| io == #[trigger] tree::io_closing(bdf, a, b);
    let c = choose|c: bool| memory == #[trigger] tree::memory_closing(bdf, c);
    let (d, e, f) = choose|d: bool, e: bool, f: bool|
        prefetch == #[trigger] tree::prefetch_closing(bdf, d, e, f);
}

/// A function decodes a space afterwards exactly if it has something there and did not fail
/// in it; where it has no register of the space it decodes what it decoded before. Nothing
/// else of its command register changes.
pub proof fn command_enables_what_is_needed(
    function: PciFunctionNode,
    original: u16,
    io_needed: bool,
    memory_needed: bool,
)
    ensures
        ({
            let command = resources::command_for(function, original, io_needed, memory_needed);
            &&& command / 4 == original / 4
            &&& function.io_failed ==> command % 2 == 0
            &&& !function.io_failed && io_needed ==> command % 2 == 1
            &&& !function.io_failed && !io_needed && function.saw_io_bar ==> command % 2 == 0
            &&& !function.io_failed && !io_needed && !function.saw_io_bar ==> command % 2
                == original % 2
            &&& function.memory_failed ==> command / 2 % 2 == 0
            &&& !function.memory_failed && memory_needed ==> command / 2 % 2 == 1
            &&& !function.memory_failed && !memory_needed && function.saw_memory_bar ==> command / 2
                % 2 == 0
            &&& !function.memory_failed && !memory_needed && !function.saw_memory_bar ==> command / 2
                % 2 == original / 2 % 2
        }),
{
}

/// The pin behind another one; behind the fourth comes the first.
pub open spec fn next_pin(pin: int) -> int {
    if pin == 4 {
        1
    } else {
        pin + 1
    }
}

/// Behind a bridge the pins turn by one for each device number: the pins of device 0 stay
/// what they are, and those of the next device are one further.
pub proof fn pins_turn_with_the_device(pin: int, device: int, offset: int)
    requires
        1 <= pin <= 4,
        0 <= device,
        0 <= offset,
    ensures
        routing::swizzle(pin, 0, 0) == pin,
        routing::swizzle(pin, device + 1, offset) == next_pin(
            routing::swizzle(pin, device, offset),
        ),
        routing::swizzle(pin, device, offset + 1) == next_pin(
            routing::swizzle(pin, device, offset),
        ),
        routing::swizzle(next_pin(pin), device, offset) == next_pin(
            routing::swizzle(pin, device, offset),
        ),
{
}

/// The pins of a bus behind a bridge on the root bus come out at that bridge, turned by the
/// device that they belong to; behind a further bridge they are turned once more, by that
/// bridge's own device number.
pub proof fn pins_come_out_at_the_root_bridge(
    device: u8,
    function: u8,
    inner_device: u8,
    inner_function: u8,
    pin: int,
    leaf: int,
)
    requires
        1 <= pin <= 4,
        0 <= leaf < 32,
        device < 32,
        inner_device < 32,
    ensures
        ({
            let outer = host_runtime::behind(None, device, function);
            let inner = host_runtime::behind(Some(outer), inner_device, inner_function);
            &&& outer.root_device == device && outer.root_function == function
            &&& inner.root_device == device && inner.root_function == function
            &&& routing::swizzle(pin, leaf, outer.swizzle_offset as int) == routing::swizzle(
                pin,
                leaf,
                0,
            )
            &&& routing::swizzle(pin, leaf, inner.swizzle_offset as int) == routing::swizzle(
                routing::swizzle(pin, leaf, 0),
                inner_device as int,
                0,
            )
        }),
{
}

/// A pin on the root bus is its own route, and one on a bus below comes out at the bridge
/// on the root bus that the bus hangs on.
pub proof fn pins_are_routed_by_their_bus(
    routes: PciIntxRouting,
    bus: u8,
    device: u8,
    function: u8,
    pin: u8,
    i: int,
)
    requires
        routes.wf(),
        device < 32,
        function < 8,
        1 <= pin <= 4,
        0 <= i < routes.routes().len(),
        routes.routes()[i].downstream_bus == bus,
    ensures
        routes.route(routes.root(), device, function, pin) matches Some(key) && key.bus
            == routes.root() && key.device == device && key.function == function && key.pin == pin,
        routes.route(bus, device, function, pin) matches Some(key) && key.bus == routes.root()
            && key.device == routes.routes()[i].root_device && key.function
            == routes.routes()[i].root_function && key.pin == (pin - 1 + device
            + routes.routes()[i].swizzle_offset) % 4 + 1,
{
    let k = choose|k: int|
        0 <= k < routes.routes().len() && (#[trigger] routes.routes()[k]).downstream_bus == bus;
    assert(routes.routes()[i].downstream_bus == bus);
    assert(routes.reaches(bus));
    if k < i {
        assert(routes.routes()[k].downstream_bus != routes.routes()[i].downstream_bus);
    } else if i < k {
        assert(routes.routes()[i].downstream_bus != routes.routes()[k].downstream_bus);
    }
}

/// An entry of a map of requesters takes exactly those of its range. The first becomes the
/// number that the entry names, and two requesters keep their distance.
pub proof fn mapped_requesters_keep_their_distance(
    entry: PciMsiMapRoute,
    requester: u32,
    other: u32,
    mask: u32,
)
    requires
        entry.output_base matches Some(output) && output + entry.length <= u32::MAX,
        entry.requester_base + entry.length <= u32::MAX,
    ensures
        entry.target(requester, mask) is Some <==> entry.requester_base <= requester & mask
            < entry.requester_base + entry.length,
        requester & mask == entry.requester_base && entry.length > 0 ==> (entry.target(
            requester,
            mask,
        ) matches Some(target) && target.device_id == entry.output_base->0 && target.controller
            == entry.controller),
        entry.target(requester, mask) is Some && entry.target(other, mask) is Some ==> entry.target(
            requester,
            mask,
        )->0.device_id - entry.target(other, mask)->0.device_id == (requester & mask) - (other
            & mask),
{
}

/// The registers of the functions of a linear window follow one another: 4 KiB for each
/// function, or 256 bytes, eight functions to a device, 32 devices to a bus.
pub proof fn functions_follow_one_another(
    region: PciEcamRegion,
    bus: u8,
    device: u8,
    function: u8,
    offset: u16,
)
    requires
        region.bus_start <= bus < 255,
        device < 31,
        function < 7,
    ensures
        ({
            let here = region.linear_offset(bus, device, function, offset);
            let unit = region.linear_offset(bus, device, (function + 1) as u8, offset) - here;
            &&& region.linear_offset(region.bus_start, 0, 0, offset) == offset
            &&& region.linear_offset(bus, (device + 1) as u8, function, offset) == here + 8 * unit
            &&& region.linear_offset((bus + 1) as u8, device, function, offset) == here + 256 * unit
            &&& region.config_space == DtbPciConfigSpace::Ecam ==> unit == 4096
            &&& region.config_space == DtbPciConfigSpace::Cam ==> unit == 256
        }),
{
}

/// The buses that a bridge passes accesses on to.
pub open spec fn passes_on(word: u32, bus: int) -> bool {
    word as int / 0x100 % 0x100 <= bus <= word as int / 0x1_0000 % 0x100
}

/// A bridge that is opened passes on accesses to its secondary bus and all up to the
/// subordinate one, and to no other. It knows the bus that it is on.
pub proof fn opened_bridge_passes_its_buses(
    bdf: PciBdf,
    latency: u8,
    primary: u8,
    secondary: u8,
    subordinate: u8,
    ok: bool,
    bus: int,
)
    ensures
        tree::numbers_written(bdf, latency, primary, secondary, subordinate, ok).access
            matches ConfigAccess::Write32(b, 0x18, word) && {
            &&& b == bdf
            &&& passes_on(word, bus) == (secondary <= bus <= subordinate)
            &&& word as int % 0x100 == primary
            &&& word as int / 0x100_0000 == latency
        },
{
    let word = primary + secondary * 0x100 + subordinate * 0x1_0000 + latency * 0x100_0000;
    assert(word / 0x100 == secondary + 0x100 * (subordinate + 0x100 * latency));
    assert(word / 0x1_0000 == subordinate + 0x100 * latency);
    assert(word / 0x100_0000 == latency);
}

/// A bridge that is closed passes on no access, and keeps the rest of its register.
pub proof fn closed_bridge_passes_nothing(
    bdf: PciBdf,
    primary: u8,
    read: u32,
    ok: bool,
    bus: int,
)
    ensures
        ({
            let trace = tree::bus_closing(bdf, primary, Some(read), ok);
            &&& trace.len() == 2
            &&& trace[0].access == ConfigAccess::Read32(bdf, 0x18)
            &&& trace[1].access matches ConfigAccess::Write32(b, 0x18, word) && {
                &&& b == bdf
                &&& !passes_on(word, bus)
                &&& word as int % 0x100 == primary
                &&& word as int / 0x100_0000 == read as int / 0x100_0000
            }
        }),
{
    let latency = (read / 0x100_0000) as u8;
    let word = primary + 0xff * 0x100 + latency * 0x100_0000;
    assert(word / 0x100 == 0xff + 0x1_0000 * latency);
    assert(word / 0x1_0000 == 0x100 * latency);
    assert(word / 0x100_0000 == latency);
}

/// A base address register is recorded as it reads: bit 0 is for I/O, bits 1 and 2 for how
/// wide a memory address is, and bit 3 for prefetchable memory. A register of 64 bits is
/// two, so the next one is looked for behind both.
pub proof fn register_is_recorded_as_it_reads(state: BarState, record: BarRecord, bar_count: int)
    requires
        record.index == state.index,
        record.low is Some,
        scan::bar_step(state, record, bar_count).bars.len() > state.bars.len(),
    ensures
        ({
            let low = record.low->0;
            let after = scan::bar_step(state, record, bar_count);
            let found = after.bars.last();
            let wide = low % 2 == 0 && low / 2 % 4 == 2;
            &&& after.bars.drop_last() == state.bars
            &&& found.index == state.index
            &&& found.original_low == low
            &&& low % 2 == 1 ==> found.kind is Io
            &&& low % 2 == 0 ==> found.kind == (PciBarKind::Memory {
                prefetchable: low / 8 % 2 == 1,
            })
            &&& low % 2 == 0 ==> (found.width is Bits64) == (low / 2 % 4 == 2)
            &&& low % 2 == 0 ==> (found.width is Bits20) == (low / 2 % 4 == 1)
            &&& low % 2 == 0 ==> (found.width is Bits32) == (low / 2 % 4 == 0)
            &&& after.index == state.index + (if wide {
                2int
            } else {
                1
            })
            &&& record.outcome matches BarProbe::Found { size, address, .. } && found.size == size
                && found.original_address == address
            &&& align::power_of_two(found.size as int)
        }),
{
    reveal(scan::bar_step);
    let after = scan::bar_step(state, record, bar_count);
    assert(after.bars.drop_last() =~= state.bars);
}

/// A register of the board's own configuration space: the low byte of its number, the
/// function, the bus where it is not the root, the rest of its number, and a mark for other
/// buses, from the bottom up.
pub proof fn own_register_is_at_its_place(
    root_bus: u8,
    bus: u8,
    device: u8,
    function: u8,
    register: u16,
)
    requires
        device < 32,
        function < 8,
        register < 0x1000,
    ensures
        ({
            let offset = ls2k_config::offset_of(root_bus, bus, device, function, register);
            &&& offset % 0x100 + offset / 0x100_0000 % 0x10 * 0x100 == register
            &&& offset / 0x100 % 8 == function
            &&& offset / 0x800 % 32 == device
            &&& bus != root_bus ==> offset / 0x1_0000 % 0x100 == bus && offset / 0x1000_0000 == 1
            &&& bus == root_bus ==> offset / 0x1_0000 % 0x100 == 0 && offset / 0x1000_0000 == 0
        }),
{
    let low = register as int % 0x100;
    let high = register as int / 0x100;
    let marked = if bus != root_bus {
        1int
    } else {
        0
    };
    let below = if bus != root_bus {
        bus as int
    } else {
        0
    };
    let offset = ls2k_config::offset_of(root_bus, bus, device, function, register);
    assert(register / 0x100 % 0x10 == high);
    assert(offset == low + 0x100 * (function + 8 * (device + 32 * (below + 0x100 * (high + 0x10
        * marked)))));
    assert(offset / 0x100 == function + 8 * (device + 32 * (below + 0x100 * (high + 0x10
        * marked))));
    assert(offset / 0x800 == device + 32 * (below + 0x100 * (high + 0x10 * marked)));
    assert(offset / 0x1_0000 == below + 0x100 * (high + 0x10 * marked));
    assert(offset / 0x100_0000 == high + 0x10 * marked);
    assert(offset / 0x1000_0000 == marked);
}

/// Firmware is asked for a pin by the address of its function, and by the pin behind all
/// cells of that address; every other cell is zero.
pub proof fn key_names_function_and_pin(
    bus: u8,
    device: u8,
    function: u8,
    pin: u8,
    address_cells: int,
    interrupt_cells: int,
    i: int,
)
    requires
        device < 32,
        function < 8,
        0 < address_cells,
        0 < interrupt_cells,
        0 < i < address_cells + interrupt_cells,
    ensures
        ({
            let key = host_runtime::interrupt_key(
                bus,
                device,
                function,
                pin,
                address_cells,
                interrupt_cells,
            );
            &&& key.len() == address_cells + interrupt_cells
            &&& key[0] == bus * 0x1_0000 + device * 0x800 + function * 0x100
            &&& key[i] == (if i == address_cells {
                pin as int
            } else {
                0
            })
        }),
{
    host_runtime::addresses_are_sums(bus, device, function);
}

/// A bridge has a route for the bus behind it: to the bridge itself where it is on the root
/// bus, else to the one on the root bus that it is behind.
pub proof fn bridge_has_its_route(
    functions: Seq<PciFunctionNode>,
    upstream: Option<PciIntxUpstream>,
)
    requires
        functions.len() > 0,
        functions.last().bridge is Some,
    ensures
        ({
            let function = functions.last();
            let routes = host_runtime::routes_of(functions, upstream);
            let at = host_runtime::routes_of(functions.drop_last(), upstream).len() as int;
            &&& at < routes.len()
            &&& routes[at].downstream_bus == function.bridge->0.downstream.bus
            &&& upstream is None ==> routes[at].root_device == function.bdf.device
                && routes[at].root_function == function.bdf.function && routes[at].swizzle_offset
                == 0
            &&& upstream matches Some(up) ==> routes[at].root_device == up.root_device
                && routes[at].root_function == up.root_function && routes[at].swizzle_offset == (
            up.swizzle_offset + function.bdf.device) % 4
        }),
{
}

} // verus!
