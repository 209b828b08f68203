//! Bus numbers of a tree of bridges.

use vstd::prelude::*;
use crate::pci::config_port;
use crate::pci::config_port::{ConfigAccess, ConfigExchange, ConfigPort, ConfigReply, PciBdf};
use crate::pci::scan;
use crate::pci::scan::{
    PciBridgeNode, PciBusNode, PciFunctionNode, is_standard_pci_bridge, scan_pci_functions,
};
use crate::pci::topology::PciBusNumberAllocator;

verus! {

pub const PCI_BRIDGE_BUS_NUMBERS: u16 = 0x18;

pub const PCI_BRIDGE_IO_BASE_LIMIT: u16 = 0x1c;

pub const PCI_BRIDGE_MEMORY_BASE_LIMIT: u16 = 0x20;

pub const PCI_BRIDGE_PREFETCH_BASE_LIMIT: u16 = 0x24;

pub const PCI_BRIDGE_PREFETCH_BASE_UPPER: u16 = 0x28;

pub const PCI_BRIDGE_PREFETCH_LIMIT_UPPER: u16 = 0x2c;

pub const PCI_BRIDGE_IO_BASE_LIMIT_UPPER: u16 = 0x30;

/// A bridge that may be opened.
#[derive(Clone, Copy, PartialEq, Eq, Structural, Debug)]
pub struct PciBridgeDiscovery {
    pub function_index: usize,
    /// The latency timer, which shares a register with the bus numbers.
    pub latency: u8,
    pub io_32bit: bool,
    pub prefetch_64bit: bool,
}

/// The bus number register of a bridge.
pub open spec fn bus_numbers(latency: u8, primary: u8, secondary: u8, subordinate: u8) -> u32 {
    (primary + secondary * 0x100 + subordinate * 0x1_0000 + latency * 0x100_0000) as u32
}

/// Writes the bus numbers of a bridge.
pub fn write_bridge_bus_numbers<F: FnMut(ConfigAccess) -> ConfigReply>(
    port: &mut ConfigPort<F>,
    bdf: PciBdf,
    latency: u8,
    primary: u8,
    secondary: u8,
    subordinate: u8,
) -> (ok: bool)
    requires
        old(port).wf(),
    ensures
        final(port).wf(),
        final(port).performs() == old(port).performs(),
        final(port).log() == old(port).log().push(
            config_port::cw32(
                bdf,
                PCI_BRIDGE_BUS_NUMBERS,
                bus_numbers(latency, primary, secondary, subordinate),
                ok,
            ),
        ),
{
    let value: u32 = primary as u32 + secondary as u32 * 0x100 + subordinate as u32 * 0x1_0000
        + latency as u32 * 0x100_0000;
    port.write32(bdf, PCI_BRIDGE_BUS_NUMBERS, value)
}

/// The accesses that close the bus behind a bridge: a secondary number above
/// the subordinate one, and the latency timer unchanged where it can be read.
pub open spec fn bus_closing(bdf: PciBdf, primary: u8, read: Option<u32>, ok: bool) -> Seq<
    ConfigExchange,
> {
    let latency = match read {
        Some(value) => (value / 0x100_0000) as u8,
        None => 0,
    };
    seq![
        config_port::cr32(bdf, PCI_BRIDGE_BUS_NUMBERS, read),
        config_port::cw32(bdf, PCI_BRIDGE_BUS_NUMBERS, bus_numbers(latency, primary, 0xff, 0), ok),
    ]
}

/// Closes the bus behind a bridge.
pub fn disable_bridge_bus_numbers<F: FnMut(ConfigAccess) -> ConfigReply>(
    port: &mut ConfigPort<F>,
    bdf: PciBdf,
    primary: u8,
)
    requires
        old(port).wf(),
    ensures
        final(port).wf(),
        final(port).performs() == old(port).performs(),
        exists|read: Option<u32>, ok: bool|
            final(port).log() == old(port).log() + #[trigger] bus_closing(bdf, primary, read, ok),
{
    let ghost before = port.log();
    let read = port.read32(bdf, PCI_BRIDGE_BUS_NUMBERS);
    let latency: u8 = match read {
        Some(value) => (value / 0x100_0000) as u8,
        None => 0,
    };
    let ok = write_bridge_bus_numbers(port, bdf, latency, primary, u8::MAX, 0);
    assert(port.log() =~= before + bus_closing(bdf, primary, read, ok));
}

/// The accesses that close the I/O window of a bridge: a base above the limit.
pub open spec fn io_closing(bdf: PciBdf, first: bool, second: bool) -> Seq<ConfigExchange> {
    seq![
        config_port::cw16(bdf, PCI_BRIDGE_IO_BASE_LIMIT, 0x00f0, first),
        config_port::cw32(bdf, PCI_BRIDGE_IO_BASE_LIMIT_UPPER, 0, second),
    ]
}

/// The access that closes the memory window of a bridge.
pub open spec fn memory_closing(bdf: PciBdf, ok: bool) -> Seq<ConfigExchange> {
    seq![config_port::cw32(bdf, PCI_BRIDGE_MEMORY_BASE_LIMIT, 0x0000_fff0, ok)]
}

/// The accesses that close the prefetchable window of a bridge.
pub open spec fn prefetch_closing(bdf: PciBdf, first: bool, second: bool, third: bool) -> Seq<
    ConfigExchange,
> {
    seq![
        config_port::cw32(bdf, PCI_BRIDGE_PREFETCH_BASE_LIMIT, 0x0000_fff0, first),
        config_port::cw32(bdf, PCI_BRIDGE_PREFETCH_BASE_UPPER, 0, second),
        config_port::cw32(bdf, PCI_BRIDGE_PREFETCH_LIMIT_UPPER, 0, third),
    ]
}

/// Whether `trace` closes the I/O window.
pub open spec fn closes_io(trace: Seq<ConfigExchange>, bdf: PciBdf) -> bool {
    exists|a: bool, b: bool| trace == #[trigger] io_closing(bdf, a, b)
}

/// Whether `trace` closes the memory window.
pub open spec fn closes_memory(trace: Seq<ConfigExchange>, bdf: PciBdf) -> bool {
    exists|a: bool| trace == #[trigger] memory_closing(bdf, a)
}

/// Whether `trace` closes the prefetchable window.
pub open spec fn closes_prefetch(trace: Seq<ConfigExchange>, bdf: PciBdf) -> bool {
    exists|a: bool, b: bool, c: bool| trace == #[trigger] prefetch_closing(bdf, a, b, c)
}

/// Closes the I/O window of a bridge.
pub fn disable_bridge_io_window<F: FnMut(ConfigAccess) -> ConfigReply>(
    port: &mut ConfigPort<F>,
    bdf: PciBdf,
)
    requires
        old(port).wf(),
    ensures
        final(port).wf(),
        final(port).performs() == old(port).performs(),
        exists|trace: Seq<ConfigExchange>|
            final(port).log() == old(port).log() + trace && #[trigger] closes_io(trace, bdf),
{
    let ghost before = port.log();
    let first = port.write16(bdf, PCI_BRIDGE_IO_BASE_LIMIT, 0x00f0);
    let second = port.write32(bdf, PCI_BRIDGE_IO_BASE_LIMIT_UPPER, 0);
    proof {
        let trace = io_closing(bdf, first, second);
        assert(port.log() =~= before + trace);
        assert(closes_io(trace, bdf));
    }
}

/// Closes the memory window of a bridge.
pub fn disable_bridge_memory_window<F: FnMut(ConfigAccess) -> ConfigReply>(
    port: &mut ConfigPort<F>,
    bdf: PciBdf,
)
    requires
        old(port).wf(),
    ensures
        final(port).wf(),
        final(port).performs() == old(port).performs(),
        exists|trace: Seq<ConfigExchange>|
            final(port).log() == old(port).log() + trace && #[trigger] closes_memory(trace, bdf),
{
    let ghost before = port.log();
    let ok = port.write32(bdf, PCI_BRIDGE_MEMORY_BASE_LIMIT, 0x0000_fff0);
    proof {
        let trace = memory_closing(bdf, ok);
        assert(port.log() =~= before + trace);
        assert(closes_memory(trace, bdf));
    }
}

/// Closes the prefetchable window of a bridge.
pub fn disable_bridge_prefetch_window<F: FnMut(ConfigAccess) -> ConfigReply>(
    port: &mut ConfigPort<F>,
    bdf: PciBdf,
)
    requires
        old(port).wf(),
    ensures
        final(port).wf(),
        final(port).performs() == old(port).performs(),
        exists|trace: Seq<ConfigExchange>|
            final(port).log() == old(port).log() + trace && #[trigger] closes_prefetch(trace, bdf),
{
    let ghost before = port.log();
    let first = port.write32(bdf, PCI_BRIDGE_PREFETCH_BASE_LIMIT, 0x0000_fff0);
    let second = port.write32(bdf, PCI_BRIDGE_PREFETCH_BASE_UPPER, 0);
    let third = port.write32(bdf, PCI_BRIDGE_PREFETCH_LIMIT_UPPER, 0);
    proof {
        let trace = prefetch_closing(bdf, first, second, third);
        assert(port.log() =~= before + trace);
        assert(closes_prefetch(trace, bdf));
    }
}

/// Whether `trace` closes all three windows.
pub open spec fn closes_forwarding(trace: Seq<ConfigExchange>, bdf: PciBdf) -> bool {
    &&& trace.len() == 6
    &&& closes_io(trace.subrange(0, 2), bdf)
    &&& closes_memory(trace.subrange(2, 3), bdf)
    &&& closes_prefetch(trace.subrange(3, 6), bdf)
}

/// Closes all three windows of a bridge.
pub fn disable_bridge_forwarding<F: FnMut(ConfigAccess) -> ConfigReply>(
    port: &mut ConfigPort<F>,
    bdf: PciBdf,
)
    requires
        old(port).wf(),
    ensures
        final(port).wf(),
        final(port).performs() == old(port).performs(),
        exists|trace: Seq<ConfigExchange>|
            final(port).log() == old(port).log() + trace && #[trigger] closes_forwarding(trace, bdf),
{
    let ghost before = port.log();
    disable_bridge_io_window(port, bdf);
    let ghost io = choose|trace: Seq<ConfigExchange>|
        port.log() == before + trace && #[trigger] closes_io(trace, bdf);
    let ghost middle = port.log();
    disable_bridge_memory_window(port, bdf);
    let ghost memory = choose|trace: Seq<ConfigExchange>|
        port.log() == middle + trace && #[trigger] closes_memory(trace, bdf);
    let ghost late = port.log();
    disable_bridge_prefetch_window(port, bdf);
    proof {
        let prefetch = choose|trace: Seq<ConfigExchange>|
            port.log() == late + trace && #[trigger] closes_prefetch(trace, bdf);
        let trace = io + memory + prefetch;
        assert(port.log() =~= before + trace);
        assert(trace.subrange(0, 2) =~= io);
        assert(trace.subrange(2, 3) =~= memory);
        assert(trace.subrange(3, 6) =~= prefetch);
        assert(closes_forwarding(trace, bdf));
    }
}

/// Whether `trace` ends by closing the bus behind the bridge.
pub open spec fn ends_closed(trace: Seq<ConfigExchange>, bdf: PciBdf, primary: u8) -> bool {
    &&& trace.len() >= 2
    &&& exists|read: Option<u32>, ok: bool|
        trace.skip(trace.len() - 2) == #[trigger] bus_closing(bdf, primary, read, ok)
}

/// Whether the bits of two nibbles of a window register say that the window has
/// upper registers.
pub open spec fn has_upper(low: int, high: int) -> bool {
    low % 0x10 == 1 && high % 0x10 == 1
}

/// What closing a bridge before its siblings are scanned finds out. Whatever
/// fails, the bus behind it ends up closed; the bridge may be opened later only
/// if its command register is known, its bus number register can be read and
/// forwarding could be switched off.
pub open spec fn closing_result(
    trace: Seq<ConfigExchange>,
    function: PciFunctionNode,
    bus: u8,
    index: usize,
    result: Option<PciBridgeDiscovery>,
) -> bool {
    let bdf = function.bdf;
    &&& ends_closed(trace, bdf, bus)
    &&& match function.original_command {
        None => {
            &&& result is None
            &&& trace.len() == 9
            &&& trace[0].access == ConfigAccess::SetCommand(bdf, 0)
            &&& closes_forwarding(trace.subrange(1, 7), bdf)
        },
        Some(command) => {
            let off = (command / 4 * 4) as u16;
            &&& trace[0].access == ConfigAccess::Read16(bdf, PCI_BRIDGE_IO_BASE_LIMIT)
            &&& trace[1].access == ConfigAccess::Read32(bdf, PCI_BRIDGE_PREFETCH_BASE_LIMIT)
            &&& trace[2].access == ConfigAccess::Read32(bdf, PCI_BRIDGE_BUS_NUMBERS)
            &&& trace.len() == (if trace[2].reply is Value {
                12
            } else {
                5int
            })
            &&& (result is Some) == (trace[2].reply is Value && trace[3]
                == config_port::command_set(bdf, off, true))
            &&& trace[2].reply is Value ==> trace[3].access
                == ConfigAccess::SetCommand(bdf, off) && closes_forwarding(
                trace.subrange(4, 10),
                bdf,
            )
            &&& result matches Some(discovery) ==> {
                let io = match trace[0].reply {
                    ConfigReply::Value(value) => value as int,
                    _ => 0,
                };
                let prefetch = match trace[1].reply {
                    ConfigReply::Value(value) => value as int,
                    _ => 0,
                };
                &&& discovery.function_index == index
                &&& discovery.latency == trace[2].reply->Value_0 / 0x100_0000
                &&& discovery.io_32bit == has_upper(io, io / 0x100)
                &&& discovery.prefetch_64bit == has_upper(prefetch, prefetch / 0x1_0000)
            }
        },
    }
}

proof fn lemma_ends_closed(head: Seq<ConfigExchange>, bdf: PciBdf, primary: u8, tail: Seq<ConfigExchange>)
    requires
        exists|read: Option<u32>, ok: bool| tail == #[trigger] bus_closing(bdf, primary, read, ok),
    ensures
        ends_closed(head + tail, bdf, primary),
{
    assert(tail.len() == 2);
    assert((head + tail).skip(head.len() as int) =~= tail);
}

/// Closes a bridge and finds out whether it may be opened later.
#[verifier::rlimit(60)]
fn close_bridge<F: FnMut(ConfigAccess) -> ConfigReply>(
    port: &mut ConfigPort<F>,
    function: &PciFunctionNode,
    bus: u8,
    index: usize,
) -> (result: Option<PciBridgeDiscovery>)
    requires
        old(port).wf(),
    ensures
        final(port).wf(),
        final(port).performs() == old(port).performs(),
        exists|trace: Seq<ConfigExchange>|
            final(port).log() == old(port).log() + trace && #[trigger] closing_result(
                trace,
                *function,
                bus,
                index,
                result,
            ),
        result matches Some(discovery) ==> discovery.function_index == index
            && function.original_command is Some,
{
    let bdf = function.bdf;
    let ghost before = port.log();
    let command: u16 = match function.original_command {
        Some(command) => command,
        None => {
            let ok = port.set_command(bdf, 0);
            let ghost set = port.log();
            disable_bridge_forwarding(port, bdf);
            let ghost forwarding = choose|trace: Seq<ConfigExchange>|
                port.log() == set + trace && #[trigger] closes_forwarding(trace, bdf);
            let ghost closed = port.log();
            disable_bridge_bus_numbers(port, bdf, bus);
            proof {
                let tail = port.log().skip(closed.len() as int);
                let (read, done) = choose|read: Option<u32>, done: bool|
                    port.log() == closed + #[trigger] bus_closing(bdf, bus, read, done);
                assert(tail =~= bus_closing(bdf, bus, read, done));
                let head = seq![config_port::command_set(bdf, 0, ok)] + forwarding;
                lemma_ends_closed(head, bdf, bus, tail);
                assert(port.log() =~= before + (head + tail));
                assert((head + tail).subrange(1, 7) =~= forwarding);
                assert(closing_result(head + tail, *function, bus, index, None));
            }
            return None;
        },
    };
    let io_read = port.read16(bdf, PCI_BRIDGE_IO_BASE_LIMIT);
    let io: u16 = match io_read {
        Some(value) => value,
        None => 0,
    };
    let prefetch_read = port.read32(bdf, PCI_BRIDGE_PREFETCH_BASE_LIMIT);
    let prefetch: u32 = match prefetch_read {
        Some(value) => value,
        None => 0,
    };
    let numbers = port.read32(bdf, PCI_BRIDGE_BUS_NUMBERS);
    let ghost reads = seq![
        config_port::cr16(bdf, PCI_BRIDGE_IO_BASE_LIMIT, io_read),
        config_port::cr32(bdf, PCI_BRIDGE_PREFETCH_BASE_LIMIT, prefetch_read),
        config_port::cr32(bdf, PCI_BRIDGE_BUS_NUMBERS, numbers),
    ];
    assert(port.log() =~= before + reads);
    let ghost after_reads = port.log();
    let latency: u8 = match numbers {
        Some(value) => (value / 0x100_0000) as u8,
        None => {
            disable_bridge_bus_numbers(port, bdf, bus);
            proof {
                let (read, done) = choose|read: Option<u32>, done: bool|
                    port.log() == after_reads + #[trigger] bus_closing(bdf, bus, read, done);
                let tail = bus_closing(bdf, bus, read, done);
                lemma_ends_closed(reads, bdf, bus, tail);
                assert(port.log() =~= before + (reads + tail));
                assert(closing_result(reads + tail, *function, bus, index, None));
            }
            return None;
        },
    };
    let off: u16 = command / 4 * 4;
    let quiet = port.set_command(bdf, off);
    let ghost set = port.log();
    disable_bridge_forwarding(port, bdf);
    let ghost forwarding = choose|trace: Seq<ConfigExchange>|
        port.log() == set + trace && #[trigger] closes_forwarding(trace, bdf);
    let ghost closed = port.log();
    disable_bridge_bus_numbers(port, bdf, bus);
    let result = if quiet {
        Some(
            PciBridgeDiscovery {
                function_index: index,
                latency,
                io_32bit: io % 0x10 == 1 && io / 0x100 % 0x10 == 1,
                prefetch_64bit: prefetch % 0x10 == 1 && prefetch / 0x1_0000 % 0x10 == 1,
            },
        )
    } else {
        None
    };
    proof {
        let (read, done) = choose|read: Option<u32>, done: bool|
            port.log() == closed + #[trigger] bus_closing(bdf, bus, read, done);
        let tail = bus_closing(bdf, bus, read, done);
        let head = reads.push(config_port::command_set(bdf, off, quiet)) + forwarding;
        lemma_ends_closed(head, bdf, bus, tail);
        let trace = head + tail;
        assert(port.log() =~= before + trace);
        assert(trace.subrange(4, 10) =~= forwarding);
        assert(closing_result(trace, *function, bus, index, result));
    }
    result
}

/// Whether the buses below a node are numbered as they should be: every number
/// is below `end`, a bus behind a bridge has a higher number than the bus that
/// the bridge is on, and everything behind a bridge comes before the bus behind
/// the next one.
pub open spec fn numbered(node: PciBusNode, segment: u16, end: int) -> bool
    decreases node,
{
    &&& node.bus < end
    &&& forall|i: int|
        0 <= i < node.functions@.len() ==> {
            let function = #[trigger] node.functions@[i];
            &&& function.bdf.segment == segment
            &&& function.bdf.bus == node.bus
            &&& function.bdf.device < 32
            &&& function.bdf.function < 8
            &&& function.bridge matches Some(bridge) ==> {
                &&& function.is_bridge()
                &&& function.original_command is Some
                &&& bridge.downstream.bus > node.bus
                &&& numbered(*bridge.downstream, segment, end)
            }
        }
    &&& forall|i: int, j: int|
        0 <= i < j < node.functions@.len() ==> {
            let first = #[trigger] node.functions@[i];
            let second = #[trigger] node.functions@[j];
            first.bridge is Some && second.bridge is Some ==> numbered(
                *first.bridge->0.downstream,
                segment,
                second.bridge->0.downstream.bus as int,
            )
        }
}

proof fn lemma_numbered_weaken(node: PciBusNode, segment: u16, end: int, later: int)
    requires
        numbered(node, segment, end),
        end <= later,
    ensures
        numbered(node, segment, later),
    decreases node,
{
    assert forall|i: int| 0 <= i < node.functions@.len() implies {
        let function = #[trigger] node.functions@[i];
        function.bridge matches Some(bridge) ==> numbered(*bridge.downstream, segment, later)
    } by {
        let function = node.functions@[i];
        if function.bridge is Some {
            lemma_numbered_weaken(*function.bridge->0.downstream, segment, end, later);
        }
    }
}

/// What holds of the functions of a bus while its bridges are opened.
spec fn opened(
    functions: Seq<PciFunctionNode>,
    segment: u16,
    bus: u8,
    next: int,
    limit: int,
) -> bool {
    &&& forall|i: int|
        0 <= i < functions.len() ==> {
            let function = #[trigger] functions[i];
            &&& function.bdf.segment == segment
            &&& function.bdf.bus == bus
            &&& function.bdf.device < 32
            &&& function.bdf.function < 8
            &&& function.bridge matches Some(bridge) ==> {
                &&& i < limit
                &&& function.is_bridge()
                &&& function.original_command is Some
                &&& bridge.downstream.bus > bus
                &&& numbered(*bridge.downstream, segment, next)
            }
        }
    &&& forall|i: int, j: int|
        0 <= i < j < functions.len() ==> {
            let first = #[trigger] functions[i];
            let second = #[trigger] functions[j];
            first.bridge is Some && second.bridge is Some ==> numbered(
                *first.bridge->0.downstream,
                segment,
                second.bridge->0.downstream.bus as int,
            )
        }
}

proof fn lemma_opened_later(
    functions: Seq<PciFunctionNode>,
    segment: u16,
    bus: u8,
    next: int,
    limit: int,
    later: int,
    higher: int,
)
    requires
        opened(functions, segment, bus, next, limit),
        next <= later,
        limit <= higher,
    ensures
        opened(functions, segment, bus, later, higher),
{
    assert forall|i: int| 0 <= i < functions.len() implies {
        let function = #[trigger] functions[i];
        function.bridge matches Some(bridge) ==> numbered(*bridge.downstream, segment, later)
    } by {
        if functions[i].bridge is Some {
            lemma_numbered_weaken(*functions[i].bridge->0.downstream, segment, next, later);
        }
    }
}

/// Whether no function of a tree has registers yet.
pub open spec fn tree_fresh(node: PciBusNode) -> bool
    decreases node,
{
    forall|i: int|
        0 <= i < node.functions@.len() ==> {
            let function = #[trigger] node.functions@[i];
            &&& function.bars@.len() == 0
            &&& function.bridge matches Some(bridge) ==> tree_fresh(*bridge.downstream)
        }
}

/// The parts of a trace, one after the other.
pub open spec fn joined(parts: Seq<Seq<ConfigExchange>>) -> Seq<ConfigExchange>
    decreases parts.len(),
{
    if parts.len() == 0 {
        Seq::empty()
    } else {
        joined(parts.drop_last()) + parts.last()
    }
}

proof fn lemma_joined_push(parts: Seq<Seq<ConfigExchange>>, part: Seq<ConfigExchange>)
    ensures
        joined(parts.push(part)) == joined(parts) + part,
{
    assert(parts.push(part).drop_last() =~= parts);
}

/// What closing function `i` of a bus before anything is opened comes to; only
/// bridges are closed.
pub open spec fn closed_at(
    part: Seq<ConfigExchange>,
    function: PciFunctionNode,
    bus: u8,
    i: int,
    found: Option<PciBridgeDiscovery>,
) -> bool {
    if function.is_bridge() {
        closing_result(part, function, bus, i as usize, found)
    } else {
        part.len() == 0 && found is None
    }
}

/// Whether the bridges of a bus were closed in turn.
pub open spec fn bridges_closed(
    parts: Seq<Seq<ConfigExchange>>,
    functions: Seq<PciFunctionNode>,
    bus: u8,
    found: Seq<Option<PciBridgeDiscovery>>,
) -> bool {
    &&& parts.len() == functions.len()
    &&& found.len() == functions.len()
    &&& forall|i: int|
        0 <= i < functions.len() ==> closed_at(
            #[trigger] parts[i],
            functions[i],
            bus,
            i,
            found[i],
        )
}

/// Closes all bridges of a bus, so that none of them forwards accesses while a
/// sibling is scanned, and finds out which may be opened.
fn close_bridges<F: FnMut(ConfigAccess) -> ConfigReply>(
    port: &mut ConfigPort<F>,
    functions: &Vec<PciFunctionNode>,
    bus: u8,
) -> (bridges: Vec<Option<PciBridgeDiscovery>>)
    requires
        old(port).wf(),
    ensures
        final(port).wf(),
        final(port).performs() == old(port).performs(),
        exists|parts: Seq<Seq<ConfigExchange>>|
            final(port).log() == old(port).log() + joined(parts) && #[trigger] bridges_closed(
                parts,
                functions@,
                bus,
                bridges@,
            ),
{
    let mut bridges: Vec<Option<PciBridgeDiscovery>> = Vec::new();
    let ghost start = port.log();
    let ghost mut parts: Seq<Seq<ConfigExchange>> = Seq::empty();
    assert(start + joined(parts) =~= start);
    let mut index: usize = 0;
    while index < functions.len()
        invariant
            index <= functions@.len(),
            port.wf(),
            port.performs() == old(port).performs(),
            port.log() == start + joined(parts),
            parts.len() == index,
            bridges@.len() == index,
            forall|i: int|
                0 <= i < index ==> closed_at(
                    #[trigger] parts[i],
                    functions@[i],
                    bus,
                    i,
                    bridges@[i],
                ),
        decreases functions@.len() - index,
    {
        let ghost before = port.log();
        let ghost parts_before = parts;
        if is_standard_pci_bridge(&functions[index]) {
            let discovery = close_bridge(port, &functions[index], bus, index);
            bridges.push(discovery);
            proof {
                let part = choose|part: Seq<ConfigExchange>|
                    port.log() == before + part && #[trigger] closing_result(
                        part,
                        functions@[index as int],
                        bus,
                        index,
                        discovery,
                    );
                lemma_joined_push(parts, part);
                parts = parts.push(part);
                assert(port.log() =~= start + joined(parts));
            }
        } else {
            bridges.push(None);
            proof {
                lemma_joined_push(parts, Seq::empty());
                parts = parts.push(Seq::empty());
                assert(port.log() =~= start + joined(parts));
            }
        }
        proof {
            assert forall|i: int| 0 <= i < index + 1 implies closed_at(
                #[trigger] parts[i],
                functions@[i],
                bus,
                i,
                bridges@[i],
            ) by {
                if i < index {
                    assert(parts[i] == parts_before[i]);
                }
            }
        }
        index += 1;
    }
    assert(bridges_closed(parts, functions@, bus, bridges@));
    bridges
}

/// The write of the bus numbers of a bridge.
pub open spec fn numbers_written(
    bdf: PciBdf,
    latency: u8,
    primary: u8,
    secondary: u8,
    subordinate: u8,
    ok: bool,
) -> ConfigExchange {
    config_port::cw32(
        bdf,
        PCI_BRIDGE_BUS_NUMBERS,
        bus_numbers(latency, primary, secondary, subordinate),
        ok,
    )
}

/// The accesses round the scan of the bus behind a bridge: the numbers are
/// opened before it and narrowed after it.
pub open spec fn opening_trace(
    trace: Seq<ConfigExchange>,
    bdf: PciBdf,
    latency: u8,
    bus: u8,
    secondary: u8,
    bus_end: u8,
    subordinate: u8,
    inner: Seq<ConfigExchange>,
    node: PciBusNode,
    below: Option<PciBusNode>,
) -> bool {
    let scanned = seq![numbers_written(bdf, latency, bus, secondary, bus_end, true)] + inner;
    let narrowed = |ok: bool| numbers_written(bdf, latency, bus, secondary, subordinate, ok);
    ||| below == Some(node) && trace == scanned.push(narrowed(true))
    ||| below is None && exists|read: Option<u32>, ok: bool|
        trace == scanned.push(narrowed(false)) + #[trigger] bus_closing(bdf, bus, read, ok)
}

/// Whether these accesses are the opening of a bridge for which `first` is the
/// next free bus number. With no number left nothing happens. Else the bridge is
/// opened from that number up to the last one, the bus behind it is scanned, and
/// the bridge is narrowed to the numbers that were handed out meanwhile. A bridge
/// whose numbers cannot be written is closed, and what was behind it forgotten.
pub open spec fn bridge_opened(
    trace: Seq<ConfigExchange>,
    segment: u16,
    bus: u8,
    bus_end: u8,
    bdf: PciBdf,
    discovery: PciBridgeDiscovery,
    first: int,
    below: Option<PciBusNode>,
    next: int,
) -> bool
    decreases bus_end - bus, 0int,
{
    if first > bus_end || first <= bus {
        trace.len() == 0 && below is None && next == first
    } else {
        let secondary = first as u8;
        ||| below is None && next == first + 1 && exists|read: Option<u32>, ok: bool|
            trace == seq![numbers_written(bdf, discovery.latency, bus, secondary, bus_end, false)] + #[trigger] bus_closing(
                bdf,
                bus,
                read,
                ok,
            )
        ||| exists|inner: Seq<ConfigExchange>, node: PciBusNode| #[trigger]
            opening_trace(
                trace,
                bdf,
                discovery.latency,
                bus,
                secondary,
                bus_end,
                (next - 1) as u8,
                inner,
                node,
                below,
            ) && bus_scanned(inner, segment, secondary, bus_end, first + 1, node, next)
    }
}

/// How a bus was scanned: looking at its functions, closing its bridges, and
/// opening them one after the other.
#[verifier::ext_equal]
pub ghost struct BusRun {
    pub scan: Seq<ConfigExchange>,
    pub functions: Seq<PciFunctionNode>,
    pub closing: Seq<Seq<ConfigExchange>>,
    pub found: Seq<Option<PciBridgeDiscovery>>,
    pub opening: Seq<Seq<ConfigExchange>>,
    /// The next free bus number before each function, and at the end.
    pub free: Seq<int>,
    pub below: Seq<Option<PciBusNode>>,
}

/// The node of a function with what was found behind it.
pub open spec fn node_with(
    node: PciFunctionNode,
    function: PciFunctionNode,
    found: Option<PciBridgeDiscovery>,
    below: Option<PciBusNode>,
) -> bool {
    &&& node.bdf == function.bdf
    &&& node.info == function.info
    &&& node.original_command == function.original_command
    &&& node.bars == function.bars
    &&& node.saw_io_bar == function.saw_io_bar
    &&& node.saw_memory_bar == function.saw_memory_bar
    &&& node.io_failed == function.io_failed
    &&& node.memory_failed == function.memory_failed
    &&& match below {
        None => node.bridge is None,
        Some(downstream) => node.bridge matches Some(bridge) && *bridge.downstream == downstream
            && found is Some && bridge.io_32bit == found->0.io_32bit && bridge.prefetch_64bit
            == found->0.prefetch_64bit,
    }
}

/// Whether a run explains a trace and a node.
pub open spec fn run_fits(
    run: BusRun,
    trace: Seq<ConfigExchange>,
    segment: u16,
    bus: u8,
    first: int,
    node: PciBusNode,
    next: int,
) -> bool {
    let n = run.functions.len();
    let state = scan::scan_state(segment, bus, run.scan);
    &&& state.valid
    &&& state.pending is None
    &&& state.device == 32
    &&& scan::nodes_of(run.functions, state.found)
    &&& bridges_closed(run.closing, run.functions, bus, run.found)
    &&& run.opening.len() == n
    &&& run.free.len() == n + 1
    &&& run.below.len() == n
    &&& run.free[0] == first
    &&& run.free[n as int] == next
    &&& trace == run.scan + joined(run.closing) + joined(run.opening)
    &&& node.bus == bus
    &&& node.functions@.len() == n
    &&& forall|i: int|
        0 <= i < n ==> node_with(
            #[trigger] node.functions@[i],
            run.functions[i],
            run.found[i],
            run.below[i],
        )
}

/// Whether these accesses are the scan of a bus and of everything behind it, and
/// `node` is what they found.
pub open spec fn bus_scanned(
    trace: Seq<ConfigExchange>,
    segment: u16,
    bus: u8,
    bus_end: u8,
    first: int,
    node: PciBusNode,
    next: int,
) -> bool
    decreases bus_end - bus, 1int,
{
    exists|run: BusRun| #[trigger]
        run_fits(run, trace, segment, bus, first, node, next) && forall|i: int|
            0 <= i < run.functions.len() ==> match run.found[i] {
                None => (#[trigger] run.opening[i]).len() == 0 && run.below[i] is None
                    && run.free[i + 1] == run.free[i],
                Some(discovery) => bridge_opened(
                    run.opening[i],
                    segment,
                    bus,
                    bus_end,
                    run.functions[i].bdf,
                    discovery,
                    run.free[i],
                    run.below[i],
                    run.free[i + 1],
                ),
            }
}

/// Opens a bridge and scans what is behind it.
fn open_bridge<F: FnMut(ConfigAccess) -> ConfigReply>(
    port: &mut ConfigPort<F>,
    segment: u16,
    bus: u8,
    bus_end: u8,
    bdf: PciBdf,
    discovery: PciBridgeDiscovery,
    buses: &mut PciBusNumberAllocator,
) -> (below: Option<PciBusNode>)
    requires
        old(port).wf(),
        bus < old(buses).next_bus() <= 256,
        old(buses).last_bus() == bus_end,
        bus <= bus_end,
    ensures
        final(port).wf(),
        final(port).performs() == old(port).performs(),
        exists|trace: Seq<ConfigExchange>|
            final(port).log() == old(port).log() + trace && #[trigger] bridge_opened(
                trace,
                segment,
                bus,
                bus_end,
                bdf,
                discovery,
                old(buses).next_bus(),
                below,
                final(buses).next_bus(),
            ),
        below matches Some(node) ==> node.bus == old(buses).next_bus() && numbered(
            node,
            segment,
            final(buses).next_bus(),
        ) && tree_fresh(node),
        old(buses).next_bus() <= final(buses).next_bus() <= 256,
        final(buses).next_bus() <= bus_end + 1 || final(buses).next_bus() == old(buses).next_bus(),
        final(buses).last_bus() == bus_end,
    decreases bus_end - bus, 0int,
{
    let ghost start = port.log();
    let ghost first = buses.next_bus();
    let secondary: u8 = match buses.allocate() {
        Some(secondary) => secondary,
        None => {
            assert(start + Seq::<ConfigExchange>::empty() =~= start);
            assert(bridge_opened(
                Seq::empty(),
                segment,
                bus,
                bus_end,
                bdf,
                discovery,
                first,
                None,
                first,
            ));
            return None;
        },
    };
    if !write_bridge_bus_numbers(port, bdf, discovery.latency, bus, secondary, bus_end) {
        let ghost written = port.log();
        disable_bridge_bus_numbers(port, bdf, bus);
        proof {
            let (read, ok) = choose|read: Option<u32>, ok: bool|
                port.log() == written + #[trigger] bus_closing(bdf, bus, read, ok);
            let trace = seq![
                numbers_written(bdf, discovery.latency, bus, secondary, bus_end, false),
            ] + bus_closing(bdf, bus, read, ok);
            assert(port.log() =~= start + trace);
            assert(bridge_opened(
                trace,
                segment,
                bus,
                bus_end,
                bdf,
                discovery,
                first,
                None,
                first + 1,
            ));
        }
        return None;
    }
    let ghost opened = port.log();
    let downstream = scan_pci_bus(port, segment, secondary, bus_end, buses);
    let ghost below = downstream;
    let ghost next = buses.next_bus();
    let ghost inner = choose|inner: Seq<ConfigExchange>|
        port.log() == opened + inner && #[trigger] bus_scanned(
            inner,
            segment,
            secondary,
            bus_end,
            first + 1,
            below,
            next,
        );
    let ghost scanned = seq![
        numbers_written(bdf, discovery.latency, bus, secondary, bus_end, true),
    ] + inner;
    assert(port.log() =~= start + scanned);
    let subordinate: u8 = buses.last_allocated(secondary);
    assert(subordinate == (next - 1) as u8);
    assert(bus_scanned(inner, segment, secondary, bus_end, first + 1, below, next));
    if !write_bridge_bus_numbers(port, bdf, discovery.latency, bus, secondary, subordinate) {
        let ghost written = port.log();
        disable_bridge_bus_numbers(port, bdf, bus);
        proof {
            let (read, ok) = choose|read: Option<u32>, ok: bool|
                port.log() == written + #[trigger] bus_closing(bdf, bus, read, ok);
            let trace = scanned.push(
                numbers_written(bdf, discovery.latency, bus, secondary, subordinate, false),
            ) + bus_closing(bdf, bus, read, ok);
            assert(port.log() =~= start + trace);
            assert(opening_trace(
                trace,
                bdf,
                discovery.latency,
                bus,
                secondary,
                bus_end,
                (next - 1) as u8,
                inner,
                below,
                None,
            ));
            assert(bridge_opened(
                trace,
                segment,
                bus,
                bus_end,
                bdf,
                discovery,
                first,
                None,
                next,
            ));
        }
        return None;
    }
    proof {
        let trace = scanned.push(
            numbers_written(bdf, discovery.latency, bus, secondary, subordinate, true),
        );
        assert(port.log() =~= start + trace);
        assert(opening_trace(
            trace,
            bdf,
            discovery.latency,
            bus,
            secondary,
            bus_end,
            (next - 1) as u8,
            inner,
            below,
            Some(below),
        ));
        assert(bridge_opened(
            trace,
            segment,
            bus,
            bus_end,
            bdf,
            discovery,
            first,
            Some(below),
            next,
        ));
    }
    Some(downstream)
}

/// Scans a bus and, depth first, the buses behind its bridges. Bus numbers are
/// handed out in the order in which bridges are met. A bridge is opened up to
/// the last number while it is scanned and then narrowed to what is behind it; a
/// bridge whose registers cannot be written is closed again.
pub fn scan_pci_bus<F: FnMut(ConfigAccess) -> ConfigReply>(
    port: &mut ConfigPort<F>,
    segment: u16,
    bus: u8,
    bus_end: u8,
    buses: &mut PciBusNumberAllocator,
) -> (node: PciBusNode)
    requires
        old(port).wf(),
        bus < old(buses).next_bus() <= 256,
        old(buses).last_bus() == bus_end,
        bus <= bus_end,
    ensures
        final(port).wf(),
        final(port).performs() == old(port).performs(),
        exists|trace: Seq<ConfigExchange>|
            final(port).log() == old(port).log() + trace && #[trigger] bus_scanned(
                trace,
                segment,
                bus,
                bus_end,
                old(buses).next_bus(),
                node,
                final(buses).next_bus(),
            ),
        node.bus == bus,
        numbered(node, segment, final(buses).next_bus()),
        tree_fresh(node),
        old(buses).next_bus() <= final(buses).next_bus() <= 256,
        final(buses).next_bus() <= bus_end + 1 || final(buses).next_bus() == old(buses).next_bus(),
        final(buses).last_bus() == bus_end,
    decreases bus_end - bus, 1int,
{
    let ghost start = port.log();
    let ghost first = buses.next_bus();
    let mut functions = scan_pci_functions(port, segment, bus);
    let ghost plain = functions@;
    let ghost n = plain.len() as int;
    let ghost scan = choose|trace: Seq<ConfigExchange>|
        port.log() == start + trace && {
            let state = #[trigger] scan::scan_state(segment, bus, trace);
            &&& state.valid
            &&& state.pending is None
            &&& state.device == 32
            &&& scan::nodes_of(plain, state.found)
        };
    let ghost looked = port.log();
    let bridges = close_bridges(port, &functions, bus);
    let ghost closing = choose|parts: Seq<Seq<ConfigExchange>>|
        port.log() == looked + joined(parts) && #[trigger] bridges_closed(
            parts,
            plain,
            bus,
            bridges@,
        );
    let ghost closed = port.log();
    let ghost mut opening: Seq<Seq<ConfigExchange>> = Seq::empty();
    let ghost mut free: Seq<int> = seq![first];
    let ghost mut below: Seq<Option<PciBusNode>> = Seq::empty();
    assert(closed + joined(opening) =~= closed);
    let mut index: usize = 0;
    while index < functions.len()
        invariant
            index <= n,
            port.wf(),
            port.performs() == old(port).performs(),
            bus < buses.next_bus() <= 256,
            bus <= bus_end,
            buses.last_bus() == bus_end,
            first == old(buses).next_bus(),
            first <= buses.next_bus(),
            buses.next_bus() <= bus_end + 1 || buses.next_bus() == first,
            functions@.len() == n,
            plain.len() == n,
            bridges@.len() == n,
            bridges_closed(closing, plain, bus, bridges@),
            port.log() == closed + joined(opening),
            opening.len() == index,
            free.len() == index + 1,
            below.len() == index,
            free[0] == first,
            free[index as int] == buses.next_bus(),
            opened(functions@, segment, bus, buses.next_bus(), index as int),
            forall|i: int|
                0 <= i < index ==> node_with(
                    #[trigger] functions@[i],
                    plain[i],
                    bridges@[i],
                    below[i],
                ),
            forall|i: int| index <= i < n ==> #[trigger] functions@[i] == plain[i],
            forall|i: int|
                0 <= i < index ==> opened_at(
                    #[trigger] opening[i],
                    segment,
                    bus,
                    bus_end,
                    plain[i].bdf,
                    bridges@[i],
                    free[i],
                    below[i],
                    free[i + 1],
                ),
            forall|i: int|
                0 <= i < n ==> (#[trigger] plain[i]).bridge is None && plain[i].bars@.len() == 0,
            forall|i: int|
                0 <= i < index ==> {
                    let function = #[trigger] functions@[i];
                    &&& function.bars@.len() == 0
                    &&& function.bridge matches Some(bridge) ==> tree_fresh(*bridge.downstream)
                },
        decreases n - index,
    {
        let bdf = functions[index].bdf;
        let ghost before = functions@;
        let ghost next_before = buses.next_bus();
        let ghost log_before = port.log();
        let ghost parts_before = opening;
        let ghost free_before = free;
        let ghost below_before = below;
        assert(functions@[index as int] == plain[index as int]);
        assert(closed_at(
            closing[index as int],
            plain[index as int],
            bus,
            index as int,
            bridges@[index as int],
        ));
        let ghost mut part: Seq<ConfigExchange> = Seq::empty();
        let ghost mut result: Option<PciBusNode> = None;
        if let Some(discovery) = bridges[index] {
            let downstream = open_bridge(port, segment, bus, bus_end, bdf, discovery, buses);
            proof {
                result = downstream;
                part = choose|trace: Seq<ConfigExchange>|
                    port.log() == log_before + trace && #[trigger] bridge_opened(
                        trace,
                        segment,
                        bus,
                        bus_end,
                        bdf,
                        discovery,
                        next_before,
                        result,
                        buses.next_bus(),
                    );
            }
            if let Some(node) = downstream {
                functions[index].bridge = Some(
                    PciBridgeNode {
                        io_32bit: discovery.io_32bit,
                        prefetch_64bit: discovery.prefetch_64bit,
                        downstream: Box::new(node),
                    },
                );
            }
        } else {
            assert(log_before + part =~= log_before);
        }
        proof {
            let after = functions@;
            let next = buses.next_bus();
            lemma_joined_push(opening, part);
            opening = opening.push(part);
            free = free.push(next);
            below = below.push(result);
            assert(port.log() =~= closed + joined(opening));
            lemma_opened_later(
                before,
                segment,
                bus,
                next_before,
                index as int,
                next,
                index + 1,
            );
            lemma_step_opened(before, after, segment, bus, next_before, index as int, next);
            assert forall|i: int| 0 <= i < index + 1 implies opened_at(
                #[trigger] opening[i],
                segment,
                bus,
                bus_end,
                plain[i].bdf,
                bridges@[i],
                free[i],
                below[i],
                free[i + 1],
            ) by {
                if i < index {
                    assert(opening[i] == parts_before[i]);
                    assert(free[i] == free_before[i] && free[i + 1] == free_before[i + 1]);
                    assert(below[i] == below_before[i]);
                } else {
                    assert(free[i] == next_before);
                }
            }
            assert forall|i: int| 0 <= i < index + 1 implies node_with(
                #[trigger] after[i],
                plain[i],
                bridges@[i],
                below[i],
            ) by {
                if i < index {
                    assert(after[i] == before[i]);
                    assert(below[i] == below_before[i]);
                }
            }
        }
        index += 1;
    }
    let node = PciBusNode { bus, functions };
    proof {
        let trace = scan + joined(closing) + joined(opening);
        assert(port.log() =~= start + trace);
        let run = BusRun {
            scan,
            functions: plain,
            closing,
            found: bridges@,
            opening,
            free,
            below,
        };
        assert(run_fits(run, trace, segment, bus, first, node, buses.next_bus()));
        assert forall|i: int| 0 <= i < run.functions.len() implies match run.found[i] {
            None => (#[trigger] run.opening[i]).len() == 0 && run.below[i] is None && run.free[i + 1]
                == run.free[i],
            Some(discovery) => bridge_opened(
                run.opening[i],
                segment,
                bus,
                bus_end,
                run.functions[i].bdf,
                discovery,
                run.free[i],
                run.below[i],
                run.free[i + 1],
            ),
        } by {
            assert(opened_at(
                opening[i],
                segment,
                bus,
                bus_end,
                plain[i].bdf,
                bridges@[i],
                free[i],
                below[i],
                free[i + 1],
            ));
        }
        assert(bus_scanned(trace, segment, bus, bus_end, first, node, buses.next_bus()));
    }
    node
}

spec fn opened_at(
    part: Seq<ConfigExchange>,
    segment: u16,
    bus: u8,
    bus_end: u8,
    bdf: PciBdf,
    found: Option<PciBridgeDiscovery>,
    first: int,
    below: Option<PciBusNode>,
    next: int,
) -> bool {
    match found {
        None => part.len() == 0 && below is None && next == first,
        Some(discovery) => bridge_opened(
            part,
            segment,
            bus,
            bus_end,
            bdf,
            discovery,
            first,
            below,
            next,
        ),
    }
}

/// Hanging a scanned bus below function `index` keeps the buses numbered.
proof fn lemma_step_opened(
    before: Seq<PciFunctionNode>,
    after: Seq<PciFunctionNode>,
    segment: u16,
    bus: u8,
    next_before: int,
    index: int,
    next: int,
)
    requires
        opened(before, segment, bus, next_before, index),
        opened(before, segment, bus, next, index + 1),
        0 <= index < before.len(),
        after.len() == before.len(),
        forall|i: int| 0 <= i < after.len() && i != index ==> #[trigger] after[i] == before[i],
        before[index].bridge is None,
        after[index].bdf == before[index].bdf,
        after[index].bridge is None || after[index].bridge is Some && {
            let node = *after[index].bridge->0.downstream;
            &&& after[index].is_bridge()
            &&& after[index].original_command is Some
            &&& node.bus == next_before
            &&& node.bus > bus
            &&& numbered(node, segment, next)
        },
    ensures
        opened(after, segment, bus, next, index + 1),
{
    assert forall|i: int, j: int| 0 <= i < j < after.len() implies {
        let first = #[trigger] after[i];
        let second = #[trigger] after[j];
        first.bridge is Some && second.bridge is Some ==> numbered(
            *first.bridge->0.downstream,
            segment,
            second.bridge->0.downstream.bus as int,
        )
    } by {
        if i != index && j != index {
            assert(after[i] == before[i] && after[j] == before[j]);
        } else if j == index {
            assert(after[i] == before[i]);
        } else {
            assert(after[j] == before[j]);
        }
    }
    assert forall|i: int| 0 <= i < after.len() implies {
        let function = #[trigger] after[i];
        &&& function.bdf.segment == segment
        &&& function.bdf.bus == bus
        &&& function.bdf.device < 32
        &&& function.bdf.function < 8
        &&& function.bridge matches Some(bridge) ==> {
            &&& i < index + 1
            &&& function.is_bridge()
            &&& function.original_command is Some
            &&& bridge.downstream.bus > bus
            &&& numbered(*bridge.downstream, segment, next)
        }
    } by {
        if i != index {
            assert(after[i] == before[i]);
        }
    }
}

/// The numbers of a bus and of all buses below it.
pub open spec fn has_bus(node: PciBusNode, bus: u8) -> bool
    decreases node,
{
    node.bus == bus || exists|i: int|
        0 <= i < node.functions@.len() && (#[trigger] node.functions@[i]).bridge is Some && has_bus(
            *node.functions@[i].bridge->0.downstream,
            bus,
        )
}

/// Every bus below a node has a number from the node's own up to the end.
pub proof fn bus_numbers_in_range(node: PciBusNode, segment: u16, end: int, bus: u8)
    requires
        numbered(node, segment, end),
        has_bus(node, bus),
    ensures
        node.bus <= bus < end,
    decreases node,
{
    if node.bus != bus {
        let i = choose|i: int|
            0 <= i < node.functions@.len() && (#[trigger] node.functions@[i]).bridge is Some
                && has_bus(*node.functions@[i].bridge->0.downstream, bus);
        bus_numbers_in_range(*node.functions@[i].bridge->0.downstream, segment, end, bus);
    }
}

/// No bus number is behind two bridges of the same bus, nor is the bus's own
/// number behind one of its bridges.
pub proof fn bus_numbers_are_unique(
    node: PciBusNode,
    segment: u16,
    end: int,
    i: int,
    j: int,
    bus: u8,
)
    requires
        numbered(node, segment, end),
        0 <= i < j < node.functions@.len(),
        node.functions@[i].bridge is Some,
        node.functions@[j].bridge is Some,
        has_bus(*node.functions@[i].bridge->0.downstream, bus),
    ensures
        !has_bus(*node.functions@[j].bridge->0.downstream, bus),
        bus != node.bus,
{
    let first = *node.functions@[i].bridge->0.downstream;
    let second = *node.functions@[j].bridge->0.downstream;
    bus_numbers_in_range(first, segment, second.bus as int, bus);
    if has_bus(second, bus) {
        bus_numbers_in_range(second, segment, end, bus);
    }
}

} // verus!
