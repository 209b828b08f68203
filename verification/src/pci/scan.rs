//! The tree of buses and functions below a host bridge.

use vstd::prelude::*;
use crate::align;
use crate::align::is_power_of_two;
use crate::pci::bar::{PciBarAddressWidth, PciBarKind};
use crate::pci::config_port;
use crate::pci::config_port::{
    ConfigAccess, ConfigExchange, ConfigPort, ConfigReply, PciBdf, PciFunctionInfo,
};
use crate::pci::probe;
use crate::pci::probe::{
    BarProbe, PCI_BAR0_OFFSET, PCI_BAR_STRIDE, PciBarResource, probe_io_bar, probe_memory_bar,
};

verus! {

pub const PCI_DEVICES_PER_BUS: u8 = 32;

pub const PCI_FUNCTIONS_PER_DEVICE: u8 = 8;

pub const PCI_HEADER_TYPE_BRIDGE: u8 = 0x01;

pub const PCI_CLASS_BRIDGE: u8 = 0x06;

pub const PCI_SUBCLASS_PCI_BRIDGE: u8 = 0x04;

/// A bus and the functions on it.
pub struct PciBusNode {
    pub bus: u8,
    pub functions: Vec<PciFunctionNode>,
}

/// A function and, if it is a bridge, the bus behind it.
pub struct PciFunctionNode {
    pub bdf: PciBdf,
    pub info: PciFunctionInfo,
    pub original_command: Option<u16>,
    pub bars: Vec<PciBarResource>,
    pub saw_io_bar: bool,
    pub saw_memory_bar: bool,
    pub io_failed: bool,
    pub memory_failed: bool,
    pub bridge: Option<PciBridgeNode>,
}

/// What a bridge can forward, and the bus behind it.
pub struct PciBridgeNode {
    pub io_32bit: bool,
    pub prefetch_64bit: bool,
    pub downstream: Box<PciBusNode>,
}

/// What scanning found of a function.
pub ghost struct FoundFunction {
    pub bdf: PciBdf,
    pub info: PciFunctionInfo,
    pub command: Option<u16>,
}

impl PciFunctionNode {
    /// Whether the node is what scanning makes of a function.
    pub open spec fn fresh(self, found: FoundFunction) -> bool {
        &&& self.bdf == found.bdf
        &&& self.info == found.info
        &&& self.original_command == found.command
        &&& self.bars@.len() == 0
        &&& !self.saw_io_bar
        &&& !self.saw_memory_bar
        &&& self.io_failed == (found.command is None)
        &&& self.memory_failed == (found.command is None)
        &&& self.bridge is None
    }

    /// Whether the function is a PCI-to-PCI bridge.
    pub open spec fn is_bridge(self) -> bool {
        self.info.header_type == 0x01 && self.info.class == 0x06 && self.info.subclass == 0x04
    }
}

/// How far a scan of a bus got.
pub ghost struct ScanState {
    pub valid: bool,
    pub device: int,
    pub function: int,
    pub multi_function: bool,
    /// A function that was found and whose command register is read next.
    pub pending: Option<PciFunctionInfo>,
    pub found: Seq<FoundFunction>,
}

/// The state with the next function to look at: functions 1 to 7 only where
/// function 0 says that there are some.
pub open spec fn advanced(state: ScanState, more: bool) -> ScanState {
    if more && state.function + 1 < 8 {
        ScanState { function: state.function + 1, pending: None, ..state }
    } else {
        ScanState { device: state.device + 1, function: 0, pending: None, ..state }
    }
}

/// What one access of a scan does to its state.
pub open spec fn scan_step(
    state: ScanState,
    segment: u16,
    bus: u8,
    exchange: ConfigExchange,
) -> ScanState {
    let bdf = PciBdf {
        segment,
        bus,
        device: state.device as u8,
        function: state.function as u8,
    };
    match state.pending {
        None => match exchange.reply {
            ConfigReply::Function(info) => ScanState {
                valid: state.valid && state.device < 32 && exchange.access == ConfigAccess::Look(
                    bdf,
                ),
                pending: Some(info),
                multi_function: if state.function == 0 {
                    info.multi_function
                } else {
                    state.multi_function
                },
                ..state
            },
            _ => advanced(
                ScanState {
                    valid: state.valid && state.device < 32 && exchange == config_port::looked(
                        bdf,
                        None,
                    ),
                    ..state
                },
                state.function > 0,
            ),
        },
        Some(info) => {
            let command = match exchange.reply {
                ConfigReply::Value(value) => Some(value as u16),
                _ => None,
            };
            advanced(
                ScanState {
                    valid: state.valid && exchange == config_port::command_read(bdf, command),
                    found: state.found.push(FoundFunction { bdf, info, command }),
                    ..state
                },
                state.multi_function,
            )
        },
    }
}

/// The state of a scan after the accesses of `trace`.
pub open spec fn scan_state(segment: u16, bus: u8, trace: Seq<ConfigExchange>) -> ScanState
    decreases trace.len(),
{
    if trace.len() == 0 {
        ScanState {
            valid: true,
            device: 0,
            function: 0,
            multi_function: false,
            pending: None,
            found: Seq::empty(),
        }
    } else {
        scan_step(scan_state(segment, bus, trace.drop_last()), segment, bus, trace.last())
    }
}

/// Whether `functions` are the nodes of what was found.
pub open spec fn nodes_of(functions: Seq<PciFunctionNode>, found: Seq<FoundFunction>) -> bool {
    &&& functions.len() == found.len()
    &&& forall|i: int| 0 <= i < found.len() ==> (#[trigger] functions[i]).fresh(found[i])
}

proof fn lemma_scan_push(segment: u16, bus: u8, trace: Seq<ConfigExchange>, exchange: ConfigExchange)
    ensures
        scan_state(segment, bus, trace.push(exchange)) == scan_step(
            scan_state(segment, bus, trace),
            segment,
            bus,
            exchange,
        ),
{
    assert(trace.push(exchange).drop_last() =~= trace);
}

/// Looks at one function; pushes a node if it is there.
fn scan_one_function<F: FnMut(ConfigAccess) -> ConfigReply>(
    port: &mut ConfigPort<F>,
    segment: u16,
    bus: u8,
    device: u8,
    function: u8,
    functions: &mut Vec<PciFunctionNode>,
    Ghost(start): Ghost<Seq<ConfigExchange>>,
    Ghost(trace): Ghost<Seq<ConfigExchange>>,
) -> (result: (Option<PciFunctionInfo>, Ghost<Seq<ConfigExchange>>))
    requires
        old(port).wf(),
        old(port).log() == start + trace,
        ({
            let state = scan_state(segment, bus, trace);
            &&& state.valid
            &&& state.pending is None
            &&& state.device == device
            &&& state.function == function
            &&& device < 32
            &&& function < 8
            &&& nodes_of(old(functions)@, state.found)
        }),
    ensures
        final(port).wf(),
        final(port).performs() == old(port).performs(),
        final(port).log() == start + result.1@,
        ({
            let before = scan_state(segment, bus, trace);
            let state = scan_state(segment, bus, result.1@);
            let multi = match result.0 {
                Some(info) => if function == 0 {
                    info.multi_function
                } else {
                    before.multi_function
                },
                None => function > 0,
            };
            &&& state.valid
            &&& state.pending is None
            &&& nodes_of(final(functions)@, state.found)
            &&& state.device == (if multi && function + 1 < 8 {
                device as int
            } else {
                device + 1
            })
            &&& state.function == (if multi && function + 1 < 8 {
                function + 1
            } else {
                0
            })
            &&& state.multi_function == (if result.0 is Some {
                multi
            } else {
                before.multi_function
            })
        }),
{
    let bdf = PciBdf { segment, bus, device, function };
    let info = port.look(bdf);
    let ghost first = trace.push(config_port::looked(bdf, info));
    proof {
        lemma_scan_push(segment, bus, trace, config_port::looked(bdf, info));
        assert(port.log() =~= start + first);
    }
    match info {
        None => (None, Ghost(first)),
        Some(header) => {
            let original_command = port.command(bdf);
            let ghost second = first.push(config_port::command_read(bdf, original_command));
            proof {
                lemma_scan_push(
                    segment,
                    bus,
                    first,
                    config_port::command_read(bdf, original_command),
                );
                assert(port.log() =~= start + second);
            }
            let node = new_function_node(bdf, header, original_command);
            let ghost before = functions@;
            functions.push(node);
            proof {
                let found = scan_state(segment, bus, second).found;
                assert forall|i: int| 0 <= i < found.len() implies (
                #[trigger] functions@[i]).fresh(found[i]) by {
                    if i < before.len() {
                        assert(functions@[i] == before[i]);
                        assert(found[i] == scan_state(segment, bus, trace).found[i]);
                    }
                }
            }
            (Some(header), Ghost(second))
        },
    }
}

/// The node of a function that was found.
pub fn new_function_node(bdf: PciBdf, info: PciFunctionInfo, original_command: Option<u16>) -> (node:
    PciFunctionNode)
    ensures
        node.fresh(FoundFunction { bdf, info, command: original_command }),
{
    PciFunctionNode {
        bdf,
        info,
        original_command,
        bars: Vec::new(),
        saw_io_bar: false,
        saw_memory_bar: false,
        io_failed: original_command.is_none(),
        memory_failed: original_command.is_none(),
        bridge: None,
    }
}

/// Looks at every function that can be on a bus.
pub fn scan_pci_functions<F: FnMut(ConfigAccess) -> ConfigReply>(
    port: &mut ConfigPort<F>,
    segment: u16,
    bus: u8,
) -> (functions: Vec<PciFunctionNode>)
    requires
        old(port).wf(),
    ensures
        final(port).wf(),
        final(port).performs() == old(port).performs(),
        exists|trace: Seq<ConfigExchange>|
            final(port).log() == old(port).log() + trace && {
                let state = #[trigger] scan_state(segment, bus, trace);
                &&& state.valid
                &&& state.pending is None
                &&& state.device == 32
                &&& nodes_of(functions@, state.found)
            },
        forall|i: int|
            0 <= i < functions@.len() ==> on_bus(#[trigger] functions@[i], segment, bus),
{
    let mut functions: Vec<PciFunctionNode> = Vec::new();
    let ghost start = port.log();
    let ghost mut trace: Seq<ConfigExchange> = Seq::empty();
    assert(start + trace =~= start);
    let mut device: u8 = 0;
    while device < PCI_DEVICES_PER_BUS
        invariant
            device <= 32,
            port.wf(),
            port.performs() == old(port).performs(),
            port.log() == start + trace,
            scan_state(segment, bus, trace).valid,
            scan_state(segment, bus, trace).pending is None,
            scan_state(segment, bus, trace).device == device,
            scan_state(segment, bus, trace).function == 0,
            nodes_of(functions@, scan_state(segment, bus, trace).found),
        decreases 32 - device,
    {
        let (zero, Ghost(next)) = scan_one_function(
            port,
            segment,
            bus,
            device,
            0,
            &mut functions,
            Ghost(start),
            Ghost(trace),
        );
        proof {
            trace = next;
        }
        let multi_function = match zero {
            Some(info) => info.multi_function,
            None => false,
        };
        if multi_function {
            let mut function: u8 = 1;
            while function < PCI_FUNCTIONS_PER_DEVICE
                invariant
                    1 <= function <= 8,
                    device < 32,
                    port.wf(),
                    port.performs() == old(port).performs(),
                    port.log() == start + trace,
                    scan_state(segment, bus, trace).valid,
                    scan_state(segment, bus, trace).pending is None,
                    scan_state(segment, bus, trace).multi_function,
                    scan_state(segment, bus, trace).device == (if function < 8 {
                        device as int
                    } else {
                        device + 1
                    }),
                    scan_state(segment, bus, trace).function == (if function < 8 {
                        function as int
                    } else {
                        0
                    }),
                    nodes_of(functions@, scan_state(segment, bus, trace).found),
                decreases 8 - function,
            {
                let (_found, Ghost(next)) = scan_one_function(
                    port,
                    segment,
                    bus,
                    device,
                    function,
                    &mut functions,
                    Ghost(start),
                    Ghost(trace),
                );
                proof {
                    trace = next;
                }
                function += 1;
            }
        }
        device += 1;
    }
    proof {
        lemma_found_on_bus(segment, bus, trace);
        assert forall|i: int| 0 <= i < functions@.len() implies on_bus(
            #[trigger] functions@[i],
            segment,
            bus,
        ) by {
            let found = scan_state(segment, bus, trace).found;
            assert(functions@[i].fresh(found[i]));
        }
    }
    functions
}

/// Whether a node is a function of the bus.
pub open spec fn on_bus(node: PciFunctionNode, segment: u16, bus: u8) -> bool {
    &&& node.bdf.segment == segment
    &&& node.bdf.bus == bus
    &&& node.bdf.device < 32
    &&& node.bdf.function < 8
    &&& node.bridge is None
}

proof fn lemma_found_on_bus(segment: u16, bus: u8, trace: Seq<ConfigExchange>)
    ensures
        ({
            let state = scan_state(segment, bus, trace);
            state.valid ==> {
                &&& 0 <= state.device <= 32
                &&& 0 <= state.function < 8
                &&& state.pending is Some ==> state.device < 32
                &&& forall|i: int|
                    0 <= i < state.found.len() ==> {
                        let bdf = (#[trigger] state.found[i]).bdf;
                        &&& bdf.segment == segment
                        &&& bdf.bus == bus
                        &&& bdf.device < 32
                        &&& bdf.function < 8
                        &&& bdf.device * 8 + bdf.function < state.device * 8 + state.function
                    }
            }
        }),
    decreases trace.len(),
{
    if trace.len() > 0 {
        lemma_found_on_bus(segment, bus, trace.drop_last());
    }
}

/// A scan finds functions in order and none of them twice.
pub proof fn scan_finds_in_order(segment: u16, bus: u8, trace: Seq<ConfigExchange>, i: int, j: int)
    requires
        scan_state(segment, bus, trace).valid,
        0 <= i < j < scan_state(segment, bus, trace).found.len(),
    ensures
        ({
            let found = scan_state(segment, bus, trace).found;
            found[i].bdf.device * 8 + found[i].bdf.function < found[j].bdf.device * 8
                + found[j].bdf.function
        }),
    decreases trace.len(),
{
    if trace.len() > 0 {
        let before = trace.drop_last();
        lemma_found_on_bus(segment, bus, before);
        let found = scan_state(segment, bus, before).found;
        if j < found.len() {
            scan_finds_in_order(segment, bus, before, i, j);
        } else {
            assert(found[i].bdf == scan_state(segment, bus, trace).found[i].bdf);
        }
    }
}

pub fn is_standard_pci_bridge(function: &PciFunctionNode) -> (bridge: bool)
    ensures
        bridge == function.is_bridge(),
{
    function.info.header_type == PCI_HEADER_TYPE_BRIDGE && function.info.class == PCI_CLASS_BRIDGE
        && function.info.subclass == PCI_SUBCLASS_PCI_BRIDGE
}

/// What was found at one register: its first word, the probe, and the accesses
/// of both.
pub ghost struct BarRecord {
    pub index: u16,
    pub low: Option<u32>,
    pub outcome: BarProbe,
    pub trace: Seq<ConfigExchange>,
}

/// The width of a memory register by its type bits; one type is reserved.
pub open spec fn memory_width(low: u32) -> Option<PciBarAddressWidth> {
    let kind = low / 2 % 4;
    if kind == 1 {
        Some(PciBarAddressWidth::Bits20)
    } else if kind == 2 {
        Some(PciBarAddressWidth::Bits64)
    } else if kind == 3 {
        None
    } else {
        Some(PciBarAddressWidth::Bits32)
    }
}

/// Whether a record shows the accesses to the register at its index.
#[verifier::opaque]
pub open spec fn record_shown(record: BarRecord, bdf: PciBdf, bar_count: int) -> bool {
    let offset = probe::bar_offset(record.index) as u16;
    let read = config_port::cr32(bdf, offset, record.low);
    &&& record.trace.len() >= 1
    &&& record.trace[0] == read
    &&& match record.low {
        None => record.trace.len() == 1,
        Some(low) => {
            let rest = record.trace.skip(1);
            if low % 2 == 1 {
                probe::io_probe(rest, bdf, offset, low, record.outcome)
            } else {
                match memory_width(low) {
                    None => rest.len() == 0,
                    Some(width) => if width == PciBarAddressWidth::Bits64 && record.index + 1
                        >= bar_count {
                        rest.len() == 0
                    } else {
                        probe::memory_probe(rest, bdf, offset, low, width, record.outcome)
                    },
                }
            }
        },
    }
}

/// What is known of the registers of a function.
pub ghost struct BarState {
    pub index: int,
    pub stopped: bool,
    pub bars: Seq<PciBarResource>,
    pub saw_io: bool,
    pub saw_memory: bool,
    pub io_failed: bool,
    pub memory_failed: bool,
}

/// What a record adds. A register that cannot be read ends the search; so does
/// a 64-bit register without room for its second half. A size that is not a
/// power of two counts as a failure.
#[verifier::opaque]
pub open spec fn bar_step(state: BarState, record: BarRecord, bar_count: int) -> BarState {
    match record.low {
        None => BarState { io_failed: true, memory_failed: true, stopped: true, ..state },
        Some(low) => if low % 2 == 1 {
            let next = BarState { saw_io: true, index: state.index + 1, ..state };
            match record.outcome {
                BarProbe::Absent => next,
                BarProbe::Found { size, address, high } if align::power_of_two(size as int) => BarState {
                    bars: next.bars.push(
                        PciBarResource {
                            index: record.index,
                            kind: PciBarKind::Io,
                            width: PciBarAddressWidth::Bits32,
                            size,
                            original_low: low,
                            original_high: None,
                            original_address: address,
                            allocation: None,
                        },
                    ),
                    ..next
                },
                _ => BarState { io_failed: true, ..next },
            }
        } else {
            let seen = BarState { saw_memory: true, ..state };
            match memory_width(low) {
                None => BarState { memory_failed: true, index: state.index + 1, ..seen },
                Some(width) => {
                    let wide = width == PciBarAddressWidth::Bits64;
                    if wide && state.index + 1 >= bar_count {
                        BarState { memory_failed: true, stopped: true, ..seen }
                    } else {
                        let next = BarState {
                            index: state.index + (if wide {
                                2int
                            } else {
                                1
                            }),
                            ..seen
                        };
                        match record.outcome {
                            BarProbe::Absent => next,
                            BarProbe::Found { size, address, high } if align::power_of_two(
                                size as int,
                            ) => BarState {
                                bars: next.bars.push(
                                    PciBarResource {
                                        index: record.index,
                                        kind: PciBarKind::Memory {
                                            prefetchable: low / 8 % 2 == 1,
                                        },
                                        width,
                                        size,
                                        original_low: low,
                                        original_high: high,
                                        original_address: address,
                                        allocation: None,
                                    },
                                ),
                                ..next
                            },
                            _ => BarState { memory_failed: true, ..next },
                        }
                    }
                },
            }
        },
    }
}

/// What the records of a function come to.
pub open spec fn bar_state(start: BarState, records: Seq<BarRecord>, bar_count: int) -> BarState
    decreases records.len(),
{
    if records.len() == 0 {
        start
    } else {
        bar_step(bar_state(start, records.drop_last(), bar_count), records.last(), bar_count)
    }
}

/// The accesses of the records, one after the other.
pub open spec fn record_trace(records: Seq<BarRecord>) -> Seq<ConfigExchange>
    decreases records.len(),
{
    if records.len() == 0 {
        Seq::empty()
    } else {
        record_trace(records.drop_last()) + records.last().trace
    }
}

/// Whether each record is of the register that comes next.
pub open spec fn records_shown(
    start: BarState,
    records: Seq<BarRecord>,
    bdf: PciBdf,
    bar_count: int,
) -> bool {
    forall|i: int|
        0 <= i < records.len() ==> {
            let before = bar_state(start, records.take(i), bar_count);
            let record = #[trigger] records[i];
            &&& !before.stopped
            &&& before.index < bar_count
            &&& record.index == before.index
            &&& record_shown(record, bdf, bar_count)
        }
}

impl PciFunctionNode {
    /// What a node knows of its registers before they are looked at.
    pub open spec fn bar_start(self) -> BarState {
        BarState {
            index: 0,
            stopped: false,
            bars: self.bars@,
            saw_io: self.saw_io_bar,
            saw_memory: self.saw_memory_bar,
            io_failed: self.io_failed,
            memory_failed: self.memory_failed,
        }
    }

    /// Whether a node holds what a state says.
    pub open spec fn holds(self, state: BarState) -> bool {
        &&& self.bars@ == state.bars
        &&& self.saw_io_bar == state.saw_io
        &&& self.saw_memory_bar == state.saw_memory
        &&& self.io_failed == state.io_failed
        &&& self.memory_failed == state.memory_failed
    }

    /// Whether nothing but the registers differs.
    pub open spec fn same_function(self, other: PciFunctionNode) -> bool {
        &&& self.bdf == other.bdf
        &&& self.info == other.info
        &&& self.original_command == other.original_command
        &&& self.bridge == other.bridge
    }
}

/// What looking at the registers of a function comes to. A function whose command
/// register is unknown is switched off and not looked at; one that cannot be
/// switched off counts as failed.
pub open spec fn bars_probed(
    before: PciFunctionNode,
    after: PciFunctionNode,
    log: Seq<ConfigExchange>,
    now: Seq<ConfigExchange>,
) -> bool {
    &&& after.same_function(before)
    &&& match before.original_command {
        None => after.holds(before.bar_start()) && exists|ok: bool|
            now == log.push(#[trigger] config_port::command_set(before.bdf, 0, ok)),
        Some(command) => {
            let bdf = before.bdf;
            let start = before.bar_start();
            let count = before.info.bar_count as int;
            let off = (command / 4 * 4) as u16;
            ||| now == log.push(config_port::command_set(bdf, off, false)) && after.holds(
                BarState { io_failed: true, memory_failed: true, ..start },
            )
            ||| exists|records: Seq<BarRecord>| #[trigger]
                records_shown(start, records, bdf, count) && {
                    let end = bar_state(start, records, count);
                    &&& end.stopped || end.index >= count
                    &&& after.holds(end)
                    &&& now == log.push(config_port::command_set(bdf, off, true)) + record_trace(
                        records,
                    )
                }
        },
    }
}

/// Looking at the registers of a function that has none yet finds registers of
/// its own numbers, without a place.
pub proof fn probed_bars_are_fresh(
    before: PciFunctionNode,
    after: PciFunctionNode,
    log: Seq<ConfigExchange>,
    now: Seq<ConfigExchange>,
    i: int,
)
    requires
        bars_probed(before, after, log, now),
        before.bars@.len() == 0,
        0 <= i < after.bars@.len(),
    ensures
        after.bars@[i].index < before.info.bar_count,
        after.bars@[i].allocation is None,
{
    let start = before.bar_start();
    let count = before.info.bar_count as int;
    if before.original_command is Some {
        let bdf = before.bdf;
        let off = (before.original_command->0 / 4 * 4) as u16;
        if exists|records: Seq<BarRecord>| #[trigger]
            records_shown(start, records, bdf, count) && after.holds(
                bar_state(start, records, count),
            ) {
            let records = choose|records: Seq<BarRecord>| #[trigger]
                records_shown(start, records, bdf, count) && after.holds(
                    bar_state(start, records, count),
                );
            lemma_bars_fresh(start, records, bdf, count);
        }
    }
}

#[verifier::spinoff_prover]
#[verifier::rlimit(60)]
proof fn lemma_bars_fresh(start: BarState, records: Seq<BarRecord>, bdf: PciBdf, count: int)
    requires
        records_shown(start, records, bdf, count),
        start.bars.len() == 0,
    ensures
        forall|i: int|
            0 <= i < bar_state(start, records, count).bars.len() ==> (#[trigger] bar_state(
                start,
                records,
                count,
            ).bars[i]).index < count && bar_state(start, records, count).bars[i].allocation is None,
    decreases records.len(),
{
    if records.len() > 0 {
        let front = records.drop_last();
        assert forall|i: int| 0 <= i < front.len() implies {
            let before = bar_state(start, front.take(i), count);
            let record = #[trigger] front[i];
            &&& !before.stopped
            &&& before.index < count
            &&& record.index == before.index
            &&& record_shown(record, bdf, count)
        } by {
            assert(front.take(i) =~= records.take(i));
            assert(front[i] == records[i]);
        }
        lemma_bars_fresh(start, front, bdf, count);
        assert(records.take(records.len() - 1) =~= front);
        assert(records[records.len() - 1].index < count);
        let before = bar_state(start, front, count);
        lemma_step_bars(before, records.last(), count);
        let bars = bar_state(start, records, count).bars;
        assert forall|i: int| 0 <= i < bars.len() implies (#[trigger] bars[i]).index < count
            && bars[i].allocation is None by {
            if i < before.bars.len() {
                assert(bars[i] == before.bars[i]);
            }
        }
    }
}

/// A record adds one register at most, the one that it is of.
proof fn lemma_step_bars(state: BarState, record: BarRecord, count: int)
    ensures
        ({
            let bars = bar_step(state, record, count).bars;
            ||| bars == state.bars
            ||| bars == state.bars.push(bars.last()) && bars.len() == state.bars.len() + 1
                && bars.last().index == record.index && bars.last().allocation is None
        }),
{
    reveal(bar_step);
}

/// Looks at the registers of a function, with its decoding switched off. The
/// registers are gone through one by one; a node keeps those that were found and
/// which kinds failed.
pub fn probe_function_bars<F: FnMut(ConfigAccess) -> ConfigReply>(
    port: &mut ConfigPort<F>,
    function: &mut PciFunctionNode,
)
    requires
        old(port).wf(),
    ensures
        final(port).wf(),
        final(port).performs() == old(port).performs(),
        bars_probed(*old(function), *final(function), old(port).log(), final(port).log()),
{
    let bdf = function.bdf;
    let command: u16 = match function.original_command {
        Some(command) => command,
        None => {
            let ok = port.set_command(bdf, 0);
            assert(function.holds(old(function).bar_start()));
            return ;
        },
    };
    let ghost start = function.bar_start();
    if !port.set_command(bdf, command / 4 * 4) {
        function.io_failed = true;
        function.memory_failed = true;
        return ;
    }
    let ghost opened = port.log();
    let bar_count: u16 = function.info.bar_count as u16;
    let ghost count = bar_count as int;
    let mut index: u16 = 0;
    let mut stopped = false;
    let ghost mut records: Seq<BarRecord> = Seq::empty();
    assert(opened + record_trace(records) =~= opened);
    while !stopped && index < bar_count
        invariant
            port.wf(),
            port.performs() == old(port).performs(),
            bdf == function.bdf,
            bar_count <= 255,
            count == bar_count,
            index <= bar_count + 1,
            function.same_function(*old(function)),
            start == old(function).bar_start(),
            function.info.bar_count == bar_count,
            records_shown(start, records, bdf, count),
            bar_state(start, records, count).index == index,
            bar_state(start, records, count).stopped == stopped,
            function.holds(bar_state(start, records, count)),
            port.log() == opened + record_trace(records),
        decreases (if stopped {
            0int
        } else {
            1 + bar_count + 2 - index
        }),
    {
        let ghost before = bar_state(start, records, count);
        let ghost log_before = port.log();
        let (next, stop, Ghost(record)) = probe_next_bar(
            port,
            function,
            index,
            bar_count,
            Ghost(before),
        );
        index = next;
        stopped = stop;
        proof {
            lemma_push_record(start, records, record, bdf, count);
            records = records.push(record);
            assert(port.log() =~= opened + record_trace(records));
        }
    }
}

proof fn lemma_push_record(
    start: BarState,
    records: Seq<BarRecord>,
    record: BarRecord,
    bdf: PciBdf,
    count: int,
)
    requires
        records_shown(start, records, bdf, count),
        !bar_state(start, records, count).stopped,
        bar_state(start, records, count).index < count,
        record.index == bar_state(start, records, count).index,
        record_shown(record, bdf, count),
    ensures
        records_shown(start, records.push(record), bdf, count),
        bar_state(start, records.push(record), count) == bar_step(
            bar_state(start, records, count),
            record,
            count,
        ),
        record_trace(records.push(record)) == record_trace(records) + record.trace,
{
    let all = records.push(record);
    assert(all.drop_last() =~= records);
    assert forall|i: int| 0 <= i < all.len() implies {
        let prior = bar_state(start, all.take(i), count);
        let shown = #[trigger] all[i];
        &&& !prior.stopped
        &&& prior.index < count
        &&& shown.index == prior.index
        &&& record_shown(shown, bdf, count)
    } by {
        if i < records.len() {
            assert(all.take(i) =~= records.take(i));
            assert(all[i] == records[i]);
        } else {
            assert(all.take(i) =~= records);
        }
    }
}

/// Looks at the register at `index`.
fn probe_next_bar<F: FnMut(ConfigAccess) -> ConfigReply>(
    port: &mut ConfigPort<F>,
    function: &mut PciFunctionNode,
    index: u16,
    bar_count: u16,
    Ghost(before): Ghost<BarState>,
) -> (result: (u16, bool, Ghost<BarRecord>))
    requires
        old(port).wf(),
        index < bar_count <= 255,
        old(function).holds(before),
        before.index == index,
        !before.stopped,
    ensures
        final(port).wf(),
        final(port).performs() == old(port).performs(),
        final(function).same_function(*old(function)),
        ({
            let record = result.2@;
            let after = bar_step(before, record, bar_count as int);
            &&& record.index == index
            &&& record_shown(record, old(function).bdf, bar_count as int)
            &&& final(function).holds(after)
            &&& after.index == result.0
            &&& after.stopped == result.1
            &&& result.0 <= bar_count + 1
            &&& result.1 || result.0 > index
            &&& final(port).log() == old(port).log() + record.trace
        }),
{
    proof {
        reveal(record_shown);
        reveal(bar_step);
    }
    let ghost log_before = port.log();
    let bdf = function.bdf;
    let offset: u16 = PCI_BAR0_OFFSET + index * PCI_BAR_STRIDE;
    let low = port.read32(bdf, offset);
    let ghost read = config_port::cr32(bdf, offset, low);
    let ghost log_read = port.log();
    let original_low: u32 = match low {
        None => {
            function.io_failed = true;
            function.memory_failed = true;
            let ghost record = BarRecord {
                index,
                low,
                outcome: BarProbe::Absent,
                trace: seq![read],
            };
            assert(port.log() =~= log_before + record.trace);
            return (index, true, Ghost(record));
        },
        Some(original_low) => original_low,
    };
    if original_low % 2 == 1 {
        let outcome = probe_io_bar(port, bdf, offset, original_low);
        let ghost rest = choose|trace: Seq<ConfigExchange>|
            port.log() == log_read + trace && #[trigger] probe::io_probe(
                trace,
                bdf,
                offset,
                original_low,
                outcome,
            );
        function.saw_io_bar = true;
        take_io_outcome(function, index, original_low, outcome);
        let ghost record = BarRecord { index, low, outcome, trace: seq![read] + rest };
        assert(record.trace.skip(1) =~= rest);
        assert(port.log() =~= log_before + record.trace);
        return (index + 1, false, Ghost(record));
    }
    function.saw_memory_bar = true;
    let ghost bare = BarRecord { index, low, outcome: BarProbe::Absent, trace: seq![read] };
    assert(bare.trace.skip(1) =~= Seq::empty());
    assert(port.log() =~= log_before + bare.trace);
    let width = match memory_width_of(original_low) {
        None => {
            function.memory_failed = true;
            return (index + 1, false, Ghost(bare));
        },
        Some(width) => width,
    };
    let wide = width == PciBarAddressWidth::Bits64;
    if wide && index + 1 >= bar_count {
        function.memory_failed = true;
        return (index, true, Ghost(bare));
    }
    let outcome = probe_memory_bar(port, bdf, offset, original_low, width);
    let ghost rest = choose|trace: Seq<ConfigExchange>|
        port.log() == log_read + trace && #[trigger] probe::memory_probe(
            trace,
            bdf,
            offset,
            original_low,
            width,
            outcome,
        );
    take_memory_outcome(function, index, original_low, width, outcome);
    let ghost record = BarRecord { index, low, outcome, trace: seq![read] + rest };
    assert(record.trace.skip(1) =~= rest);
    assert(port.log() =~= log_before + record.trace);
    (
        index + (if wide {
            2
        } else {
            1
        }),
        false,
        Ghost(record),
    )
}

fn memory_width_of(low: u32) -> (width: Option<PciBarAddressWidth>)
    ensures
        width == memory_width(low),
{
    let kind: u32 = low / 2 % 4;
    if kind == 1 {
        Some(PciBarAddressWidth::Bits20)
    } else if kind == 2 {
        Some(PciBarAddressWidth::Bits64)
    } else if kind == 3 {
        None
    } else {
        Some(PciBarAddressWidth::Bits32)
    }
}

fn take_io_outcome(
    function: &mut PciFunctionNode,
    index: u16,
    original_low: u32,
    outcome: BarProbe,
)
    ensures
        final(function).same_function(*old(function)),
        final(function).saw_io_bar == old(function).saw_io_bar,
        final(function).saw_memory_bar == old(function).saw_memory_bar,
        final(function).memory_failed == old(function).memory_failed,
        match outcome {
            BarProbe::Absent => final(function).bars@ == old(function).bars@ && final(function).io_failed == old(function).io_failed,
            BarProbe::Found { size, address, high } if align::power_of_two(size as int) => final(function).io_failed == old(function).io_failed && final(function).bars@ == old(function).bars@.push(
                PciBarResource {
                    index,
                    kind: PciBarKind::Io,
                    width: PciBarAddressWidth::Bits32,
                    size,
                    original_low,
                    original_high: None,
                    original_address: address,
                    allocation: None,
                },
            ),
            _ => final(function).bars@ == old(function).bars@ && final(function).io_failed,
        },
{
    match outcome {
        BarProbe::Absent => {},
        BarProbe::Failed => {
            function.io_failed = true;
        },
        BarProbe::Found { size, address, high: _ } => {
            if is_power_of_two(size) {
                function.bars.push(
                    PciBarResource {
                        index,
                        kind: PciBarKind::Io,
                        width: PciBarAddressWidth::Bits32,
                        size,
                        original_low,
                        original_high: None,
                        original_address: address,
                        allocation: None,
                    },
                );
            } else {
                function.io_failed = true;
            }
        },
    }
}

fn take_memory_outcome(
    function: &mut PciFunctionNode,
    index: u16,
    original_low: u32,
    width: PciBarAddressWidth,
    outcome: BarProbe,
)
    ensures
        final(function).same_function(*old(function)),
        final(function).saw_io_bar == old(function).saw_io_bar,
        final(function).saw_memory_bar == old(function).saw_memory_bar,
        final(function).io_failed == old(function).io_failed,
        match outcome {
            BarProbe::Absent => final(function).bars@ == old(function).bars@ && final(function).memory_failed == old(function).memory_failed,
            BarProbe::Found { size, address, high } if align::power_of_two(size as int) => final(function).memory_failed == old(function).memory_failed && final(function).bars@ == old(function).bars@.push(
                PciBarResource {
                    index,
                    kind: PciBarKind::Memory { prefetchable: original_low / 8 % 2 == 1 },
                    width,
                    size,
                    original_low,
                    original_high: high,
                    original_address: address,
                    allocation: None,
                },
            ),
            _ => final(function).bars@ == old(function).bars@ && final(function).memory_failed,
        },
{
    match outcome {
        BarProbe::Absent => {},
        BarProbe::Failed => {
            function.memory_failed = true;
        },
        BarProbe::Found { size, address, high } => {
            if is_power_of_two(size) {
                function.bars.push(
                    PciBarResource {
                        index,
                        kind: PciBarKind::Memory { prefetchable: original_low / 8 % 2 == 1 },
                        width,
                        size,
                        original_low,
                        original_high: high,
                        original_address: address,
                        allocation: None,
                    },
                );
            } else {
                function.memory_failed = true;
            }
        },
    }
}

} // verus!
