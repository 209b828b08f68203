//! Setting up everything behind a host bridge.

use vstd::prelude::*;
use crate::pci::bar;
use crate::pci::bar::{PciBarRuntimeWindow, PciBarWindowAllocator, WindowModel};
use crate::pci::config_port::{ConfigAccess, ConfigExchange, ConfigPort, ConfigReply};
use crate::pci::finalize;
use crate::pci::finalize::finalize_pci_bus;
use crate::pci::resources;
use crate::pci::resources::{PlaceState, assign_missing_bars, reserve_firmware_bars};
use crate::pci::scan;
use crate::pci::scan::{PciBusNode, PciFunctionNode, probe_function_bars};
use crate::pci::topology::{PciBusNumberAllocator, PciResourceEnvelope};
use crate::pci::tree;
use crate::pci::tree::scan_pci_bus;

verus! {

/// Whether two bridges, or their absence, differ in nothing but what is behind
/// them.
pub open spec fn same_bridge(before: PciFunctionNode, after: PciFunctionNode) -> bool {
    &&& (after.bridge is Some) == (before.bridge is Some)
    &&& after.bridge matches Some(bridge) ==> bridge.io_32bit == before.bridge->0.io_32bit
        && bridge.prefetch_64bit == before.bridge->0.prefetch_64bit
}

/// What looking at the registers of a function and of everything behind it comes
/// to.
pub open spec fn function_prepared(
    before: PciFunctionNode,
    after: PciFunctionNode,
    log: Seq<ConfigExchange>,
    now: Seq<ConfigExchange>,
) -> bool
    decreases before, 0int,
{
    &&& same_bridge(before, after)
    &&& exists|own: PciFunctionNode, middle: Seq<ConfigExchange>| #[trigger]
        scan::bars_probed(before, own, log, middle) && after == (PciFunctionNode {
            bridge: after.bridge,
            ..own
        }) && match before.bridge {
            None => now == middle,
            Some(bridge) => tree_prepared(
                *bridge.downstream,
                *after.bridge->0.downstream,
                middle,
                now,
            ),
        }
}

/// What looking at the registers of a tree comes to, function by function.
pub open spec fn tree_prepared(
    before: PciBusNode,
    after: PciBusNode,
    log: Seq<ConfigExchange>,
    now: Seq<ConfigExchange>,
) -> bool
    decreases before, 1int,
{
    &&& after.bus == before.bus
    &&& after.functions@.len() == before.functions@.len()
    &&& exists|logs: Seq<Seq<ConfigExchange>>| #[trigger]
        resources::leads(logs, before.functions@.len() as int, log, now) && forall|i: int|
            0 <= i < before.functions@.len() ==> function_prepared(
                #[trigger] before.functions@[i],
                after.functions@[i],
                logs[i],
                logs[i + 1],
            )
}

/// Looks at the registers of a function and of everything behind it.
fn prepare_function<F: FnMut(ConfigAccess) -> ConfigReply>(
    port: &mut ConfigPort<F>,
    function: &mut PciFunctionNode,
)
    requires
        old(port).wf(),
        old(function).bars@.len() == 0,
        old(function).bridge matches Some(bridge) ==> tree::tree_fresh(*bridge.downstream),
    ensures
        final(port).wf(),
        final(port).performs() == old(port).performs(),
        function_prepared(*old(function), *final(function), old(port).log(), final(port).log()),
        resources::indices_ok(*final(function)),
        forall|windows: Seq<WindowModel>| #[trigger]
            resources::function_placed(*final(function), windows),
    decreases *old(function),
{
    let ghost start = *function;
    let ghost log = port.log();
    probe_function_bars(port, function);
    let ghost own = *function;
    let ghost middle = port.log();
    proof {
        assert forall|i: int| 0 <= i < own.bars@.len() implies (#[trigger] own.bars@[i]).index
            < 256 && own.bars@[i].allocation is None by {
            scan::probed_bars_are_fresh(start, own, log, middle, i);
        }
    }
    if let Some(bridge) = &mut function.bridge {
        assert(decreases_to!(start => start.bridge->0));
        prepare_bar_requirements(port, &mut bridge.downstream);
    }
    proof {
        assert(scan::bars_probed(start, own, log, middle));
        assert(function_prepared(start, *function, log, port.log()));
        assert forall|windows: Seq<WindowModel>| #[trigger]
            resources::function_placed(*function, windows) by {
            if function.bridge is Some {
                assert(resources::tree_placed(*function.bridge->0.downstream, windows));
            }
        }
    }
}

/// Looks at the registers of every function of a tree, depth first.
pub fn prepare_bar_requirements<F: FnMut(ConfigAccess) -> ConfigReply>(
    port: &mut ConfigPort<F>,
    node: &mut PciBusNode,
)
    requires
        old(port).wf(),
        tree::tree_fresh(*old(node)),
    ensures
        final(port).wf(),
        final(port).performs() == old(port).performs(),
        tree_prepared(*old(node), *final(node), old(port).log(), final(port).log()),
        resources::tree_indices_ok(*final(node)),
        forall|windows: Seq<WindowModel>| #[trigger] resources::tree_placed(*final(node), windows),
    decreases *old(node),
{
    let ghost start = *node;
    let ghost log = port.log();
    let ghost mut logs: Seq<Seq<ConfigExchange>> = seq![log];
    let mut i: usize = 0;
    while i < node.functions.len()
        invariant
            i <= node.functions@.len(),
            port.wf(),
            port.performs() == old(port).performs(),
            start == *old(node),
            tree::tree_fresh(start),
            node.bus == start.bus,
            node.functions@.len() == start.functions@.len(),
            resources::leads(logs, i as int, log, port.log()),
            forall|k: int|
                0 <= k < i ==> function_prepared(
                    #[trigger] start.functions@[k],
                    node.functions@[k],
                    logs[k],
                    logs[k + 1],
                ),
            forall|k: int|
                i <= k < start.functions@.len() ==> #[trigger] node.functions@[k]
                    == start.functions@[k],
            forall|k: int| 0 <= k < i ==> resources::indices_ok(#[trigger] node.functions@[k]),
            forall|k: int, windows: Seq<WindowModel>|
                0 <= k < i ==> #[trigger] resources::function_placed(node.functions@[k], windows),
        decreases node.functions@.len() - i,
    {
        let ghost before = node.functions@;
        assert(decreases_to!(start => start.functions@[i as int]));
        assert(node.functions@[i as int] == start.functions@[i as int]);
        prepare_function(port, &mut node.functions[i]);
        proof {
            let earlier = logs;
            logs = logs.push(port.log());
            assert forall|k: int| 0 <= k < i + 1 implies function_prepared(
                #[trigger] start.functions@[k],
                node.functions@[k],
                logs[k],
                logs[k + 1],
            ) by {
                if k < i {
                    assert(node.functions@[k] == before[k]);
                    assert(logs[k] == earlier[k] && logs[k + 1] == earlier[k + 1]);
                }
            }
        }
        i += 1;
    }
    proof {
        assert(tree_prepared(start, *node, log, port.log()));
        assert forall|windows: Seq<WindowModel>| #[trigger] resources::tree_placed(
            *node,
            windows,
        ) by {
            assert forall|k: int| 0 <= k < node.functions@.len() implies resources::function_placed(
                #[trigger] node.functions@[k],
                windows,
            ) by {}
        }
    }
}

/// The stages of setting up everything behind a host bridge.
pub ghost struct Stages {
    pub scanned: PciBusNode,
    pub prepared: PciBusNode,
    pub reserved: PciBusNode,
    pub windows: Seq<WindowModel>,
    pub reserved_windows: Seq<WindowModel>,
    pub placed_windows: Seq<WindowModel>,
    pub scan: Seq<ConfigExchange>,
    pub next_bus: int,
    pub prepared_log: Seq<ConfigExchange>,
    pub placed_log: Seq<ConfigExchange>,
    pub total: PciResourceEnvelope,
}

/// Whether the stages lead from one log to the other and to the tree `root`:
/// the buses are scanned, the registers looked at, the addresses of firmware
/// kept, the other registers placed, and bridges and decoding switched on.
pub open spec fn stages_fit(
    stages: Stages,
    domain: u16,
    bus_start: u8,
    bus_end: u8,
    windows: Seq<PciBarRuntimeWindow>,
    log: Seq<ConfigExchange>,
    root: PciBusNode,
    now: Seq<ConfigExchange>,
) -> bool {
    &&& tree::bus_scanned(
        stages.scan,
        domain,
        bus_start,
        bus_end,
        bus_start + 1,
        stages.scanned,
        stages.next_bus,
    )
    &&& stages.windows == bar::fresh_windows(windows)
    &&& tree_prepared(stages.scanned, stages.prepared, log + stages.scan, stages.prepared_log)
    &&& resources::tree_reserved(
        stages.prepared,
        stages.reserved,
        stages.windows,
        stages.reserved_windows,
    )
    &&& resources::tree_assigned(
        stages.reserved,
        root,
        (PlaceState { windows: stages.reserved_windows, log: stages.prepared_log }),
        (PlaceState { windows: stages.placed_windows, log: stages.placed_log }),
    )
    &&& resources::tree_placed(root, stages.placed_windows)
    &&& finalize::tree_finalized(root, stages.placed_log, stages.total, now)
}

/// Sets up everything behind a host bridge.
pub fn configure_pci_hierarchy<F: FnMut(ConfigAccess) -> ConfigReply>(
    port: &mut ConfigPort<F>,
    domain: u16,
    bus_start: u8,
    bus_end: u8,
    windows: &Vec<PciBarRuntimeWindow>,
) -> (root: PciBusNode)
    requires
        old(port).wf(),
        bus_start <= bus_end,
        forall|i: int| 0 <= i < windows@.len() ==> (#[trigger] windows@[i]).wf(),
    ensures
        final(port).wf(),
        final(port).performs() == old(port).performs(),
        root.bus == bus_start,
        exists|stages: Stages| #[trigger]
            stages_fit(
                stages,
                domain,
                bus_start,
                bus_end,
                windows@,
                old(port).log(),
                root,
                final(port).log(),
            ),
{
    let ghost log = port.log();
    let mut buses = PciBusNumberAllocator::new(bus_start, bus_end);
    let mut root = scan_pci_bus(port, domain, bus_start, bus_end, &mut buses);
    let ghost scanned = root;
    let ghost next_bus = buses.next_bus();
    let ghost scan = choose|trace: Seq<ConfigExchange>|
        port.log() == log + trace && #[trigger] tree::bus_scanned(
            trace,
            domain,
            bus_start,
            bus_end,
            bus_start + 1,
            scanned,
            next_bus,
        );
    let mut allocator = PciBarWindowAllocator::new(windows.as_slice());
    let ghost fresh = allocator@;
    prepare_bar_requirements(port, &mut root);
    let ghost prepared = root;
    let ghost prepared_log = port.log();
    assert(resources::tree_placed(root, fresh));
    reserve_firmware_bars(&mut root, &mut allocator);
    let ghost reserved = root;
    let ghost reserved_windows = allocator@;
    proof {
        resources::same_tree_keeps_indices(reserved, prepared);
    }
    assign_missing_bars(port, &mut root, &mut allocator);
    let ghost placed_windows = allocator@;
    let ghost placed_log = port.log();
    let total = finalize_pci_bus(port, &root);
    proof {
        let stages = Stages {
            scanned,
            prepared,
            reserved,
            windows: fresh,
            reserved_windows,
            placed_windows,
            scan,
            next_bus,
            prepared_log,
            placed_log,
            total,
        };
        assert(stages_fit(
            stages,
            domain,
            bus_start,
            bus_end,
            windows@,
            log,
            root,
            port.log(),
        ));
    }
    root
}

} // verus!
