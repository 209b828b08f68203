//! The tables of all hosts, and setting up and taking down one host.

use vstd::prelude::*;
use crate::pci::bar::{PciBarKind, PciBarRuntimeWindow};
use crate::pci::config_port::PciBdf;
use crate::pci::host;
use crate::pci::host::{
    DtbPciConfigSpace, DtbPciRangeInfo, PciEcamRegion, host_windows, install_ecam,
    resolve_bar_mapping,
};
use crate::pci::host_table::{PciHostBusRange, PciHostTable};
use crate::pci::ls2k_config;
use crate::pci::ls2k_config::{Ls2kRootIrqRoute, Ls2kRootIrqTable};
use crate::pci::routing;
use crate::pci::routing::{
    Allocator, Attempt, PciIntxBridgeRoute, PciIntxRouteKey, PciIntxRouting, PciMsiMapRoute,
    PciMsiParentRoute, PciMsiRoutingMode, PciMsiTarget, allocate_traced,
};
use crate::pci::scan::{PciBusNode, PciFunctionNode};
use crate::platform::{PnpError, PnpResourceKind};

verus! {

/// The first cell of a child address: bus, device and function.
pub open spec fn child_address(bus: u8, device: u8, function: u8) -> u32 {
    ((bus as u32) << 16) | ((device as u32) << 11) | ((function as u32) << 8)
}

/// The key by which firmware routes an interrupt pin: an address whose first
/// cell names the function, and an interrupt whose first cell is the pin. All
/// other cells are zero.
pub open spec fn interrupt_key(
    bus: u8,
    device: u8,
    function: u8,
    pin: u8,
    address_cells: int,
    interrupt_cells: int,
) -> Seq<u32> {
    Seq::new(
        (address_cells + interrupt_cells) as nat,
        |i: int|
            if i == 0 {
                child_address(bus, device, function)
            } else if i == address_cells {
                pin as u32
            } else {
                0
            },
    )
}

/// The key by which firmware routes an interrupt pin.
pub fn pci_child_interrupt_key(
    bus: u8,
    device: u8,
    function: u8,
    interrupt_pin: u8,
    address_cells: usize,
    interrupt_cells: usize,
) -> (result: Option<Vec<u32>>)
    ensures
        result is Some <==> address_cells > 0 && interrupt_cells > 0 && address_cells
            + interrupt_cells <= usize::MAX,
        result matches Some(key) ==> key@ == interrupt_key(
            bus,
            device,
            function,
            interrupt_pin,
            address_cells as int,
            interrupt_cells as int,
        ),
{
    let total: usize = match address_cells.checked_add(interrupt_cells) {
        Some(total) => total,
        None => {
            return None;
        },
    };
    if address_cells == 0 || interrupt_cells == 0 {
        return None;
    }
    let first: u32 = ((bus as u32) << 16) | ((device as u32) << 11) | ((function as u32) << 8);
    let mut cells: Vec<u32> = Vec::new();
    let mut i: usize = 0;
    while i < total
        invariant
            i <= total,
            cells@.len() == i,
            total == address_cells + interrupt_cells,
            first == child_address(bus, device, function),
            forall|k: int|
                0 <= k < i ==> #[trigger] cells@[k] == interrupt_key(
                    bus,
                    device,
                    function,
                    interrupt_pin,
                    address_cells as int,
                    interrupt_cells as int,
                )[k],
        decreases total - i,
    {
        let cell: u32 = if i == 0 {
            first
        } else if i == address_cells {
            interrupt_pin as u32
        } else {
            0
        };
        cells.push(cell);
        i += 1;
    }
    assert(cells@ =~= interrupt_key(
        bus,
        device,
        function,
        interrupt_pin,
        address_cells as int,
        interrupt_cells as int,
    ));
    Some(cells)
}

/// The requester number of a function: its bus, its device and its number, one behind
/// the other.
pub open spec fn requester_of(bus: u8, device: u8, function: u8) -> u32 {
    ((bus as u32) << 8) | ((device as u32) << 3) | function as u32
}

pub fn pci_requester_id(bus: u8, device: u8, function: u8) -> (requester: u32)
    ensures
        requester == requester_of(bus, device, function),
{
    ((bus as u32) << 8) | ((device as u32) << 3) | function as u32
}

/// The parts of an address of a function that can exist do not run into each other:
/// its requester number and the first cell of its address are the sums of them.
pub proof fn addresses_are_sums(bus: u8, device: u8, function: u8)
    requires
        device < 32,
        function < 8,
    ensures
        requester_of(bus, device, function) == bus * 0x100 + device * 8 + function,
        child_address(bus, device, function) == bus * 0x1_0000 + device * 0x800 + function * 0x100,
{
    assert(((bus as u32) << 8) | ((device as u32) << 3) | function as u32 == bus * 0x100 + device * 8
        + function) by (bit_vector)
        requires
            device < 32,
            function < 8,
    ;
    assert(((bus as u32) << 16) | ((device as u32) << 11) | ((function as u32) << 8) == bus
        * 0x1_0000 + device * 0x800 + function * 0x100) by (bit_vector)
        requires
            device < 32,
            function < 8,
    ;
}

/// Different functions have different requester numbers.
pub proof fn requester_ids_are_distinct(
    bus: u8,
    device: u8,
    function: u8,
    other_bus: u8,
    other_device: u8,
    other_function: u8,
)
    requires
        device < 32 && function < 8 && other_device < 32 && other_function < 8,
        requester_of(bus, device, function) == requester_of(
            other_bus,
            other_device,
            other_function,
        ),
    ensures
        bus == other_bus && device == other_device && function == other_function,
{
    addresses_are_sums(bus, device, function);
    addresses_are_sums(other_bus, other_device, other_function);
}

/// An entry of a message interrupt map.
pub struct DtbMsiMapEntry {
    pub requester_base: u32,
    pub controller: u32,
    pub msi_specifier: Vec<u32>,
    pub length: u32,
}

/// A controller that firmware names for all message interrupts.
pub struct DtbMsiParent {
    pub controller: u32,
    pub msi_specifier: Vec<u32>,
}

/// Whether an entry can be used.
pub open spec fn map_entry_valid(entry: DtbMsiMapEntry) -> bool {
    entry.msi_specifier@.len() <= 1 && entry.length != 0
}

/// The route of a map entry.
pub open spec fn map_route(entry: DtbMsiMapEntry) -> PciMsiMapRoute {
    PciMsiMapRoute {
        requester_base: entry.requester_base,
        controller: entry.controller,
        output_base: if entry.msi_specifier@.len() == 0 {
            None
        } else {
            Some(entry.msi_specifier@[0])
        },
        length: entry.length,
    }
}

/// The routing of message interrupts: by the map where there is one, else by
/// the parents. An entry that cannot be used makes the whole routing unusable,
/// and so does an empty list.
pub fn msi_routing(
    map_present: bool,
    map_mask: u32,
    map: &Vec<DtbMsiMapEntry>,
    parents: &Vec<DtbMsiParent>,
) -> (result: Option<PciMsiRoutingMode>)
    ensures
        map_present ==> match result {
            Some(mode) => {
                &&& map@.len() > 0
                &&& forall|i: int| 0 <= i < map@.len() ==> map_entry_valid(#[trigger] map@[i])
                &&& mode matches PciMsiRoutingMode::MsiMap { mask, routes } && mask == map_mask
                    && routes@ == map@.map_values(|entry: DtbMsiMapEntry| map_route(entry))
            },
            None => map@.len() == 0 || exists|i: int|
                0 <= i < map@.len() && !map_entry_valid(#[trigger] map@[i]),
        },
        !map_present ==> match result {
            Some(mode) => {
                &&& parents@.len() > 0
                &&& forall|i: int|
                    0 <= i < parents@.len() ==> (#[trigger] parents@[i]).msi_specifier@.len() == 0
                &&& mode matches PciMsiRoutingMode::Parents(routes) && routes@ == parents@.map_values(
                    |parent: DtbMsiParent| PciMsiParentRoute { controller: parent.controller },
                )
            },
            None => parents@.len() == 0 || exists|i: int|
                0 <= i < parents@.len() && (#[trigger] parents@[i]).msi_specifier@.len() != 0,
        },
{
    if map_present {
        let mut routes: Vec<PciMsiMapRoute> = Vec::new();
        let mut i: usize = 0;
        while i < map.len()
            invariant
                i <= map@.len(),
                map_present,
                routes@.len() == i,
                forall|k: int|
                    0 <= k < i ==> #[trigger] routes@[k] == map_route(map@[k]) && map_entry_valid(
                        map@[k],
                    ),
            decreases map@.len() - i,
        {
            match PciMsiMapRoute::new(
                map[i].requester_base,
                map[i].controller,
                map[i].msi_specifier.as_slice(),
                map[i].length,
            ) {
                Some(route) => {
                    routes.push(route);
                },
                None => {
                    assert(!map_entry_valid(map@[i as int]));
                    return None;
                },
            }
            i += 1;
        }
        if routes.len() == 0 {
            return None;
        }
        proof {
            assert(routes@ =~= map@.map_values(|entry: DtbMsiMapEntry| map_route(entry)));
            assert forall|k: int| 0 <= k < map@.len() implies map_entry_valid(
                #[trigger] map@[k],
            ) by {
                assert(routes@[k] == map_route(map@[k]));
            }
        }
        return Some(PciMsiRoutingMode::MsiMap { mask: map_mask, routes });
    }
    let mut routes: Vec<PciMsiParentRoute> = Vec::new();
    let mut i: usize = 0;
    while i < parents.len()
        invariant
            i <= parents@.len(),
            !map_present,
            routes@.len() == i,
            forall|k: int|
                0 <= k < i ==> #[trigger] routes@[k] == (PciMsiParentRoute {
                    controller: parents@[k].controller,
                }) && parents@[k].msi_specifier@.len() == 0,
        decreases parents@.len() - i,
    {
        match PciMsiParentRoute::new(parents[i].controller, parents[i].msi_specifier.as_slice()) {
            Some(route) => {
                routes.push(route);
            },
            None => {
                assert(parents@[i as int].msi_specifier@.len() != 0);
                return None;
            },
        }
        i += 1;
    }
    if routes.len() == 0 {
        return None;
    }
    proof {
        assert(routes@ =~= parents@.map_values(
            |parent: DtbMsiParent| PciMsiParentRoute { controller: parent.controller },
        ));
        assert forall|k: int| 0 <= k < parents@.len() implies (
        #[trigger] parents@[k]).msi_specifier@.len() == 0 by {
            assert(routes@[k].controller == parents@[k].controller);
        }
    }
    Some(PciMsiRoutingMode::Parents(routes))
}

/// An interrupt that firmware gives a function on the root bus.
pub struct DtbChildInterrupt {
    pub bus: u8,
    pub device: u8,
    pub function: u8,
    /// Parent and cells of each interrupt of the function.
    pub interrupts: Vec<(Option<u32>, Vec<u32>)>,
}

/// The route of a child: it must have one interrupt, with a parent and one cell.
pub open spec fn child_route(child: DtbChildInterrupt) -> Option<Ls2kRootIrqRoute> {
    if child.interrupts@.len() != 1 || child.interrupts@[0].0 is None
        || child.interrupts@[0].1@.len() != 1 {
        None
    } else {
        Some(
            Ls2kRootIrqRoute {
                device: child.device,
                function: child.function,
                parent: child.interrupts@[0].0->0,
                specifier: child.interrupts@[0].1@[0],
            },
        )
    }
}

/// The routes of the children on the root bus; `None` if one has none.
pub open spec fn child_routes(children: Seq<DtbChildInterrupt>, root_bus: u8) -> Option<
    Seq<Ls2kRootIrqRoute>,
>
    decreases children.len(),
{
    if children.len() == 0 {
        Some(Seq::empty())
    } else {
        let front = child_routes(children.drop_last(), root_bus);
        let child = children.last();
        if front is None || child.bus != root_bus {
            front
        } else {
            match child_route(child) {
                Some(route) => Some(front->0.push(route)),
                None => None,
            }
        }
    }
}

proof fn lemma_child_routes_none(children: Seq<DtbChildInterrupt>, root_bus: u8, count: int)
    requires
        0 <= count <= children.len(),
        child_routes(children.take(count), root_bus) is None,
    ensures
        child_routes(children, root_bus) is None,
    decreases children.len() - count,
{
    if count == children.len() {
        assert(children.take(count) =~= children);
    } else {
        assert(children.take(count + 1).drop_last() =~= children.take(count));
        lemma_child_routes_none(children, root_bus, count + 1);
    }
}

/// The interrupt table of the root ports.
pub fn ls2k_irq_table(children: &Vec<DtbChildInterrupt>, root_bus: u8) -> (result: Option<
    Ls2kRootIrqTable,
>)
    ensures
        match result {
            Some(table) => child_routes(children@, root_bus) matches Some(routes) && routes.len() > 0
                && ls2k_config::route_error(routes, 0) is None && table.root() == root_bus
                && table.holds(routes),
            None => match child_routes(children@, root_bus) {
                Some(routes) => routes.len() == 0 || ls2k_config::route_error(routes, 0) is Some,
                None => true,
            },
        },
{
    let mut routes: Vec<Ls2kRootIrqRoute> = Vec::new();
    let mut i: usize = 0;
    assert(children@.take(0) =~= Seq::empty());
    while i < children.len()
        invariant
            i <= children@.len(),
            child_routes(children@.take(i as int), root_bus) == Some(routes@),
        decreases children@.len() - i,
    {
        let child = &children[i];
        assert(children@.take(i + 1).drop_last() =~= children@.take(i as int));
        if child.bus == root_bus {
            if child.interrupts.len() != 1 {
                proof {
                    lemma_child_routes_none(children@, root_bus, i + 1);
                }
                return None;
            }
            let interrupt = &child.interrupts[0];
            let parent: u32 = match interrupt.0 {
                Some(parent) => parent,
                None => {
                    proof {
                        lemma_child_routes_none(children@, root_bus, i + 1);
                    }
                    return None;
                },
            };
            if interrupt.1.len() != 1 {
                proof {
                    lemma_child_routes_none(children@, root_bus, i + 1);
                }
                return None;
            }
            routes.push(
                Ls2kRootIrqRoute::new(child.device, child.function, parent, interrupt.1[0]),
            );
        }
        i += 1;
    }
    assert(children@.take(i as int) =~= children@);
    match Ls2kRootIrqTable::new(root_bus, routes.as_slice()) {
        Ok(table) => Some(table),
        Err(_) => None,
    }
}

/// Whether the interrupt map of a host is well formed: mask, pass-through mask
/// and every row have the number of cells that the host says.
pub fn irq_map_valid(
    address_cells: usize,
    interrupt_cells: usize,
    mask_len: Option<usize>,
    pass_thru_len: Option<usize>,
    rows: &Vec<(usize, usize)>,
) -> (valid: bool)
    ensures
        valid == {
            let expected = address_cells + interrupt_cells;
            &&& 0 < expected <= usize::MAX
            &&& mask_len == Some(expected as usize)
            &&& pass_thru_len is None || pass_thru_len == Some(expected as usize)
            &&& rows@.len() > 0
            &&& forall|i: int|
                0 <= i < rows@.len() ==> #[trigger] rows@[i] == (address_cells, interrupt_cells)
        },
{
    let expected: usize = match address_cells.checked_add(interrupt_cells) {
        Some(expected) => expected,
        None => {
            return false;
        },
    };
    if expected == 0 {
        return false;
    }
    match mask_len {
        Some(len) => {
            if len != expected {
                return false;
            }
        },
        None => {
            return false;
        },
    }
    if let Some(len) = pass_thru_len {
        if len != expected {
            return false;
        }
    }
    if rows.len() == 0 {
        return false;
    }
    let mut i: usize = 0;
    while i < rows.len()
        invariant
            i <= rows@.len(),
            forall|k: int|
                0 <= k < i ==> #[trigger] rows@[k] == (address_cells, interrupt_cells),
        decreases rows@.len() - i,
    {
        let row = rows[i];
        if row.0 != address_cells || row.1 != interrupt_cells {
            assert(rows@[i as int] != (address_cells, interrupt_cells));
            return false;
        }
        i += 1;
    }
    true
}

/// How interrupt pins of the root bus are routed on.
pub enum PciIrqRoutingBackend {
    /// By the interrupt map of firmware, with its numbers of cells.
    Dtb { address_cells: usize, interrupt_cells: usize },
    /// By the table of root ports.
    Ls2k1000(Ls2kRootIrqTable),
}

/// How the interrupt pins of a host are routed: through its bridges to the root
/// bus, and on from there.
pub struct PciIrqRouting {
    pub backend: PciIrqRoutingBackend,
    pub intx: PciIntxRouting,
}

impl PciIrqRouting {
    pub open spec fn wf(&self) -> bool {
        &&& self.intx.wf()
        &&& forall|i: int|
            0 <= i < self.intx.routes().len() ==> (#[trigger] self.intx.routes()[i]).wf()
    }
}

/// What an interrupt pin leads to.
pub enum PciIrqQuery {
    /// Firmware is asked with a key of so many address cells.
    Firmware { key: Vec<u32>, address_cells: usize },
    /// A parent and its cell.
    Direct { parent: u32, specifier: u32 },
}

/// What an interrupt pin leads to.
pub ghost enum IrqQuery {
    Firmware { key: Seq<u32>, address_cells: usize },
    Direct { parent: u32, specifier: u32 },
}

impl View for PciIrqQuery {
    type V = IrqQuery;

    open spec fn view(&self) -> IrqQuery {
        match *self {
            PciIrqQuery::Firmware { key, address_cells } => IrqQuery::Firmware {
                key: key@,
                address_cells,
            },
            PciIrqQuery::Direct { parent, specifier } => IrqQuery::Direct { parent, specifier },
        }
    }
}

/// Where the backend leads a pin of the root bus.
pub open spec fn backend_query(backend: PciIrqRoutingBackend, key: PciIntxRouteKey) -> Option<
    IrqQuery,
> {
    match backend {
        PciIrqRoutingBackend::Dtb { address_cells, interrupt_cells } => if address_cells == 0
            || interrupt_cells == 0 || address_cells + interrupt_cells > usize::MAX {
            None
        } else {
            Some(
                IrqQuery::Firmware {
                    key: interrupt_key(
                        key.bus,
                        key.device,
                        key.function,
                        key.pin,
                        address_cells as int,
                        interrupt_cells as int,
                    ),
                    address_cells,
                },
            )
        },
        PciIrqRoutingBackend::Ls2k1000(table) => if key.bus != table.root() || key.device < 9
            || key.device > 14 {
            None
        } else {
            match table.slots()[key.device - 9] {
                Some(route) => if route.function == key.function {
                    Some(IrqQuery::Direct { parent: route.parent, specifier: route.specifier })
                } else {
                    None
                },
                None => None,
            }
        },
    }
}

/// Where a function's pin leads: through the bridges to the root bus, and from
/// there by the backend.
pub open spec fn pin_query(
    routing: PciIrqRouting,
    bus: u8,
    device: u8,
    function: u8,
    interrupt_pin: Option<u8>,
) -> Option<IrqQuery> {
    match interrupt_pin {
        None => None,
        Some(pin) => match routing.intx.route(bus, device, function, pin) {
            None => None,
            Some(key) => backend_query(routing.backend, key),
        },
    }
}

/// Where a function's pin leads.
pub fn resolve_pin(
    routing: &PciIrqRouting,
    bus: u8,
    device: u8,
    function: u8,
    interrupt_pin: Option<u8>,
) -> (result: Option<PciIrqQuery>)
    requires
        routing.wf(),
    ensures
        (match result {
            Some(query) => Some(query@),
            None => None,
        }) == pin_query(*routing, bus, device, function, interrupt_pin),
{
    let pin: u8 = match interrupt_pin {
        Some(pin) => pin,
        None => {
            return None;
        },
    };
    let key = match routing.intx.resolve(bus, device, function, pin) {
        Some(key) => key,
        None => {
            return None;
        },
    };
    proof {
        if bus != routing.intx.root() {
            let i = choose|i: int|
                0 <= i < routing.intx.routes().len() && (
                #[trigger] routing.intx.routes()[i]).downstream_bus == bus;
            assert(routing.intx.routes()[i].wf());
        }
    }
    match &routing.backend {
        PciIrqRoutingBackend::Dtb { address_cells, interrupt_cells } => {
            match pci_child_interrupt_key(
                key.bus,
                key.device,
                key.function,
                key.pin,
                *address_cells,
                *interrupt_cells,
            ) {
                Some(cells) => Some(
                    PciIrqQuery::Firmware { key: cells, address_cells: *address_cells },
                ),
                None => None,
            }
        },
        PciIrqRoutingBackend::Ls2k1000(table) => match table.resolve(
            key.bus,
            key.device,
            key.function,
        ) {
            Some((parent, specifier)) => Some(PciIrqQuery::Direct { parent, specifier }),
            None => None,
        },
    }
}

/// Where the pins of a bus come out on the root bus.
#[derive(Clone, Copy, PartialEq, Eq, Structural, Debug)]
pub struct PciIntxUpstream {
    pub root_device: u8,
    pub root_function: u8,
    pub swizzle_offset: u8,
}

/// Where the pins behind a bridge come out: at the bridge itself on the root
/// bus, further down by the sum of the device numbers on the way.
pub open spec fn behind(upstream: Option<PciIntxUpstream>, device: u8, function: u8) -> PciIntxUpstream {
    match upstream {
        None => PciIntxUpstream { root_device: device, root_function: function, swizzle_offset: 0 },
        Some(up) => PciIntxUpstream {
            swizzle_offset: ((up.swizzle_offset + device) % 4) as u8,
            ..up
        },
    }
}

/// The routes of the bridges of some functions and of everything behind them.
pub open spec fn routes_of(
    functions: Seq<PciFunctionNode>,
    upstream: Option<PciIntxUpstream>,
) -> Seq<PciIntxBridgeRoute>
    decreases functions,
{
    if functions.len() == 0 {
        Seq::empty()
    } else {
        let front = routes_of(functions.drop_last(), upstream);
        let function = functions[functions.len() - 1];
        match function.bridge {
            None => front,
            Some(bridge) => {
                let next = behind(upstream, function.bdf.device, function.bdf.function);
                front.push(
                    PciIntxBridgeRoute {
                        downstream_bus: bridge.downstream.bus,
                        root_device: next.root_device,
                        root_function: next.root_function,
                        swizzle_offset: next.swizzle_offset,
                    },
                ) + routes_of(bridge.downstream.functions@, Some(next))
            },
        }
    }
}

/// Lists the routes of the bridges of a bus, depth first. `None` if a function
/// is not on the bus that it is listed under.
pub fn collect_intx_bridge_routes(
    node: &PciBusNode,
    upstream: Option<PciIntxUpstream>,
    routes: &mut Vec<PciIntxBridgeRoute>,
) -> (ok: bool)
    requires
        upstream matches Some(up) ==> up.root_device < 32 && up.root_function < 8
            && up.swizzle_offset < 4,
    ensures
        ok ==> final(routes)@ == old(routes)@ + routes_of(node.functions@, upstream),
        ok == tree_on_buses(*node, upstream is None),
        (forall|i: int| 0 <= i < old(routes)@.len() ==> (#[trigger] old(routes)@[i]).wf()) ==> (
        forall|i: int| 0 <= i < final(routes)@.len() ==> (#[trigger] final(routes)@[i]).wf()),
    decreases *node,
{
    let ghost start = routes@;
    let mut i: usize = 0;
    assert(node.functions@.take(0) =~= Seq::empty());
    assert(start + routes_of(node.functions@.take(0), upstream) =~= start);
    while i < node.functions.len()
        invariant
            i <= node.functions@.len(),
            upstream matches Some(up) ==> up.root_device < 32 && up.root_function < 8
                && up.swizzle_offset < 4,
            routes@ == start + routes_of(node.functions@.take(i as int), upstream),
            start == old(routes)@,
            forall|k: int|
                0 <= k < i ==> bridge_on_bus(
                    *node,
                    #[trigger] node.functions@[k],
                    upstream is None,
                ),
            (forall|k: int| 0 <= k < start.len() ==> (#[trigger] start[k]).wf()) ==> (forall|k: int|
                0 <= k < routes@.len() ==> (#[trigger] routes@[k]).wf()),
        decreases node.functions@.len() - i,
    {
        let function = &node.functions[i];
        let ghost before = routes@;
        proof {
            assert(node.functions@.take(i + 1).drop_last() =~= node.functions@.take(i as int));
            assert(node.functions@.take(i + 1)[i as int] == *function);
        }
        if let Some(bridge) = &function.bridge {
            if function.bdf.bus != node.bus {
                assert(!bridge_on_bus(*node, node.functions@[i as int], upstream is None));
                return false;
            }
            let next = match upstream {
                None => PciIntxUpstream {
                    root_device: function.bdf.device,
                    root_function: function.bdf.function,
                    swizzle_offset: 0,
                },
                Some(up) => PciIntxUpstream {
                    root_device: up.root_device,
                    root_function: up.root_function,
                    swizzle_offset: (up.swizzle_offset + function.bdf.device % 4) % 4,
                },
            };
            assert(next == behind(upstream, function.bdf.device, function.bdf.function));
            match PciIntxBridgeRoute::new(
                bridge.downstream.bus,
                next.root_device,
                next.root_function,
                next.swizzle_offset,
            ) {
                Some(route) => {
                    routes.push(route);
                },
                None => {
                    assert(!bridge_on_bus(*node, node.functions@[i as int], upstream is None));
                    return false;
                },
            }
            assert(decreases_to!(*node => node.functions@[i as int]));
            let ghost pushed = routes@;
            if !collect_intx_bridge_routes(&bridge.downstream, Some(next), routes) {
                assert(!bridge_on_bus(*node, node.functions@[i as int], upstream is None));
                return false;
            }
            assert(routes@ =~= start + routes_of(node.functions@.take(i + 1), upstream));
        }
        i += 1;
    }
    assert(node.functions@.take(i as int) =~= node.functions@);
    true
}

/// Whether every bridge of a tree is on the bus that it is listed under, and those on
/// the root bus have numbers in range.
pub open spec fn tree_on_buses(node: PciBusNode, root: bool) -> bool
    decreases node,
{
    forall|i: int|
        0 <= i < node.functions@.len() ==> {
            let function = #[trigger] node.functions@[i];
            function.bridge matches Some(bridge) ==> {
                &&& function.bdf.bus == node.bus
                &&& root ==> function.bdf.device < 32 && function.bdf.function < 8
                &&& tree_on_buses(*bridge.downstream, false)
            }
        }
}

/// Whether a function of a bus is no bridge, or one on that bus, as are all behind it.
pub open spec fn bridge_on_bus(node: PciBusNode, function: PciFunctionNode, root: bool) -> bool {
    function.bridge matches Some(bridge) ==> {
        &&& function.bdf.bus == node.bus
        &&& root ==> function.bdf.device < 32 && function.bdf.function < 8
        &&& tree_on_buses(*bridge.downstream, false)
    }
}

/// The pin routing of a tree.
pub fn intx_topology(root: &PciBusNode) -> (result: Option<PciIntxRouting>)
    ensures
        match result {
            Some(routing) => {
                &&& routing.wf()
                &&& routing.root() == root.bus
                &&& routing.routes() == routes_of(root.functions@, None)
                &&& tree_on_buses(*root, true)
                &&& routing::routes_consistent(root.bus, routes_of(root.functions@, None))
                &&& forall|i: int|
                    0 <= i < routing.routes().len() ==> (#[trigger] routing.routes()[i]).wf()
            },
            None => !tree_on_buses(*root, true) || !routing::routes_consistent(
                root.bus,
                routes_of(root.functions@, None),
            ),
        },
{
    let mut routes: Vec<PciIntxBridgeRoute> = Vec::new();
    if !collect_intx_bridge_routes(root, None, &mut routes) {
        return None;
    }
    assert(routes@ =~= routes_of(root.functions@, None));
    PciIntxRouting::new(root.bus, routes)
}

/// Why a host could not be set up.
#[derive(Clone, Copy, PartialEq, Eq, Structural, Debug)]
pub enum PciHostRuntimeInstallError {
    BarWindows,
    Ecam,
}

/// What a driver makes of a host that could not be set up.
pub fn map_install_error(error: PciHostRuntimeInstallError) -> (mapped: PnpError)
    ensures
        mapped == match error {
            PciHostRuntimeInstallError::BarWindows => PnpError::Malformed(
                PnpResourceKind::PciHostBridge,
                "invalid or overlapping PCI address windows",
            ),
            PciHostRuntimeInstallError::Ecam => PnpError::Malformed(
                PnpResourceKind::PciHostBridge,
                "overlapping, undersized or unrepresentable ECAM window",
            ),
        },
{
    match error {
        PciHostRuntimeInstallError::BarWindows => PnpError::Malformed(
            PnpResourceKind::PciHostBridge,
            "invalid or overlapping PCI address windows",
        ),
        PciHostRuntimeInstallError::Ecam => PnpError::Malformed(
            PnpResourceKind::PciHostBridge,
            "overlapping, undersized or unrepresentable ECAM window",
        ),
    }
}

/// Why the registry of hosts refused one.
#[derive(Clone, Copy, PartialEq, Eq, Structural, Debug)]
pub enum PciHostBridgeError {
    OutOfMemory,
    AlreadyRegistered,
    Invalid,
    NotFound,
}

/// What a driver makes of a host that was refused.
pub fn map_host_bridge_error(error: PciHostBridgeError) -> (mapped: PnpError)
    ensures
        mapped == match error {
            PciHostBridgeError::OutOfMemory => PnpError::OutOfMemory,
            PciHostBridgeError::AlreadyRegistered => PnpError::RegistrationFailed(
                PnpResourceKind::PciHostBridge,
                "PCI domain and bus range overlaps an active host",
            ),
            PciHostBridgeError::Invalid | PciHostBridgeError::NotFound => PnpError::RegistrationFailed(
                PnpResourceKind::PciHostBridge,
                "PCI host registry rejected descriptor",
            ),
        },
{
    match error {
        PciHostBridgeError::OutOfMemory => PnpError::OutOfMemory,
        PciHostBridgeError::AlreadyRegistered => PnpError::RegistrationFailed(
            PnpResourceKind::PciHostBridge,
            "PCI domain and bus range overlaps an active host",
        ),
        PciHostBridgeError::Invalid | PciHostBridgeError::NotFound => PnpError::RegistrationFailed(
            PnpResourceKind::PciHostBridge,
            "PCI host registry rejected descriptor",
        ),
    }
}

/// What firmware says of a host.
pub struct PciHostDescription {
    pub domain: u16,
    pub bus_start: u8,
    pub bus_end: u8,
    pub ecam_phys: u64,
    pub ecam_size: u64,
    pub config_space: DtbPciConfigSpace,
    pub ranges: Vec<DtbPciRangeInfo>,
    pub address_cells: usize,
    pub interrupt_cells: usize,
    /// Number of cells of the interrupt map's mask, if there is one.
    pub interrupt_map_mask: Option<usize>,
    pub interrupt_map_pass_thru: Option<usize>,
    /// Whether firmware can resolve rows of the map.
    pub interrupt_resolver: bool,
    /// Numbers of address and interrupt cells of each row.
    pub interrupt_map: Vec<(usize, usize)>,
    pub children: Vec<DtbChildInterrupt>,
    pub msi_map_present: bool,
    pub msi_map_mask: u32,
    pub msi_map: Vec<DtbMsiMapEntry>,
    pub msi_parents: Vec<DtbMsiParent>,
}

impl PciHostDescription {
    /// The buses of the host.
    pub open spec fn key(&self) -> PciHostBusRange {
        PciHostBusRange {
            segment: self.domain,
            bus_start: self.bus_start,
            bus_end: self.bus_end,
        }
    }

    /// Whether the address windows can be set up.
    pub open spec fn windows_valid(&self) -> bool {
        let known = host::known_ranges(self.ranges@);
        known.len() > 0 && host::ranges_valid(known)
    }

    /// The address windows.
    pub open spec fn windows(&self) -> Seq<PciBarRuntimeWindow> {
        host::known_ranges(self.ranges@).map_values(
            |range: DtbPciRangeInfo| host::window_of(range),
        )
    }

    /// The configuration space, mapped at `vbase`.
    pub open spec fn region(&self, vbase: usize) -> PciEcamRegion {
        PciEcamRegion {
            phys_base: self.ecam_phys as usize,
            bus_start: self.bus_start,
            bus_end: self.bus_end,
            vbase,
            size: self.ecam_size as usize,
            config_space: self.config_space,
        }
    }

    /// Whether the configuration space can be set up.
    pub open spec fn region_valid(&self, vbase: usize) -> bool {
        self.ecam_phys <= usize::MAX && self.ecam_size <= usize::MAX && self.region(vbase).wf()
    }

    /// Whether the interrupt map is well formed.
    pub open spec fn irq_map_valid(&self) -> bool {
        let expected = self.address_cells + self.interrupt_cells;
        &&& 0 < expected <= usize::MAX
        &&& self.interrupt_map_mask == Some(expected as usize)
        &&& self.interrupt_resolver
        &&& self.interrupt_map_pass_thru is None || self.interrupt_map_pass_thru == Some(
            expected as usize,
        )
        &&& self.interrupt_map@.len() > 0
        &&& forall|i: int|
            0 <= i < self.interrupt_map@.len() ==> #[trigger] self.interrupt_map@[i] == (
                self.address_cells,
                self.interrupt_cells,
            )
    }

    /// Whether there are routes for the root ports, each with a port of its own.
    pub open spec fn ports_valid(&self) -> bool {
        child_routes(self.children@, self.bus_start) matches Some(routes) && routes.len() > 0
            && ls2k_config::route_error(routes, 0) is None
    }

    /// Whether interrupts of the host can be routed.
    pub open spec fn irq_valid(&self) -> bool {
        if self.config_space == DtbPciConfigSpace::Ls2k1000 {
            self.ports_valid()
        } else {
            self.irq_map_valid()
        }
    }

    /// Whether `routing` is how the host's interrupts are routed before its
    /// bridges are known.
    pub open spec fn routed_by(&self, routing: PciIrqRouting) -> bool {
        &&& routing.wf()
        &&& routing.intx.root() == self.bus_start
        &&& routing.intx.routes().len() == 0
        &&& if self.config_space == DtbPciConfigSpace::Ls2k1000 {
            routing.backend matches PciIrqRoutingBackend::Ls2k1000(table) && table.root()
                == self.bus_start && table.holds(child_routes(self.children@, self.bus_start)->0)
        } else {
            routing.backend == (PciIrqRoutingBackend::Dtb {
                address_cells: self.address_cells,
                interrupt_cells: self.interrupt_cells,
            })
        }
    }

    /// Whether message interrupts of the host can be routed.
    pub open spec fn msi_valid(&self) -> bool {
        if self.msi_map_present {
            self.msi_map@.len() > 0 && forall|i: int|
                0 <= i < self.msi_map@.len() ==> map_entry_valid(#[trigger] self.msi_map@[i])
        } else {
            self.msi_parents@.len() > 0 && forall|i: int|
                0 <= i < self.msi_parents@.len() ==> (
                #[trigger] self.msi_parents@[i]).msi_specifier@.len() == 0
        }
    }

    /// Whether `mode` is how the host's message interrupts are routed.
    pub open spec fn messages_by(&self, mode: PciMsiRoutingMode) -> bool {
        if self.msi_map_present {
            mode matches PciMsiRoutingMode::MsiMap { mask, routes } && mask == self.msi_map_mask
                && routes@ == self.msi_map@.map_values(|entry: DtbMsiMapEntry| map_route(entry))
        } else {
            mode matches PciMsiRoutingMode::Parents(routes) && routes@
                == self.msi_parents@.map_values(
                |parent: DtbMsiParent| PciMsiParentRoute { controller: parent.controller },
            )
        }
    }

    /// The number of interrupt routes that a host is listed with.
    pub open spec fn irq_routes(&self) -> nat {
        if self.config_space == DtbPciConfigSpace::Ls2k1000 {
            if self.ports_valid() {
                child_routes(self.children@, self.bus_start)->0.len()
            } else {
                0
            }
        } else {
            self.interrupt_map@.len()
        }
    }

    pub fn usable_irq_route_count(&self) -> (count: usize)
        ensures
            count == self.irq_routes(),
    {
        if self.config_space == DtbPciConfigSpace::Ls2k1000 {
            match ls2k_irq_table(&self.children, self.bus_start) {
                Some(table) => {
                    proof {
                        ls2k_config::table_counts_its_routes(
                            table,
                            child_routes(self.children@, self.bus_start)->0,
                        );
                    }
                    table.len()
                },
                None => 0,
            }
        } else {
            self.interrupt_map.len()
        }
    }

    pub fn msi_route_count(&self) -> (count: usize)
        ensures
            count == (if self.msi_map_present {
                self.msi_map@.len()
            } else {
                self.msi_parents@.len()
            }),
    {
        if self.msi_map_present {
            self.msi_map.len()
        } else {
            self.msi_parents.len()
        }
    }
}

/// What to do about the accessors that all hosts share.
#[derive(Clone, Copy, PartialEq, Eq, Structural, Debug)]
pub enum PciAccessDecision {
    /// They are there, with this address mapping.
    Ready,
    /// They are there, with another one.
    Refused,
    /// They are to be installed.
    Install,
}

/// The tables of all hosts.
pub struct PciHostRuntime {
    pub ecam: PciHostTable<PciEcamRegion>,
    pub bars: PciHostTable<Vec<PciBarRuntimeWindow>>,
    pub irq: PciHostTable<PciIrqRouting>,
    pub msi: PciHostTable<PciMsiRoutingMode>,
    /// The address mapping that the accessors were installed with.
    pub access: Option<usize>,
}

/// Whether every host of a table is one of `hosts`.
pub open spec fn keys_within<S, T>(
    table: Seq<(PciHostBusRange, S)>,
    hosts: Seq<(PciHostBusRange, T)>,
) -> bool {
    forall|i: int| 0 <= i < table.len() ==> has_key(hosts, (#[trigger] table[i]).0)
}

/// Whether a host is in a table.
pub open spec fn has_key<T>(table: Seq<(PciHostBusRange, T)>, key: PciHostBusRange) -> bool {
    exists|i: int| 0 <= i < table.len() && (#[trigger] table[i]).0 == key
}

impl PciHostRuntime {
    /// The tables are well formed, and none knows a host without windows.
    pub open spec fn wf(&self) -> bool {
        &&& self.ecam.wf()
        &&& host::regions_wf(self.ecam@)
        &&& self.bars.wf()
        &&& forall|i: int, w: int|
            0 <= i < self.bars@.len() && 0 <= w < self.bars@[i].1@.len() ==> (
            #[trigger] self.bars@[i].1@[w]).wf()
        &&& self.irq.wf()
        &&& forall|i: int| 0 <= i < self.irq@.len() ==> (#[trigger] self.irq@[i]).1.wf()
        &&& self.msi.wf()
        &&& keys_within(self.ecam@, self.bars@)
        &&& keys_within(self.irq@, self.bars@)
        &&& keys_within(self.msi@, self.bars@)
    }

    pub fn new() -> (runtime: Self)
        ensures
            runtime.wf(),
            runtime.ecam@.len() == 0,
            runtime.bars@.len() == 0,
            runtime.irq@.len() == 0,
            runtime.msi@.len() == 0,
            runtime.access is None,
    {
        PciHostRuntime {
            ecam: PciHostTable::new(),
            bars: PciHostTable::new(),
            irq: PciHostTable::new(),
            msi: PciHostTable::new(),
            access: None,
        }
    }

    /// What to do about the accessors before a host with this address mapping is
    /// set up: they are installed once, and every host must use the same mapping.
    pub fn ensure_pci_access_callbacks(&self, mapping: usize) -> (decision: PciAccessDecision)
        ensures
            decision == (match self.access {
                None => PciAccessDecision::Install,
                Some(existing) => if existing == mapping {
                    PciAccessDecision::Ready
                } else {
                    PciAccessDecision::Refused
                },
            }),
    {
        match self.access {
            None => PciAccessDecision::Install,
            Some(existing) => if existing == mapping {
                PciAccessDecision::Ready
            } else {
                PciAccessDecision::Refused
            },
        }
    }

    /// Notes whether the accessors could be installed.
    pub fn access_installed(&mut self, mapping: usize, ok: bool)
        requires
            old(self).wf(),
        ensures
            final(self).wf(),
            *final(self) == (if ok {
                PciHostRuntime { access: Some(mapping), ..*old(self) }
            } else {
                *old(self)
            }),
    {
        if ok {
            self.access = Some(mapping);
        }
    }

    /// Sets up the windows and the configuration space of a host. Where one of
    /// them cannot be set up, nothing is.
    pub fn begin_host_runtime_transaction(
        &mut self,
        host: &PciHostDescription,
        vbase: usize,
        access_ready: bool,
    ) -> (result: Result<PciHostBusRange, PciHostRuntimeInstallError>)
        requires
            old(self).wf(),
        ensures
            final(self).wf(),
            final(self).irq == old(self).irq,
            final(self).msi == old(self).msi,
            final(self).access == old(self).access,
            ({
                let key = host.key();
                let windows_ok = key.wf() && host.windows_valid() && host::key_free(
                    old(self).bars@,
                    key,
                );
                let region_ok = host.region_valid(vbase) && access_ready && host::all_apart(
                    old(self).ecam@,
                    host.region(vbase),
                );
                match result {
                    Ok(range) => {
                        &&& windows_ok && region_ok
                        &&& range == key
                        &&& final(self).bars@.len() == old(self).bars@.len() + 1
                        &&& final(self).bars@.drop_last() == old(self).bars@
                        &&& final(self).bars@.last().0 == key
                        &&& final(self).bars@.last().1@ == host.windows()
                        &&& final(self).ecam@ == old(self).ecam@.push((key, host.region(vbase)))
                    },
                    Err(error) => {
                        &&& final(self).bars@ == old(self).bars@
                        &&& final(self).ecam@ == old(self).ecam@
                        &&& match error {
                            PciHostRuntimeInstallError::BarWindows => !windows_ok,
                            PciHostRuntimeInstallError::Ecam => windows_ok && !region_ok,
                        }
                    },
                }
            }),
    {
        let key = match PciHostBusRange::new(host.domain, host.bus_start, host.bus_end) {
            Some(key) => key,
            None => {
                return Err(PciHostRuntimeInstallError::BarWindows);
            },
        };
        let windows = match host_windows(&host.ranges) {
            Some(windows) => windows,
            None => {
                return Err(PciHostRuntimeInstallError::BarWindows);
            },
        };
        let ghost bars_before = self.bars@;
        let ghost kept = windows;
        if !self.bars.insert(key, windows) {
            return Err(PciHostRuntimeInstallError::BarWindows);
        }
        let ghost pushed = self.bars@;
        proof {
            assert(pushed == bars_before.push((key, kept)));
            assert(pushed.drop_last() =~= bars_before);
            lemma_within_push(self.ecam@, bars_before, (key, kept));
            lemma_within_push(self.irq@, bars_before, (key, kept));
            lemma_within_push(self.msi@, bars_before, (key, kept));
            lemma_free_within(self.ecam@, bars_before, key);
            assert(pushed[bars_before.len() as int].0 == key);
        }
        let region = PciEcamRegion::new(
            host.ecam_phys,
            host.ecam_size,
            host.bus_start,
            host.bus_end,
            host.config_space,
            vbase,
        );
        let ghost regions_before = self.ecam@;
        let installed = match region {
            Some(candidate) => if access_ready {
                install_ecam(&mut self.ecam, key, candidate)
            } else {
                false
            },
            None => false,
        };
        if !installed {
            let removed = self.bars.remove_exact(key);
            proof {
                lemma_undo_push(bars_before, key, kept, self.bars@, removed);
            }
            return Err(PciHostRuntimeInstallError::Ecam);
        }
        proof {
            assert forall|i: int| 0 <= i < self.ecam@.len() implies has_key(
                self.bars@,
                (#[trigger] self.ecam@[i]).0,
            ) by {
                if i < regions_before.len() {
                    assert(self.ecam@[i] == regions_before[i]);
                    assert(has_key(pushed, regions_before[i].0));
                }
            }
            assert forall|i: int, w: int|
                0 <= i < self.bars@.len() && 0 <= w < self.bars@[i].1@.len() implies (
            #[trigger] self.bars@[i].1@[w]).wf() by {
                if i < bars_before.len() {
                    assert(self.bars@[i] == bars_before[i]);
                }
            }
        }
        Ok(key)
    }

    /// Sets up the interrupt routes of a host that has its windows.
    pub fn install_irq_routing(&mut self, host: &PciHostDescription) -> (ok: bool)
        requires
            old(self).wf(),
            host.key().wf(),
            has_key(old(self).bars@, host.key()),
        ensures
            final(self).wf(),
            final(self).ecam == old(self).ecam,
            final(self).bars == old(self).bars,
            final(self).msi == old(self).msi,
            final(self).access == old(self).access,
            ok == (host.irq_valid() && host::key_free(old(self).irq@, host.key())),
            if ok {
                &&& final(self).irq@.len() == old(self).irq@.len() + 1
                &&& final(self).irq@.drop_last() == old(self).irq@
                &&& final(self).irq@.last().0 == host.key()
                &&& host.routed_by(final(self).irq@.last().1)
            } else {
                final(self).irq@ == old(self).irq@
            },
    {
        let key = PciHostBusRange {
            segment: host.domain,
            bus_start: host.bus_start,
            bus_end: host.bus_end,
        };
        let backend = if host.config_space == DtbPciConfigSpace::Ls2k1000 {
            match ls2k_irq_table(&host.children, host.bus_start) {
                Some(table) => PciIrqRoutingBackend::Ls2k1000(table),
                None => {
                    return false;
                },
            }
        } else {
            if !host.interrupt_resolver || !irq_map_valid(
                host.address_cells,
                host.interrupt_cells,
                host.interrupt_map_mask,
                host.interrupt_map_pass_thru,
                &host.interrupt_map,
            ) {
                return false;
            }
            PciIrqRoutingBackend::Dtb {
                address_cells: host.address_cells,
                interrupt_cells: host.interrupt_cells,
            }
        };
        let intx = match PciIntxRouting::new(host.bus_start, Vec::new()) {
            Some(intx) => intx,
            None => {
                return false;
            },
        };
        let ghost before = self.irq@;
        let routing = PciIrqRouting { backend, intx };
        let ghost kept = routing;
        assert(host.routed_by(routing));
        let ok = self.irq.insert(key, routing);
        proof {
            if ok {
                assert(self.irq@.drop_last() =~= before);
                assert forall|i: int| 0 <= i < self.irq@.len() implies has_key(
                    self.bars@,
                    (#[trigger] self.irq@[i]).0,
                ) && self.irq@[i].1.wf() by {
                    if i < before.len() {
                        assert(self.irq@[i] == before[i]);
                    }
                }
            }
        }
        ok
    }

    /// Sets up the message interrupt routes of a host that has its windows.
    pub fn install_msi_routing(&mut self, host: &PciHostDescription) -> (ok: bool)
        requires
            old(self).wf(),
            host.key().wf(),
            has_key(old(self).bars@, host.key()),
        ensures
            final(self).wf(),
            final(self).ecam == old(self).ecam,
            final(self).bars == old(self).bars,
            final(self).irq == old(self).irq,
            final(self).access == old(self).access,
            ok == (host.msi_valid() && host::key_free(old(self).msi@, host.key())),
            if ok {
                &&& final(self).msi@.len() == old(self).msi@.len() + 1
                &&& final(self).msi@.drop_last() == old(self).msi@
                &&& final(self).msi@.last().0 == host.key()
                &&& host.messages_by(final(self).msi@.last().1)
            } else {
                final(self).msi@ == old(self).msi@
            },
    {
        let key = PciHostBusRange {
            segment: host.domain,
            bus_start: host.bus_start,
            bus_end: host.bus_end,
        };
        let mode = match msi_routing(
            host.msi_map_present,
            host.msi_map_mask,
            &host.msi_map,
            &host.msi_parents,
        ) {
            Some(mode) => mode,
            None => {
                return false;
            },
        };
        let ghost before = self.msi@;
        assert(host.messages_by(mode));
        let ok = self.msi.insert(key, mode);
        proof {
            if ok {
                assert(self.msi@.drop_last() =~= before);
                assert forall|i: int| 0 <= i < self.msi@.len() implies has_key(
                    self.bars@,
                    (#[trigger] self.msi@[i]).0,
                ) by {
                    if i < before.len() {
                        assert(self.msi@[i] == before[i]);
                    }
                }
            }
        }
        ok
    }

    /// Sets up a host: its windows and configuration space, and its interrupt
    /// routes as far as firmware describes them well. Gives the numbers of
    /// interrupt and message interrupt routes; a host without them is no error.
    pub fn prepare_host(&mut self, host: &PciHostDescription, vbase: usize, access_ready: bool) -> (result:
        Result<(usize, usize), PciHostRuntimeInstallError>)
        requires
            old(self).wf(),
        ensures
            final(self).wf(),
            final(self).access == old(self).access,
            ({
                let key = host.key();
                let windows_ok = key.wf() && host.windows_valid() && host::key_free(
                    old(self).bars@,
                    key,
                );
                let region_ok = host.region_valid(vbase) && access_ready && host::all_apart(
                    old(self).ecam@,
                    host.region(vbase),
                );
                match result {
                    Ok((irq_routes, msi_routes)) => {
                        &&& windows_ok && region_ok
                        &&& installed(*old(self), *final(self), *host, vbase)
                        &&& irq_routes == (if host.irq_valid() {
                            host.irq_routes()
                        } else {
                            0
                        })
                        &&& msi_routes == (if !host.msi_valid() {
                            0
                        } else if host.msi_map_present {
                            host.msi_map@.len()
                        } else {
                            host.msi_parents@.len()
                        })
                    },
                    Err(error) => {
                        &&& final(self).bars@ == old(self).bars@
                        &&& final(self).ecam@ == old(self).ecam@
                        &&& final(self).irq@ == old(self).irq@
                        &&& final(self).msi@ == old(self).msi@
                        &&& match error {
                            PciHostRuntimeInstallError::BarWindows => !windows_ok,
                            PciHostRuntimeInstallError::Ecam => windows_ok && !region_ok,
                        }
                    },
                }
            }),
    {
        let ghost before = *self;
        proof {
            if host::key_free(self.bars@, host.key()) && host.key().wf() {
                lemma_free_within(self.irq@, self.bars@, host.key());
                lemma_free_within(self.msi@, self.bars@, host.key());
            }
        }
        let key = match self.begin_host_runtime_transaction(host, vbase, access_ready) {
            Ok(key) => key,
            Err(error) => {
                return Err(error);
            },
        };
        proof {
            assert(self.bars@[self.bars@.len() - 1].0 == host.key());
        }
        let irq_routes: usize = if self.install_irq_routing(host) {
            host.usable_irq_route_count()
        } else {
            0
        };
        let msi_routes: usize = if self.install_msi_routing(host) {
            host.msi_route_count()
        } else {
            0
        };
        assert(installed(before, *self, *host, vbase));
        Ok((irq_routes, msi_routes))
    }

    /// Takes a host out of all tables.
    pub fn remove_host_runtime_state(&mut self, key: PciHostBusRange)
        requires
            old(self).wf(),
        ensures
            final(self).wf(),
            without(old(self).bars@, key, final(self).bars@),
            without(old(self).ecam@, key, final(self).ecam@),
            without(old(self).irq@, key, final(self).irq@),
            without(old(self).msi@, key, final(self).msi@),
            final(self).access == old(self).access,
    {
        let ghost before = *self;
        let removed_bars = self.bars.remove_exact(key);
        let removed_ecam = self.ecam.remove_exact(key);
        let removed_irq = self.irq.remove_exact(key);
        let removed_msi = self.msi.remove_exact(key);
        proof {
            assert(without(before.bars@, key, self.bars@));
            assert(without(before.ecam@, key, self.ecam@));
            assert(without(before.irq@, key, self.irq@));
            assert(without(before.msi@, key, self.msi@));
            lemma_without(before.bars, key, self.bars@);
            lemma_without(before.ecam, key, self.ecam@);
            lemma_without(before.irq, key, self.irq@);
            lemma_without(before.msi, key, self.msi@);
            lemma_within_without(before.ecam@, self.ecam@, before.bars@, self.bars@, key);
            lemma_within_without(before.irq@, self.irq@, before.bars@, self.bars@, key);
            lemma_within_without(before.msi@, self.msi@, before.bars@, self.bars@, key);
        }
    }

    /// Takes a removed host out of all tables; buses that make no range belong to
    /// no host.
    pub fn remove_host(&mut self, domain: u16, bus_start: u8, bus_end: u8)
        requires
            old(self).wf(),
        ensures
            final(self).wf(),
            ({
                let key = PciHostBusRange { segment: domain, bus_start, bus_end };
                if bus_start <= bus_end {
                    &&& without(old(self).bars@, key, final(self).bars@)
                    &&& without(old(self).ecam@, key, final(self).ecam@)
                    &&& without(old(self).irq@, key, final(self).irq@)
                    &&& without(old(self).msi@, key, final(self).msi@)
                    &&& final(self).access == old(self).access
                } else {
                    *final(self) == *old(self)
                }
            }),
    {
        if let Some(key) = PciHostBusRange::new(domain, bus_start, bus_end) {
            self.remove_host_runtime_state(key);
        }
    }

    /// Forgets the accessors once no host is left; refused while there is one.
    pub fn reset_after_driver_unregister(&mut self) -> (ok: bool)
        requires
            old(self).wf(),
        ensures
            final(self).wf(),
            ok == (old(self).ecam@.len() == 0 && old(self).bars@.len() == 0 && old(self).irq@.len()
                == 0 && old(self).msi@.len() == 0),
            ok ==> final(self).access is None && final(self).ecam@.len() == 0 && final(self).bars@.len() == 0 && final(self).irq@.len() == 0 && final(self).msi@.len() == 0,
            !ok ==> *final(self) == *old(self),
    {
        if !self.ecam.is_empty() || !self.irq.is_empty() || !self.msi.is_empty()
            || !self.bars.is_empty() {
            return false;
        }
        *self = PciHostRuntime::new();
        true
    }

    /// Replaces what is known of a host's bridges by the tree below it.
    pub fn publish_intx_topology(&mut self, segment: u16, root: &PciBusNode) -> (ok: bool)
        requires
            old(self).wf(),
        ensures
            final(self).wf(),
            final(self).ecam == old(self).ecam,
            final(self).bars == old(self).bars,
            final(self).msi == old(self).msi,
            final(self).access == old(self).access,
            ok ==> tree_on_buses(*root, true) && routing::routes_consistent(
                root.bus,
                routes_of(root.functions@, None),
            ) && exists|i: int, routing: PciIrqRouting| #[trigger]
                replaces(old(self).irq, final(self).irq@, segment, root.bus, i, routing)
                    && routing.intx.root() == root.bus && routing.intx.routes() == routes_of(
                    root.functions@,
                    None,
                ),
            !ok ==> final(self).irq@ == old(self).irq@ && (!tree_on_buses(*root, true)
                || !routing::routes_consistent(root.bus, routes_of(root.functions@, None)) || (
            forall|i: int| !#[trigger] old(self).irq.found_at(segment, root.bus, i))),
    {
        let candidate = match intx_topology(root) {
            Some(candidate) => candidate,
            None => {
                return false;
            },
        };
        let index: usize = match self.irq.find(segment, root.bus) {
            Some(index) => index,
            None => {
                return false;
            },
        };
        let ghost before = self.irq;
        let ghost kept = candidate;
        let routing = self.irq.value_mut(index);
        routing.intx = candidate;
        proof {
            let now = PciIrqRouting { backend: before@[index as int].1.backend, intx: kept };
            assert(self.irq@ =~= before@.update(index as int, (before@[index as int].0, now)));
            assert(replaces(before, self.irq@, segment, root.bus, index as int, now));
            assert forall|i: int| 0 <= i < self.irq@.len() implies (#[trigger] self.irq@[i]).0
                == before@[i].0 by {}
            assert forall|i: int| 0 <= i < self.irq@.len() implies has_key(
                self.bars@,
                (#[trigger] self.irq@[i]).0,
            ) by {
                assert(before@[i].0 == self.irq@[i].0);
            }
            assert forall|i: int, j: int| 0 <= i < j < self.irq@.len() implies !(
            #[trigger] self.irq@[i]).0.meets((#[trigger] self.irq@[j]).0) by {
                assert(!before@[i].0.meets(before@[j].0));
            }
            assert forall|i: int| 0 <= i < self.irq@.len() implies (
            #[trigger] self.irq@[i]).0.wf() by {
                assert(before@[i].0.wf());
            }
        }
        true
    }

    /// Where a function's interrupt pin leads.
    pub fn resolve_pci_irq(
        &self,
        segment: u16,
        bus: u8,
        device: u8,
        function: u8,
        interrupt_pin: Option<u8>,
    ) -> (result: Option<PciIrqQuery>)
        requires
            self.wf(),
        ensures
            match result {
                Some(query) => exists|i: int| #[trigger]
                    self.irq.found_at(segment, bus, i) && pin_query(
                        self.irq@[i].1,
                        bus,
                        device,
                        function,
                        interrupt_pin,
                    ) == Some(query@),
                None => forall|i: int| #[trigger]
                    self.irq.found_at(segment, bus, i) ==> pin_query(
                        self.irq@[i].1,
                        bus,
                        device,
                        function,
                        interrupt_pin,
                    ) is None,
            },
    {
        let index: usize = match self.irq.find(segment, bus) {
            Some(index) => index,
            None => {
                return None;
            },
        };
        let result = resolve_pin(
            self.irq.value(index),
            bus,
            device,
            function,
            interrupt_pin,
        );
        proof {
            assert forall|i: int| #[trigger] self.irq.found_at(segment, bus, i) implies i
                == index by {
                crate::pci::host_table::lookup_is_unique(
                    self.irq,
                    segment,
                    bus,
                    i,
                    index as int,
                );
            }
            assert(self.irq.found_at(segment, bus, index as int));
        }
        result
    }

    /// The targets to try for a message interrupt of a function, in order; a host
    /// without routes has none.
    pub fn resolve_pci_msi(&self, segment: u16, bus: u8, device: u8, function: u8) -> (targets: Vec<
        PciMsiTarget,
    >)
        requires
            self.wf(),
        ensures
            (forall|i: int| !#[trigger] self.msi.found_at(segment, bus, i)) ==> targets@.len() == 0,
            forall|i: int| #[trigger]
                self.msi.found_at(segment, bus, i) ==> targets@ == self.msi@[i].1.targets(
                    requester_of(bus, device, function),
                ),
    {
        let index: usize = match self.msi.find(segment, bus) {
            Some(index) => index,
            None => {
                return Vec::new();
            },
        };
        proof {
            assert forall|i: int| #[trigger] self.msi.found_at(segment, bus, i) implies i
                == index by {
                crate::pci::host_table::lookup_is_unique(
                    self.msi,
                    segment,
                    bus,
                    i,
                    index as int,
                );
            }
        }
        self.msi.value(index).allocation_targets(pci_requester_id(bus, device, function))
    }

    /// Allocates a message interrupt of a function: the targets are tried in order until
    /// one has it.
    pub fn allocate_pci_msi<T, E, F: FnMut(PciMsiTarget) -> Result<T, E>>(
        &self,
        segment: u16,
        bus: u8,
        device: u8,
        function: u8,
        allocator: &mut Allocator<T, E, F>,
    ) -> (result: Option<T>)
        requires
            self.wf(),
            old(allocator).serves_all(),
        ensures
            final(allocator).serves_all(),
            final(allocator).the_allocate() == old(allocator).the_allocate(),
            (forall|i: int| !#[trigger] self.msi.found_at(segment, bus, i)) ==> result is None
                && final(allocator).log() == old(allocator).log(),
            forall|i: int| #[trigger]
                self.msi.found_at(segment, bus, i) ==> exists|attempts: Seq<Attempt<T, E>>|
                 #[trigger]
                    routing::attempted(
                        self.msi@[i].1.targets(requester_of(bus, device, function)),
                        attempts,
                        result,
                    ) && final(allocator).log() == old(allocator).log() + attempts,
    {
        let targets = self.resolve_pci_msi(segment, bus, device, function);
        let result = allocate_traced(targets.as_slice(), allocator);
        proof {
            let attempts = choose|attempts: Seq<Attempt<T, E>>| #[trigger]
                routing::attempted(targets@, attempts, result) && allocator.log() == old(allocator).log() + attempts;
            if targets@.len() == 0 {
                assert(allocator.log() =~= old(allocator).log());
            }
            assert forall|i: int| #[trigger] self.msi.found_at(segment, bus, i) implies exists|
                attempts: Seq<Attempt<T, E>>,
            | #[trigger]
                routing::attempted(
                    self.msi@[i].1.targets(requester_of(bus, device, function)),
                    attempts,
                    result,
                ) && allocator.log() == old(allocator).log() + attempts by {
                assert(routing::attempted(
                    self.msi@[i].1.targets(requester_of(bus, device, function)),
                    attempts,
                    result,
                ));
            }
        }
        result
    }

    /// The CPU address of a register of a function.
    pub fn resolve_pci_bar_mapping(
        &self,
        segment: u16,
        bus: u8,
        kind: PciBarKind,
        pci_address: u64,
        size: u64,
    ) -> (result: Option<usize>)
        requires
            self.wf(),
        ensures
            match result {
                Some(cpu) => exists|i: int, at: int| #[trigger]
                    self.bars.found_at(segment, bus, i) && #[trigger] host::maps_by(
                        self.bars@[i].1@,
                        kind,
                        pci_address,
                        size,
                        at,
                    ) && cpu == self.bars@[i].1@[at].cpu_start + (pci_address
                        - self.bars@[i].1@[at].pci_start),
                None => forall|i: int, w: int| #[trigger]
                    self.bars.found_at(segment, bus, i) && 0 <= w < self.bars@[i].1@.len()
                        ==> !host::window_maps(
                        #[trigger] self.bars@[i].1@[w],
                        kind,
                        pci_address,
                        size,
                    ),
            },
    {
        let index: usize = match self.bars.find(segment, bus) {
            Some(index) => index,
            None => {
                return None;
            },
        };
        proof {
            assert forall|i: int| #[trigger] self.bars.found_at(segment, bus, i) implies i
                == index by {
                crate::pci::host_table::lookup_is_unique(
                    self.bars,
                    segment,
                    bus,
                    i,
                    index as int,
                );
            }
            assert(self.bars.found_at(segment, bus, index as int));
            assert forall|w: int| 0 <= w < self.bars@[index as int].1@.len() implies (
            #[trigger] self.bars@[index as int].1@[w]).wf() by {}
        }
        resolve_bar_mapping(self.bars.value(index), kind, pci_address, size)
    }
}

/// Whether a table differs from another one in the value of the host of one bus.
pub open spec fn replaces(
    before: PciHostTable<PciIrqRouting>,
    after: Seq<(PciHostBusRange, PciIrqRouting)>,
    segment: u16,
    bus: u8,
    i: int,
    routing: PciIrqRouting,
) -> bool {
    &&& before.found_at(segment, bus, i)
    &&& routing.backend == before@[i].1.backend
    &&& after == before@.update(i, (before@[i].0, routing))
}

/// Whether a table is another one, with `key` added if `add` says so.
pub open spec fn grown<T>(
    before: Seq<(PciHostBusRange, T)>,
    after: Seq<(PciHostBusRange, T)>,
    key: PciHostBusRange,
    add: bool,
) -> bool {
    if add {
        &&& after.len() == before.len() + 1
        &&& after.drop_last() == before
        &&& after.last().0 == key
    } else {
        after == before
    }
}

/// Whether the tables differ by one host.
pub open spec fn installed(
    before: PciHostRuntime,
    after: PciHostRuntime,
    host: PciHostDescription,
    vbase: usize,
) -> bool {
    let key = host.key();
    &&& grown(before.bars@, after.bars@, key, true)
    &&& after.bars@.last().1@ == host.windows()
    &&& after.ecam@ == before.ecam@.push((key, host.region(vbase)))
    &&& grown(before.irq@, after.irq@, key, host.irq_valid())
    &&& host.irq_valid() ==> host.routed_by(after.irq@.last().1)
    &&& grown(before.msi@, after.msi@, key, host.msi_valid())
    &&& host.msi_valid() ==> host.messages_by(after.msi@.last().1)
}

/// Taking a host out again right after it was set up leaves the tables as they
/// were: a host that could not be published leaves nothing behind.
pub proof fn rollback_restores(
    before: PciHostRuntime,
    during: PciHostRuntime,
    after: PciHostRuntime,
    host: PciHostDescription,
    vbase: usize,
)
    requires
        before.wf(),
        host.key().wf(),
        host::key_free(before.bars@, host.key()),
        installed(before, during, host, vbase),
        without(during.bars@, host.key(), after.bars@),
        without(during.ecam@, host.key(), after.ecam@),
        without(during.irq@, host.key(), after.irq@),
        without(during.msi@, host.key(), after.msi@),
    ensures
        after.bars@ == before.bars@,
        after.ecam@ == before.ecam@,
        after.irq@ == before.irq@,
        after.msi@ == before.msi@,
{
    let key = host.key();
    lemma_free_within(before.ecam@, before.bars@, key);
    lemma_free_within(before.irq@, before.bars@, key);
    lemma_free_within(before.msi@, before.bars@, key);
    assert(during.ecam@.drop_last() =~= before.ecam@);
    lemma_grown_without(before.bars@, during.bars@, after.bars@, key, true);
    lemma_grown_without(before.ecam@, during.ecam@, after.ecam@, key, true);
    lemma_grown_without(before.irq@, during.irq@, after.irq@, key, host.irq_valid());
    lemma_grown_without(before.msi@, during.msi@, after.msi@, key, host.msi_valid());
}

proof fn lemma_grown_without<T>(
    before: Seq<(PciHostBusRange, T)>,
    during: Seq<(PciHostBusRange, T)>,
    after: Seq<(PciHostBusRange, T)>,
    key: PciHostBusRange,
    add: bool,
)
    requires
        grown(before, during, key, add),
        host::key_free(before, key),
        key.wf(),
        without(during, key, after),
    ensures
        after == before,
{
    let n = before.len() as int;
    assert forall|i: int| 0 <= i < n implies (#[trigger] before[i]).0 != key by {
        assert(!before[i].0.meets(key));
    }
    if add {
        assert(during[n].0 == key);
        assert forall|i: int| 0 <= i < n implies #[trigger] during[i] == before[i] by {
            assert(during.drop_last()[i] == before[i]);
        }
        let i = choose|i: int|
            0 <= i < during.len() && during[i].0 == key && after == #[trigger] during.remove(i);
        if i < n {
            assert(during[i] == before[i]);
        }
        assert(after =~= before);
    } else if exists|i: int|
        0 <= i < during.len() && during[i].0 == key && after == #[trigger] during.remove(i) {
        let i = choose|i: int|
            0 <= i < during.len() && during[i].0 == key && after == #[trigger] during.remove(i);
        assert(before[i].0 == key);
    }
}

proof fn lemma_within_push<S, T>(
    table: Seq<(PciHostBusRange, S)>,
    hosts: Seq<(PciHostBusRange, T)>,
    entry: (PciHostBusRange, T),
)
    requires
        keys_within(table, hosts),
    ensures
        keys_within(table, hosts.push(entry)),
{
    assert forall|i: int| 0 <= i < table.len() implies has_key(
        hosts.push(entry),
        (#[trigger] table[i]).0,
    ) by {
        let j = choose|j: int| 0 <= j < hosts.len() && (#[trigger] hosts[j]).0 == table[i].0;
        assert(hosts.push(entry)[j].0 == table[i].0);
    }
}

proof fn lemma_free_within<S, T>(
    table: Seq<(PciHostBusRange, S)>,
    hosts: Seq<(PciHostBusRange, T)>,
    key: PciHostBusRange,
)
    requires
        keys_within(table, hosts),
        host::key_free(hosts, key),
    ensures
        host::key_free(table, key),
{
    assert forall|i: int| 0 <= i < table.len() implies !(#[trigger] table[i]).0.meets(key) by {
        let j = choose|j: int| 0 <= j < hosts.len() && (#[trigger] hosts[j]).0 == table[i].0;
        assert(!hosts[j].0.meets(key));
    }
}

/// What is left of a table without a host was there before, and is another host.
proof fn lemma_without<T>(
    before: PciHostTable<T>,
    key: PciHostBusRange,
    after: Seq<(PciHostBusRange, T)>,
)
    requires
        before.wf(),
        without(before@, key, after),
    ensures
        forall|i: int|
            0 <= i < after.len() ==> before@.contains(#[trigger] after[i]) && after[i].0 != key,
        forall|i: int|
            0 <= i < before@.len() && (#[trigger] before@[i]).0 != key ==> after.contains(
                before@[i],
            ),
{
    if exists|i: int| 0 <= i < before@.len() && before@[i].0 == key && after == #[trigger]
        before@.remove(i) {
        let at = choose|i: int|
            0 <= i < before@.len() && before@[i].0 == key && after == #[trigger] before@.remove(i);
        assert forall|i: int| 0 <= i < after.len() implies before@.contains(#[trigger] after[i])
            && after[i].0 != key by {
            let x = if i < at {
                i
            } else {
                i + 1
            };
            assert(after[i] == before@[x]);
            if before@[x].0 == key {
                assert(before@[x].0.meets(before@[at].0));
                if x < at {
                    assert(!before@[x].0.meets(before@[at].0));
                } else {
                    assert(!before@[at].0.meets(before@[x].0));
                }
            }
        }
        assert forall|i: int|
            0 <= i < before@.len() && (#[trigger] before@[i]).0 != key implies after.contains(
            before@[i],
        ) by {
            let x = if i < at {
                i
            } else {
                i - 1
            };
            assert(after[x] == before@[i]);
        }
    } else {
        assert forall|i: int| 0 <= i < after.len() implies before@.contains(
            #[trigger] after[i],
        ) by {
            assert(before@[i] == after[i]);
        }
        assert forall|i: int|
            0 <= i < before@.len() && (#[trigger] before@[i]).0 != key implies after.contains(
            before@[i],
        ) by {
            assert(after[i] == before@[i]);
        }
    }
}

proof fn lemma_within_without<S, T>(
    table: Seq<(PciHostBusRange, S)>,
    rest: Seq<(PciHostBusRange, S)>,
    hosts: Seq<(PciHostBusRange, T)>,
    left: Seq<(PciHostBusRange, T)>,
    key: PciHostBusRange,
)
    requires
        keys_within(table, hosts),
        forall|i: int|
            0 <= i < rest.len() ==> table.contains(#[trigger] rest[i]) && rest[i].0 != key,
        forall|i: int|
            0 <= i < hosts.len() && (#[trigger] hosts[i]).0 != key ==> left.contains(hosts[i]),
    ensures
        keys_within(rest, left),
{
    assert forall|i: int| 0 <= i < rest.len() implies has_key(left, (#[trigger] rest[i]).0) by {
        assert(table.contains(rest[i]));
        let k = choose|k: int| 0 <= k < table.len() && table[k] == rest[i];
        assert(has_key(hosts, table[k].0));
        let j = choose|j: int| 0 <= j < hosts.len() && (#[trigger] hosts[j]).0 == table[k].0;
        assert(left.contains(hosts[j]));
        let l = choose|l: int| 0 <= l < left.len() && left[l] == hosts[j];
        assert(left[l].0 == rest[i].0);
    }
}

/// Whether `after` is `before` without the host `key`, if it was there.
pub open spec fn without<T>(
    before: Seq<(PciHostBusRange, T)>,
    key: PciHostBusRange,
    after: Seq<(PciHostBusRange, T)>,
) -> bool {
    ||| after == before && forall|i: int|
        0 <= i < before.len() ==> (#[trigger] before[i]).0 != key
    ||| exists|i: int|
        0 <= i < before.len() && before[i].0 == key && after == #[trigger] before.remove(i)
}

proof fn lemma_undo_push<T>(
    before: Seq<(PciHostBusRange, T)>,
    key: PciHostBusRange,
    value: T,
    after: Seq<(PciHostBusRange, T)>,
    removed: Option<T>,
)
    requires
        host::key_free(before, key),
        key.wf(),
        ({
            let pushed = before.push((key, value));
            match removed {
                Some(taken) => exists|i: int|
                    0 <= i < pushed.len() && pushed[i] == (key, taken) && after
                        == #[trigger] pushed.remove(i),
                None => forall|i: int| 0 <= i < pushed.len() ==> (#[trigger] pushed[i]).0 != key,
            }
        }),
    ensures
        after == before,
{
    let pushed = before.push((key, value));
    assert(pushed[before.len() as int].0 == key);
    let i = choose|i: int|
        0 <= i < pushed.len() && pushed[i] == (key, removed->0) && after == #[trigger] pushed.remove(
            i,
        );
    if i < before.len() {
        assert(pushed[i] == before[i]);
        assert(before[i].0.meets(key));
    }
    assert(after =~= before);
}

/// The functions of a tree in the order in which they are registered: depth
/// first, a bridge before what is behind it.
pub open spec fn functions_of(functions: Seq<PciFunctionNode>) -> Seq<PciBdf>
    decreases functions,
{
    if functions.len() == 0 {
        Seq::empty()
    } else {
        let function = functions[functions.len() - 1];
        functions_of(functions.drop_last()).push(function.bdf) + match function.bridge {
            None => Seq::empty(),
            Some(bridge) => functions_of(bridge.downstream.functions@),
        }
    }
}

/// Lists the functions of a bus and of everything behind it.
pub fn register_pci_bus(node: &PciBusNode, order: &mut Vec<PciBdf>)
    ensures
        final(order)@ == old(order)@ + functions_of(node.functions@),
    decreases *node,
{
    let ghost start = order@;
    let mut i: usize = 0;
    assert(node.functions@.take(0) =~= Seq::empty());
    assert(start + functions_of(node.functions@.take(0)) =~= start);
    while i < node.functions.len()
        invariant
            i <= node.functions@.len(),
            order@ == start + functions_of(node.functions@.take(i as int)),
        decreases node.functions@.len() - i,
    {
        let function = &node.functions[i];
        proof {
            assert(node.functions@.take(i + 1).drop_last() =~= node.functions@.take(i as int));
            assert(node.functions@.take(i + 1)[i as int] == *function);
        }
        order.push(function.bdf);
        if let Some(bridge) = &function.bridge {
            assert(decreases_to!(*node => node.functions@[i as int]));
            register_pci_bus(&bridge.downstream, order);
        }
        assert(order@ =~= start + functions_of(node.functions@.take(i + 1)));
        i += 1;
    }
    assert(node.functions@.take(i as int) =~= node.functions@);
}

/// How a registered function fared.
#[derive(Clone, Copy, PartialEq, Eq, Structural, Debug)]
pub enum PciProbeOutcome {
    Bound,
    NoDriver,
    Deferred,
    NotPresent,
    Failed,
}

/// How the functions of a host fared.
#[derive(Clone, Copy, PartialEq, Eq, Structural, Debug)]
pub struct PciScanRegisterSummary {
    pub registered: usize,
    pub bound: usize,
    pub no_driver: usize,
    pub deferred: usize,
    pub failed: usize,
}

/// The number of outcomes of a kind.
pub open spec fn count_of(outcomes: Seq<PciProbeOutcome>, wanted: PciProbeOutcome) -> nat
    decreases outcomes.len(),
{
    if outcomes.len() == 0 {
        0
    } else {
        count_of(outcomes.drop_last(), wanted) + (if outcomes.last() == wanted {
            1nat
        } else {
            0nat
        })
    }
}

/// Counts how the functions of a host fared; one that is gone counts nowhere.
pub fn summarize(outcomes: &Vec<PciProbeOutcome>) -> (summary: PciScanRegisterSummary)
    ensures
        summary.bound == count_of(outcomes@, PciProbeOutcome::Bound),
        summary.no_driver == count_of(outcomes@, PciProbeOutcome::NoDriver),
        summary.deferred == count_of(outcomes@, PciProbeOutcome::Deferred),
        summary.failed == count_of(outcomes@, PciProbeOutcome::Failed),
        summary.registered == summary.bound + summary.no_driver + summary.deferred,
{
    let mut summary = PciScanRegisterSummary {
        registered: 0,
        bound: 0,
        no_driver: 0,
        deferred: 0,
        failed: 0,
    };
    let mut i: usize = 0;
    assert(outcomes@.take(0) =~= Seq::empty());
    while i < outcomes.len()
        invariant
            i <= outcomes@.len(),
            summary.bound == count_of(outcomes@.take(i as int), PciProbeOutcome::Bound),
            summary.no_driver == count_of(outcomes@.take(i as int), PciProbeOutcome::NoDriver),
            summary.deferred == count_of(outcomes@.take(i as int), PciProbeOutcome::Deferred),
            summary.failed == count_of(outcomes@.take(i as int), PciProbeOutcome::Failed),
            summary.registered == summary.bound + summary.no_driver + summary.deferred,
            summary.registered + summary.failed <= i,
        decreases outcomes@.len() - i,
    {
        assert(outcomes@.take(i + 1).drop_last() =~= outcomes@.take(i as int));
        match outcomes[i] {
            PciProbeOutcome::Bound => {
                summary.registered = summary.registered + 1;
                summary.bound = summary.bound + 1;
            },
            PciProbeOutcome::NoDriver => {
                summary.registered = summary.registered + 1;
                summary.no_driver = summary.no_driver + 1;
            },
            PciProbeOutcome::Deferred => {
                summary.registered = summary.registered + 1;
                summary.deferred = summary.deferred + 1;
            },
            PciProbeOutcome::NotPresent => {},
            PciProbeOutcome::Failed => {
                summary.failed = summary.failed + 1;
            },
        }
        i += 1;
    }
    assert(outcomes@.take(i as int) =~= outcomes@);
    summary
}

} // verus!
