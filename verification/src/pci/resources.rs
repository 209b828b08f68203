//! Placing the resources of a tree and opening its bridges for them.

use vstd::prelude::*;
use crate::pci::bar;
use crate::pci::bar::{
    PciBarAllocation, PciBarKind, PciBarReservedRange, PciBarWindowAllocator, WindowModel,
};
use crate::pci::config_port;
use crate::pci::config_port::{ConfigAccess, ConfigExchange, ConfigPort, ConfigReply, PciBdf};
use crate::pci::probe;
use crate::pci::probe::{PciBarResource, write_bar_address};
use crate::pci::scan::{PciBusNode, PciFunctionNode};
use crate::pci::topology;
use crate::pci::topology::{
    PciBridgeApertureTracker, PciBridgeIoWindow, PciBridgeMemoryWindow, PciBridgePrefetchWindow,
    PciResourceEnvelope, PciResourceRange, PciResourceSpace,
};
use crate::pci::tree;
use crate::pci::tree::{
    PCI_BRIDGE_IO_BASE_LIMIT, PCI_BRIDGE_IO_BASE_LIMIT_UPPER, PCI_BRIDGE_MEMORY_BASE_LIMIT,
    PCI_BRIDGE_PREFETCH_BASE_LIMIT, PCI_BRIDGE_PREFETCH_BASE_UPPER, PCI_BRIDGE_PREFETCH_LIMIT_UPPER,
};

verus! {

/// Whether two registers differ in nothing but where they were placed.
pub open spec fn same_bar(left: PciBarResource, right: PciBarResource) -> bool {
    left == (PciBarResource { allocation: left.allocation, ..right })
}

/// Whether two functions differ in nothing but where their registers were
/// placed and which kinds failed.
pub open spec fn same_function(left: PciFunctionNode, right: PciFunctionNode) -> bool
    decreases left,
{
    &&& left.bdf == right.bdf
    &&& left.info == right.info
    &&& left.original_command == right.original_command
    &&& left.saw_io_bar == right.saw_io_bar
    &&& left.saw_memory_bar == right.saw_memory_bar
    &&& right.io_failed ==> left.io_failed
    &&& right.memory_failed ==> left.memory_failed
    &&& left.bars@.len() == right.bars@.len()
    &&& forall|i: int|
        0 <= i < right.bars@.len() ==> same_bar(#[trigger] left.bars@[i], right.bars@[i])
    &&& match (left.bridge, right.bridge) {
        (Some(l), Some(r)) => l.io_32bit == r.io_32bit && l.prefetch_64bit == r.prefetch_64bit
            && same_tree(*l.downstream, *r.downstream),
        (None, None) => true,
        _ => false,
    }
}

/// Whether two trees have the same buses and functions.
pub open spec fn same_tree(left: PciBusNode, right: PciBusNode) -> bool
    decreases left,
{
    &&& left.bus == right.bus
    &&& left.functions@.len() == right.functions@.len()
    &&& forall|i: int|
        0 <= i < right.functions@.len() ==> same_function(
            #[trigger] left.functions@[i],
            right.functions@[i],
        )
}

/// Whether a register that was placed holds a range that is in use in one of
/// the windows, and names its CPU address.
pub open spec fn bar_placed(bar: PciBarResource, windows: Seq<WindowModel>) -> bool {
    bar.allocation matches Some(allocation) ==> exists|w: int|
        placed_in(bar, allocation, #[trigger] windows[w]) && 0 <= w < windows.len()
}

pub open spec fn placed_in(
    bar: PciBarResource,
    allocation: PciBarAllocation,
    state: WindowModel,
) -> bool {
    &&& state.reserved.contains(
        PciBarReservedRange {
            start: allocation.pci_address,
            end: (allocation.pci_address + bar.size) as u64,
        },
    )
    &&& allocation.pci_address + bar.size <= u64::MAX
    &&& bar::describes(allocation, state.window, allocation.pci_address)
    &&& state.window.takes(bar.kind)
}

/// Whether all registers of a function and of what is behind it are placed.
pub open spec fn function_placed(function: PciFunctionNode, windows: Seq<WindowModel>) -> bool
    decreases function,
{
    &&& forall|i: int|
        0 <= i < function.bars@.len() ==> bar_placed(#[trigger] function.bars@[i], windows)
    &&& function.bridge matches Some(bridge) ==> tree_placed(*bridge.downstream, windows)
}

/// Whether all registers of a tree that were placed hold a range in use.
pub open spec fn tree_placed(node: PciBusNode, windows: Seq<WindowModel>) -> bool
    decreases node,
{
    forall|i: int|
        0 <= i < node.functions@.len() ==> function_placed(#[trigger] node.functions@[i], windows)
}

/// Whether everything in use before is still in use.
pub open spec fn keeps_ranges(before: Seq<WindowModel>, after: Seq<WindowModel>) -> bool {
    &&& before.len() == after.len()
    &&& forall|w: int|
        0 <= w < before.len() ==> {
            &&& (#[trigger] after[w]).window == before[w].window
            &&& forall|range: PciBarReservedRange|
                before[w].reserved.contains(range) ==> #[trigger] after[w].reserved.contains(range)
        }
}

proof fn lemma_bar_kept(bar: PciBarResource, before: Seq<WindowModel>, after: Seq<WindowModel>)
    requires
        bar_placed(bar, before),
        keeps_ranges(before, after),
    ensures
        bar_placed(bar, after),
{
    if bar.allocation is Some {
        let w = choose|w: int|
            placed_in(bar, bar.allocation->0, #[trigger] before[w]) && 0 <= w < before.len();
        assert(placed_in(bar, bar.allocation->0, after[w]));
    }
}

proof fn lemma_function_kept(
    function: PciFunctionNode,
    before: Seq<WindowModel>,
    after: Seq<WindowModel>,
)
    requires
        function_placed(function, before),
        keeps_ranges(before, after),
    ensures
        function_placed(function, after),
    decreases function,
{
    assert forall|i: int| 0 <= i < function.bars@.len() implies bar_placed(
        #[trigger] function.bars@[i],
        after,
    ) by {
        lemma_bar_kept(function.bars@[i], before, after);
    }
    if function.bridge is Some {
        lemma_tree_kept(*function.bridge->0.downstream, before, after);
    }
}

proof fn lemma_tree_kept(node: PciBusNode, before: Seq<WindowModel>, after: Seq<WindowModel>)
    requires
        tree_placed(node, before),
        keeps_ranges(before, after),
    ensures
        tree_placed(node, after),
    decreases node,
{
    assert forall|i: int| 0 <= i < node.functions@.len() implies function_placed(
        #[trigger] node.functions@[i],
        after,
    ) by {
        lemma_function_kept(node.functions@[i], before, after);
    }
}

proof fn lemma_range_taken(before: Seq<WindowModel>, after: Seq<WindowModel>, index: int, range: PciBarReservedRange)
    requires
        0 <= index < before.len(),
        bar::range_taken(before[index], after[index], range),
        after == before.update(index, after[index]),
    ensures
        keeps_ranges(before, after),
        after[index].reserved.contains(range),
{
    let old_ranges = before[index].reserved;
    let new_ranges = after[index].reserved;
    let pos = choose|pos: int|
        bar::insertion_point(old_ranges, range, pos) && new_ranges == #[trigger] old_ranges.insert(
            pos,
            range,
        );
    assert(new_ranges[pos] == range);
    assert forall|other: PciBarReservedRange|
        old_ranges.contains(other) implies #[trigger] new_ranges.contains(other) by {
        let k = choose|k: int| 0 <= k < old_ranges.len() && old_ranges[k] == other;
        if k < pos {
            assert(new_ranges[k] == other);
        } else {
            assert(new_ranges[k + 1] == other);
        }
    }
    assert forall|w: int| 0 <= w < before.len() implies {
        &&& (#[trigger] after[w]).window == before[w].window
        &&& forall|other: PciBarReservedRange|
            before[w].reserved.contains(other) ==> #[trigger] after[w].reserved.contains(other)
    } by {
        if w != index {
            assert(after[w] == before[w]);
        }
    }
}

proof fn lemma_same_function_reflexive(function: PciFunctionNode)
    ensures
        same_function(function, function),
    decreases function,
{
    if function.bridge is Some {
        lemma_same_tree_reflexive(*function.bridge->0.downstream);
    }
}

proof fn lemma_same_tree_reflexive(node: PciBusNode)
    ensures
        same_tree(node, node),
    decreases node,
{
    assert forall|i: int| 0 <= i < node.functions@.len() implies same_function(
        #[trigger] node.functions@[i],
        node.functions@[i],
    ) by {
        lemma_same_function_reflexive(node.functions@[i]);
    }
}

/// What keeping the address of a register comes to: a register without an
/// address is left alone.
pub open spec fn bar_reserved(
    before: PciBarResource,
    after: PciBarResource,
    windows: Seq<WindowModel>,
    now: Seq<WindowModel>,
) -> bool {
    if before.original_address == 0 {
        after == before && now == windows
    } else {
        exists|result: Option<PciBarAllocation>| #[trigger]
            bar::reservation_made(
                windows,
                now,
                before.kind,
                before.width,
                before.original_address,
                before.size,
                before.size,
                result,
            ) && after == (if result is Some {
                PciBarResource { allocation: result, ..before }
            } else {
                before
            })
    }
}

/// Whether `states` leads from `first` to `last` in `count` steps.
pub open spec fn leads<S>(states: Seq<S>, count: int, first: S, last: S) -> bool {
    states.len() == count + 1 && states[0] == first && states[count] == last
}

/// Whether nothing of a function but its registers, what failed and what is
/// behind it changed.
pub open spec fn same_identity(before: PciFunctionNode, after: PciFunctionNode) -> bool {
    &&& after.bdf == before.bdf
    &&& after.info == before.info
    &&& after.original_command == before.original_command
    &&& after.saw_io_bar == before.saw_io_bar
    &&& after.saw_memory_bar == before.saw_memory_bar
    &&& after.bars@.len() == before.bars@.len()
    &&& (after.bridge is Some) == (before.bridge is Some)
    &&& after.bridge matches Some(bridge) ==> bridge.io_32bit == before.bridge->0.io_32bit
        && bridge.prefetch_64bit == before.bridge->0.prefetch_64bit
}

/// What keeping the addresses of a function comes to: its registers in turn,
/// then everything behind it.
pub open spec fn function_reserved(
    before: PciFunctionNode,
    after: PciFunctionNode,
    windows: Seq<WindowModel>,
    now: Seq<WindowModel>,
) -> bool
    decreases before, 0int,
{
    &&& same_identity(before, after)
    &&& after.io_failed == before.io_failed
    &&& after.memory_failed == before.memory_failed
    &&& exists|states: Seq<Seq<WindowModel>>, own: Seq<WindowModel>| #[trigger]
        leads(states, before.bars@.len() as int, windows, own) && (forall|i: int|
            0 <= i < before.bars@.len() ==> bar_reserved(
                #[trigger] before.bars@[i],
                after.bars@[i],
                states[i],
                states[i + 1],
            )) && match before.bridge {
            None => now == own,
            Some(bridge) => tree_reserved(
                *bridge.downstream,
                *after.bridge->0.downstream,
                own,
                now,
            ),
        }
}

/// What keeping the addresses of a tree comes to, function by function.
pub open spec fn tree_reserved(
    before: PciBusNode,
    after: PciBusNode,
    windows: Seq<WindowModel>,
    now: Seq<WindowModel>,
) -> bool
    decreases before, 1int,
{
    &&& after.bus == before.bus
    &&& after.functions@.len() == before.functions@.len()
    &&& exists|states: Seq<Seq<WindowModel>>| #[trigger]
        leads(states, before.functions@.len() as int, windows, now) && forall|i: int|
            0 <= i < before.functions@.len() ==> function_reserved(
                #[trigger] before.functions@[i],
                after.functions@[i],
                states[i],
                states[i + 1],
            )
}

/// Keeps the address that firmware put into a register, if it put one there and
/// the windows have it free.
pub fn reserve_bar(resource: &mut PciBarResource, allocator: &mut PciBarWindowAllocator)
    requires
        old(allocator).wf(),
        bar_placed(*old(resource), old(allocator)@),
    ensures
        final(allocator).wf(),
        same_bar(*final(resource), *old(resource)),
        bar_placed(*final(resource), final(allocator)@),
        keeps_ranges(old(allocator)@, final(allocator)@),
        bar_reserved(*old(resource), *final(resource), old(allocator)@, final(allocator)@),
{
    if resource.original_address == 0 {
        return ;
    }
    let ghost before = allocator@;
    let kept = allocator.reserve(
        resource.kind,
        resource.width,
        resource.original_address,
        resource.size,
        resource.size,
    );
    assert(bar::reservation_made(
        before,
        allocator@,
        resource.kind,
        resource.width,
        resource.original_address,
        resource.size,
        resource.size,
        kept,
    ));
    if let Some(allocation) = kept {
        proof {
            let (pass, index) = choose|pass: int, index: int| #[trigger]
                bar::chosen_for_reservation(
                    before,
                    resource.kind,
                    resource.width,
                    resource.original_address as int,
                    resource.size as int,
                    pass,
                    index,
                ) && {
                    let state = before[index];
                    let after = allocator@[index];
                    &&& bar::describes(allocation, state.window, resource.original_address)
                    &&& bar::range_taken(
                        state,
                        after,
                        PciBarReservedRange {
                            start: resource.original_address,
                            end: (resource.original_address + resource.size) as u64,
                        },
                    )
                    &&& after.next == state.next
                    &&& allocator@ == before.update(index, after)
                };
            let range = PciBarReservedRange {
                start: resource.original_address,
                end: (resource.original_address + resource.size) as u64,
            };
            lemma_range_taken(before, allocator@, index, range);
            bar::passes_keep_spaces_apart(before[index].window, resource.kind, pass);
            let placed = PciBarResource { allocation: Some(allocation), ..*resource };
            assert(placed_in(placed, allocation, allocator@[index]));
        }
        resource.allocation = Some(allocation);
    }
}

/// Keeps the addresses that firmware put into the registers of a function and of
/// everything behind it.
fn reserve_function_bars(function: &mut PciFunctionNode, allocator: &mut PciBarWindowAllocator)
    requires
        old(allocator).wf(),
        function_placed(*old(function), old(allocator)@),
    ensures
        final(allocator).wf(),
        same_function(*final(function), *old(function)),
        function_placed(*final(function), final(allocator)@),
        keeps_ranges(old(allocator)@, final(allocator)@),
        function_reserved(*old(function), *final(function), old(allocator)@, final(allocator)@),
    decreases *old(function),
{
    let ghost start = *function;
    let ghost windows = allocator@;
    let ghost mut states: Seq<Seq<WindowModel>> = seq![windows];
    let mut i: usize = 0;
    while i < function.bars.len()
        invariant
            i <= function.bars@.len(),
            leads(states, i as int, windows, allocator@),
            forall|k: int|
                0 <= k < i ==> bar_reserved(
                    #[trigger] start.bars@[k],
                    function.bars@[k],
                    states[k],
                    states[k + 1],
                ),
            forall|k: int|
                i <= k < start.bars@.len() ==> #[trigger] function.bars@[k] == start.bars@[k],
            allocator.wf(),
            keeps_ranges(windows, allocator@),
            function.bars@.len() == start.bars@.len(),
            *function == (PciFunctionNode { bars: function.bars, ..start }),
            forall|k: int|
                0 <= k < start.bars@.len() ==> same_bar(
                    #[trigger] function.bars@[k],
                    start.bars@[k],
                ),
            forall|k: int|
                0 <= k < start.bars@.len() ==> bar_placed(
                    #[trigger] function.bars@[k],
                    allocator@,
                ),
        decreases function.bars@.len() - i,
    {
        let ghost before = function.bars@;
        let ghost windows_before = allocator@;
        let mut resource = function.bars[i];
        assert(resource == start.bars@[i as int]);
        reserve_bar(&mut resource, allocator);
        function.bars.set(i, resource);
        proof {
            let earlier = states;
            states = states.push(allocator@);
            assert forall|k: int| 0 <= k < i + 1 implies bar_reserved(
                #[trigger] start.bars@[k],
                function.bars@[k],
                states[k],
                states[k + 1],
            ) by {
                if k < i {
                    assert(states[k] == earlier[k] && states[k + 1] == earlier[k + 1]);
                }
            }
            assert forall|k: int| 0 <= k < start.bars@.len() implies bar_placed(
                #[trigger] function.bars@[k],
                allocator@,
            ) && same_bar(function.bars@[k], start.bars@[k]) by {
                if k != i {
                    assert(function.bars@[k] == before[k]);
                    lemma_bar_kept(before[k], windows_before, allocator@);
                }
            }
        }
        i += 1;
    }
    let ghost windows_bars = allocator@;
    if let Some(bridge) = &mut function.bridge {
        proof {
            lemma_tree_kept(*start.bridge->0.downstream, windows, allocator@);
        }
        reserve_firmware_bars(&mut bridge.downstream, allocator);
    }
    proof {
        assert(leads(states, start.bars@.len() as int, windows, windows_bars));
        assert(function_reserved(start, *function, windows, allocator@));
        assert forall|k: int| 0 <= k < function.bars@.len() implies bar_placed(
            #[trigger] function.bars@[k],
            allocator@,
        ) by {
            lemma_bar_kept(function.bars@[k], windows_bars, allocator@);
        }
    }
}

/// Keeps the addresses that firmware put into the registers of a tree, as far as
/// they lie in the windows and do not overlap.
pub fn reserve_firmware_bars(node: &mut PciBusNode, allocator: &mut PciBarWindowAllocator)
    requires
        old(allocator).wf(),
        tree_placed(*old(node), old(allocator)@),
    ensures
        final(allocator).wf(),
        same_tree(*final(node), *old(node)),
        tree_placed(*final(node), final(allocator)@),
        keeps_ranges(old(allocator)@, final(allocator)@),
        tree_reserved(*old(node), *final(node), old(allocator)@, final(allocator)@),
    decreases *old(node),
{
    let ghost start = *node;
    let ghost windows = allocator@;
    let ghost mut states: Seq<Seq<WindowModel>> = seq![windows];
    proof {
        lemma_same_tree_reflexive(start);
    }
    let mut i: usize = 0;
    while i < node.functions.len()
        invariant
            i <= node.functions@.len(),
            allocator.wf(),
            keeps_ranges(windows, allocator@),
            node.bus == start.bus,
            node.functions@.len() == start.functions@.len(),
            start == *old(node),
            leads(states, i as int, windows, allocator@),
            forall|k: int|
                0 <= k < i ==> function_reserved(
                    #[trigger] start.functions@[k],
                    node.functions@[k],
                    states[k],
                    states[k + 1],
                ),
            forall|k: int|
                i <= k < start.functions@.len() ==> #[trigger] node.functions@[k]
                    == start.functions@[k],
            forall|k: int|
                0 <= k < start.functions@.len() ==> same_function(
                    #[trigger] node.functions@[k],
                    start.functions@[k],
                ),
            forall|k: int|
                0 <= k < start.functions@.len() ==> function_placed(
                    #[trigger] node.functions@[k],
                    allocator@,
                ),
        decreases node.functions@.len() - i,
    {
        let ghost before = node.functions@;
        let ghost windows_before = allocator@;
        assert(decreases_to!(start => start.functions@[i as int]));
        reserve_function_bars(&mut node.functions[i], allocator);
        proof {
            let earlier = states;
            states = states.push(allocator@);
            assert forall|k: int| 0 <= k < i + 1 implies function_reserved(
                #[trigger] start.functions@[k],
                node.functions@[k],
                states[k],
                states[k + 1],
            ) by {
                if k < i {
                    assert(node.functions@[k] == before[k]);
                    assert(states[k] == earlier[k] && states[k + 1] == earlier[k + 1]);
                }
            }
            assert forall|k: int| 0 <= k < start.functions@.len() implies function_placed(
                #[trigger] node.functions@[k],
                allocator@,
            ) && same_function(node.functions@[k], start.functions@[k]) by {
                if k != i {
                    assert(node.functions@[k] == before[k]);
                    lemma_function_kept(before[k], windows_before, allocator@);
                }
            }
        }
        i += 1;
    }
    assert(tree_reserved(start, *node, windows, allocator@));
}

/// Whether a register of the kind is an I/O register.
pub open spec fn is_io(kind: PciBarKind) -> bool {
    kind == PciBarKind::Io
}

/// The windows and the accesses so far.
#[verifier::ext_equal]
pub ghost struct PlaceState {
    pub windows: Seq<WindowModel>,
    pub log: Seq<ConfigExchange>,
}

/// What placing a register comes to. A register that has a place keeps it. Else
/// it gets room and its address is written; where there is no room, or the
/// address cannot be written, the register is cleared and has no place.
pub open spec fn bar_assigned(
    bdf: PciBdf,
    before: PciBarResource,
    after: PciBarResource,
    first: PlaceState,
    last: PlaceState,
) -> bool {
    if before.allocation is Some {
        after == before && last == first
    } else {
        exists|result: Option<PciBarAllocation>| #[trigger]
            bar::allocation_made(
                first.windows,
                last.windows,
                before.kind,
                before.width,
                before.size,
                before.size,
                result,
            ) && {
                ||| result is Some && after == (PciBarResource { allocation: result, ..before })
                    && exists|trace: Seq<ConfigExchange>| #[trigger]
                    probe::placing(trace, bdf, before, result->0.pci_address, true) && last.log
                        == first.log + trace
                ||| result is Some && after == before && exists|
                    tried: Seq<ConfigExchange>,
                    trace: Seq<ConfigExchange>,
                    ok: bool,
                | #[trigger]
                    probe::placing(tried, bdf, before, result->0.pci_address, false)
                        && #[trigger] probe::placing(trace, bdf, before, 0, ok) && last.log
                        == first.log + tried + trace
                ||| result is None && after == before && exists|
                    trace: Seq<ConfigExchange>,
                    ok: bool,
                | #[trigger]
                    probe::placing(trace, bdf, before, 0, ok) && last.log == first.log + trace
            }
    }
}

/// Places a register that has no place yet and writes its address; a register
/// that cannot be placed or written is cleared. `false` says that it has no
/// place.
pub fn assign_bar<F: FnMut(ConfigAccess) -> ConfigReply>(
    port: &mut ConfigPort<F>,
    bdf: PciBdf,
    resource: &mut PciBarResource,
    allocator: &mut PciBarWindowAllocator,
) -> (ok: bool)
    requires
        old(port).wf(),
        old(allocator).wf(),
        old(resource).index < 256,
        bar_placed(*old(resource), old(allocator)@),
    ensures
        final(port).wf(),
        final(port).performs() == old(port).performs(),
        final(allocator).wf(),
        same_bar(*final(resource), *old(resource)),
        bar_placed(*final(resource), final(allocator)@),
        keeps_ranges(old(allocator)@, final(allocator)@),
        ok == (final(resource).allocation is Some),
        bar_assigned(
            bdf,
            *old(resource),
            *final(resource),
            (PlaceState { windows: old(allocator)@, log: old(port).log() }),
            (PlaceState { windows: final(allocator)@, log: final(port).log() }),
        ),
{
    if resource.allocation.is_some() {
        return true;
    }
    let ghost bar = *resource;
    let ghost before = allocator@;
    let ghost log_before = port.log();
    let ghost first = PlaceState { windows: before, log: log_before };
    let found = allocator.allocate(resource.kind, resource.width, resource.size, resource.size);
    assert(bar::allocation_made(
        before,
        allocator@,
        resource.kind,
        resource.width,
        resource.size,
        resource.size,
        found,
    ));
    match found {
        Some(allocation) => {
            proof {
                let (pass, index) = choose|pass: int, index: int| #[trigger]
                    bar::chosen_for_allocation(
                        before,
                        resource.kind,
                        resource.width,
                        resource.size,
                        resource.size,
                        pass,
                        index,
                    ) && bar::allocated_in(
                        before,
                        allocator@,
                        resource.kind,
                        resource.width,
                        resource.size,
                        resource.size,
                        index,
                        allocation,
                    );
                let range = PciBarReservedRange {
                    start: allocation.pci_address,
                    end: (allocation.pci_address + resource.size) as u64,
                };
                lemma_range_taken(before, allocator@, index, range);
                bar::passes_keep_spaces_apart(before[index].window, resource.kind, pass);
                let placed = PciBarResource { allocation: Some(allocation), ..*resource };
                assert(placed_in(placed, allocation, allocator@[index]));
            }
            if write_bar_address(port, bdf, resource, allocation.pci_address) {
                resource.allocation = Some(allocation);
                proof {
                    let trace = choose|trace: Seq<ConfigExchange>|
                        port.log() == log_before + trace && #[trigger] probe::placing(
                            trace,
                            bdf,
                            bar,
                            allocation.pci_address,
                            true,
                        );
                    let last = PlaceState { windows: allocator@, log: port.log() };
                    assert(*resource == (PciBarResource { allocation: found, ..bar }));
                    assert(probe::placing(trace, bdf, bar, found->0.pci_address, true) && last.log
                        == first.log + trace);
                    assert(bar::allocation_made(
                        first.windows,
                        last.windows,
                        bar.kind,
                        bar.width,
                        bar.size,
                        bar.size,
                        found,
                    ));
                    assert(bar::allocation_made(
            first.windows,
            last.windows,
            bar.kind,
            bar.width,
            bar.size,
            bar.size,
            found,
        ));
        assert(bar_assigned(bdf, bar, *resource, first, last));
                }
                return true;
            }
        },
        None => {},
    }
    let ghost log_tried = port.log();
    let cleared = write_bar_address(port, bdf, resource, 0);
    proof {
        let trace = choose|trace: Seq<ConfigExchange>|
            port.log() == log_tried + trace && #[trigger] probe::placing(
                trace,
                bdf,
                *resource,
                0,
                cleared,
            );
        if found is Some {
            let tried = choose|tried: Seq<ConfigExchange>|
                log_tried == log_before + tried && #[trigger] probe::placing(
                    tried,
                    bdf,
                    *resource,
                    found->0.pci_address,
                    false,
                );
            assert(probe::placing(tried, bdf, *resource, found->0.pci_address, false));
        }
        assert(probe::placing(trace, bdf, *resource, 0, cleared));
        let last = PlaceState { windows: allocator@, log: port.log() };
        assert(bar::allocation_made(
            first.windows,
            last.windows,
            bar.kind,
            bar.width,
            bar.size,
            bar.size,
            found,
        ));
        assert(bar_assigned(bdf, bar, *resource, first, last));
    }
    false
}

/// Whether the register indices of a function are in range.
pub open spec fn indices_ok(function: PciFunctionNode) -> bool
    decreases function,
{
    &&& forall|i: int| 0 <= i < function.bars@.len() ==> (#[trigger] function.bars@[i]).index < 256
    &&& function.bridge matches Some(bridge) ==> tree_indices_ok(*bridge.downstream)
}

/// Whether the register indices of a tree are in range.
pub open spec fn tree_indices_ok(node: PciBusNode) -> bool
    decreases node,
{
    forall|i: int| 0 <= i < node.functions@.len() ==> indices_ok(#[trigger] node.functions@[i])
}

/// Placing registers does not change their numbers.
pub proof fn same_tree_keeps_indices(left: PciBusNode, right: PciBusNode)
    requires
        same_tree(left, right),
        tree_indices_ok(right),
    ensures
        tree_indices_ok(left),
    decreases left,
{
    assert forall|i: int| 0 <= i < left.functions@.len() implies indices_ok(
        #[trigger] left.functions@[i],
    ) by {
        let l = left.functions@[i];
        let r = right.functions@[i];
        assert(same_function(l, r));
        assert(indices_ok(r));
        assert forall|k: int| 0 <= k < l.bars@.len() implies (#[trigger] l.bars@[k]).index
            < 256 by {
            assert(same_bar(l.bars@[k], r.bars@[k]));
            assert(r.bars@[k].index < 256);
        }
        if l.bridge is Some {
            same_tree_keeps_indices(*l.bridge->0.downstream, *r.bridge->0.downstream);
        }
    }
}

/// Whether a function without a place for one of its registers says so.
pub open spec fn failures_noted(function: PciFunctionNode) -> bool {
    forall|i: int|
        0 <= i < function.bars@.len() ==> ((#[trigger] function.bars@[i]).allocation is None ==> if is_io(
            function.bars@[i].kind,
        ) {
            function.io_failed
        } else {
            function.memory_failed
        })
}

/// Whether every function of a tree notes its failures.
pub open spec fn tree_failures_noted(node: PciBusNode) -> bool
    decreases node,
{
    forall|i: int|
        0 <= i < node.functions@.len() ==> {
            let function = #[trigger] node.functions@[i];
            &&& failures_noted(function)
            &&& function.bridge matches Some(bridge) ==> tree_failures_noted(*bridge.downstream)
        }
}

/// Whether one of the registers of a kind has no place.
pub open spec fn unplaced(bars: Seq<PciBarResource>, io: bool) -> bool {
    exists|i: int|
        0 <= i < bars.len() && (#[trigger] bars[i]).allocation is None && is_io(bars[i].kind) == io
}

/// What placing the registers of a function comes to: its own in turn, then those
/// of everything behind it in granules of their own. A kind of which a register
/// has no place counts as failed.
pub open spec fn function_assigned(
    before: PciFunctionNode,
    after: PciFunctionNode,
    first: PlaceState,
    last: PlaceState,
) -> bool
    decreases before, 0int,
{
    &&& same_identity(before, after)
    &&& after.io_failed == (before.io_failed || unplaced(after.bars@, true))
    &&& after.memory_failed == (before.memory_failed || unplaced(after.bars@, false))
    &&& exists|states: Seq<PlaceState>, own: PlaceState| #[trigger]
        leads(states, before.bars@.len() as int, first, own) && (forall|i: int|
            0 <= i < before.bars@.len() ==> bar_assigned(
                before.bdf,
                #[trigger] before.bars@[i],
                after.bars@[i],
                states[i],
                states[i + 1],
            )) && match before.bridge {
            None => last == own,
            Some(bridge) => exists|begun: PlaceState, below: PlaceState| #[trigger]
                grouped(own, begun, below, last) && tree_assigned(
                    *bridge.downstream,
                    *after.bridge->0.downstream,
                    begun,
                    below,
                ),
        }
}

/// How the windows change round what is behind a bridge: the search starts at a
/// free granule before it, and past the granule in use after it.
pub open spec fn grouped(
    own: PlaceState,
    begun: PlaceState,
    below: PlaceState,
    last: PlaceState,
) -> bool {
    &&& begun.log == own.log
    &&& last.log == below.log
    &&& bar::group_begun(own.windows, begun.windows)
    &&& bar::group_ended(below.windows, last.windows)
}

/// What placing the registers of a tree comes to, function by function.
pub open spec fn tree_assigned(
    before: PciBusNode,
    after: PciBusNode,
    first: PlaceState,
    last: PlaceState,
) -> bool
    decreases before, 1int,
{
    &&& after.bus == before.bus
    &&& after.functions@.len() == before.functions@.len()
    &&& exists|states: Seq<PlaceState>| #[trigger]
        leads(states, before.functions@.len() as int, first, last) && forall|i: int|
            0 <= i < before.functions@.len() ==> function_assigned(
                #[trigger] before.functions@[i],
                after.functions@[i],
                states[i],
                states[i + 1],
            )
}

/// Places the registers of a function, and behind it, those of everything below
/// in granules of their own.
fn assign_function_bars<F: FnMut(ConfigAccess) -> ConfigReply>(
    port: &mut ConfigPort<F>,
    function: &mut PciFunctionNode,
    allocator: &mut PciBarWindowAllocator,
)
    requires
        old(port).wf(),
        old(allocator).wf(),
        indices_ok(*old(function)),
        function_placed(*old(function), old(allocator)@),
    ensures
        final(port).wf(),
        final(port).performs() == old(port).performs(),
        final(allocator).wf(),
        function_assigned(
            *old(function),
            *final(function),
            (PlaceState { windows: old(allocator)@, log: old(port).log() }),
            (PlaceState { windows: final(allocator)@, log: final(port).log() }),
        ),
        same_function(*final(function), *old(function)),
        function_placed(*final(function), final(allocator)@),
        keeps_ranges(old(allocator)@, final(allocator)@),
        failures_noted(*final(function)),
        final(function).bridge matches Some(bridge) ==> tree_failures_noted(*bridge.downstream),
    decreases *old(function),
{
    let ghost start = *function;
    let ghost windows = allocator@;
    let ghost log_start = port.log();
    let bdf = function.bdf;
    let ghost first = PlaceState { windows, log: log_start };
    let ghost mut states: Seq<PlaceState> = seq![first];
    let mut io_failed = false;
    let mut memory_failed = false;
    let mut i: usize = 0;
    while i < function.bars.len()
        invariant
            i <= function.bars@.len(),
            port.wf(),
            port.performs() == old(port).performs(),
            bdf == start.bdf,
            leads(
                states,
                i as int,
                first,
                (PlaceState { windows: allocator@, log: port.log() }),
            ),
            forall|k: int|
                0 <= k < i ==> bar_assigned(
                    bdf,
                    #[trigger] start.bars@[k],
                    function.bars@[k],
                    states[k],
                    states[k + 1],
                ),
            forall|k: int|
                i <= k < start.bars@.len() ==> #[trigger] function.bars@[k] == start.bars@[k],
            io_failed == unplaced(function.bars@.take(i as int), true),
            memory_failed == unplaced(function.bars@.take(i as int), false),
            allocator.wf(),
            indices_ok(start),
            keeps_ranges(windows, allocator@),
            function.bars@.len() == start.bars@.len(),
            *function == (PciFunctionNode { bars: function.bars, ..start }),
            forall|k: int|
                0 <= k < start.bars@.len() ==> same_bar(
                    #[trigger] function.bars@[k],
                    start.bars@[k],
                ),
            forall|k: int|
                0 <= k < start.bars@.len() ==> bar_placed(
                    #[trigger] function.bars@[k],
                    allocator@,
                ),
        decreases function.bars@.len() - i,
    {
        let ghost before = function.bars@;
        let ghost windows_before = allocator@;
        let mut resource = function.bars[i];
        assert(start.bars@[i as int].index < 256);
        assert(resource == start.bars@[i as int]);
        let ok = assign_bar(port, bdf, &mut resource, allocator);
        if !ok {
            match resource.kind {
                PciBarKind::Io => {
                    io_failed = true;
                },
                PciBarKind::Memory { .. } => {
                    memory_failed = true;
                },
            }
        }
        function.bars.set(i, resource);
        proof {
            let earlier = states;
            states = states.push(PlaceState { windows: allocator@, log: port.log() });
            assert forall|k: int| 0 <= k < i + 1 implies bar_assigned(
                bdf,
                #[trigger] start.bars@[k],
                function.bars@[k],
                states[k],
                states[k + 1],
            ) by {
                if k < i {
                    assert(states[k] == earlier[k] && states[k + 1] == earlier[k + 1]);
                }
            }
            assert(before.take(i as int) =~= function.bars@.take(i as int));
            lemma_unplaced_push(function.bars@.take(i as int), resource);
            assert(function.bars@.take(i + 1) =~= function.bars@.take(i as int).push(resource));
            assert forall|k: int| 0 <= k < start.bars@.len() implies bar_placed(
                #[trigger] function.bars@[k],
                allocator@,
            ) && same_bar(function.bars@[k], start.bars@[k]) by {
                if k != i {
                    assert(function.bars@[k] == before[k]);
                    lemma_bar_kept(before[k], windows_before, allocator@);
                }
            }
        }
        i += 1;
    }
    assert(function.bars@.take(i as int) =~= function.bars@);
    if io_failed {
        function.io_failed = true;
    }
    if memory_failed {
        function.memory_failed = true;
    }
    let ghost windows_bars = allocator@;
    let ghost log_bars = port.log();
    if let Some(bridge) = &mut function.bridge {
        allocator.begin_bridge_group();
        proof {
            lemma_group_keeps_ranges(windows_bars, allocator@);
            lemma_keeps_ranges_trans(windows, windows_bars, allocator@);
            lemma_tree_kept(*start.bridge->0.downstream, windows, allocator@);
        }
        let ghost windows_begun = allocator@;
        assign_missing_bars(port, &mut bridge.downstream, allocator);
        let ghost windows_below = allocator@;
        allocator.end_bridge_group();
        proof {
            lemma_group_keeps_ranges(windows_below, allocator@);
            lemma_keeps_ranges_trans(windows_begun, windows_below, allocator@);
            lemma_keeps_ranges_trans(windows, windows_begun, allocator@);
            lemma_keeps_ranges_trans(windows_bars, windows_begun, allocator@);
            lemma_tree_kept(*bridge.downstream, windows_below, allocator@);
            assert(grouped(
                (PlaceState { windows: windows_bars, log: log_bars }),
                (PlaceState { windows: windows_begun, log: log_bars }),
                (PlaceState { windows: windows_below, log: port.log() }),
                (PlaceState { windows: allocator@, log: port.log() }),
            ));
        }
    }
    proof {
        assert(leads(
            states,
            start.bars@.len() as int,
            first,
            (PlaceState { windows: windows_bars, log: log_bars }),
        ));
        assert(function_assigned(
            start,
            *function,
            first,
            (PlaceState { windows: allocator@, log: port.log() }),
        ));
        assert forall|k: int| 0 <= k < function.bars@.len() implies bar_placed(
            #[trigger] function.bars@[k],
            allocator@,
        ) by {
            lemma_bar_kept(function.bars@[k], windows_bars, allocator@);
        }
    }
}

proof fn lemma_unplaced_push(bars: Seq<PciBarResource>, bar: PciBarResource)
    ensures
        forall|io: bool| #[trigger]
            unplaced(bars.push(bar), io) == (unplaced(bars, io) || (bar.allocation is None && is_io(
                bar.kind,
            ) == io)),
{
    assert forall|io: bool| #[trigger]
        unplaced(bars.push(bar), io) == (unplaced(bars, io) || (bar.allocation is None && is_io(
            bar.kind,
        ) == io)) by {
        let all = bars.push(bar);
        assert(all[bars.len() as int] == bar);
        if unplaced(bars, io) {
            let i = choose|i: int|
                0 <= i < bars.len() && (#[trigger] bars[i]).allocation is None && is_io(
                    bars[i].kind,
                ) == io;
            assert(all[i] == bars[i]);
        }
        if unplaced(all, io) {
            let i = choose|i: int|
                0 <= i < all.len() && (#[trigger] all[i]).allocation is None && is_io(all[i].kind)
                    == io;
            if i < bars.len() {
                assert(all[i] == bars[i]);
            }
        }
    }
}

proof fn lemma_keeps_ranges_trans(
    first: Seq<WindowModel>,
    second: Seq<WindowModel>,
    third: Seq<WindowModel>,
)
    requires
        keeps_ranges(first, second),
        keeps_ranges(second, third),
    ensures
        keeps_ranges(first, third),
{
    assert forall|w: int| 0 <= w < first.len() implies {
        &&& (#[trigger] third[w]).window == first[w].window
        &&& forall|range: PciBarReservedRange|
            first[w].reserved.contains(range) ==> #[trigger] third[w].reserved.contains(range)
    } by {
        assert(second[w].window == first[w].window);
        assert forall|range: PciBarReservedRange|
            first[w].reserved.contains(range) implies #[trigger] third[w].reserved.contains(range) by {
            assert(second[w].reserved.contains(range));
        }
    }
}

proof fn lemma_group_keeps_ranges(before: Seq<WindowModel>, after: Seq<WindowModel>)
    requires
        before.len() == after.len(),
        forall|i: int|
            0 <= i < before.len() ==> #[trigger] after[i] == (WindowModel {
                next: after[i].next,
                ..before[i]
            }),
    ensures
        keeps_ranges(before, after),
{
}

/// Places every register of a tree that has no place yet.
pub fn assign_missing_bars<F: FnMut(ConfigAccess) -> ConfigReply>(
    port: &mut ConfigPort<F>,
    node: &mut PciBusNode,
    allocator: &mut PciBarWindowAllocator,
)
    requires
        old(port).wf(),
        old(allocator).wf(),
        tree_indices_ok(*old(node)),
        tree_placed(*old(node), old(allocator)@),
    ensures
        final(port).wf(),
        final(port).performs() == old(port).performs(),
        final(allocator).wf(),
        tree_assigned(
            *old(node),
            *final(node),
            (PlaceState { windows: old(allocator)@, log: old(port).log() }),
            (PlaceState { windows: final(allocator)@, log: final(port).log() }),
        ),
        same_tree(*final(node), *old(node)),
        tree_placed(*final(node), final(allocator)@),
        keeps_ranges(old(allocator)@, final(allocator)@),
        tree_failures_noted(*final(node)),
    decreases *old(node),
{
    let ghost start = *node;
    let ghost windows = allocator@;
    let ghost log_start = port.log();
    let ghost first = PlaceState { windows, log: log_start };
    let ghost mut states: Seq<PlaceState> = seq![first];
    proof {
        lemma_same_tree_reflexive(start);
    }
    let mut i: usize = 0;
    while i < node.functions.len()
        invariant
            i <= node.functions@.len(),
            port.wf(),
            port.performs() == old(port).performs(),
            leads(
                states,
                i as int,
                first,
                (PlaceState { windows: allocator@, log: port.log() }),
            ),
            forall|k: int|
                0 <= k < i ==> function_assigned(
                    #[trigger] start.functions@[k],
                    node.functions@[k],
                    states[k],
                    states[k + 1],
                ),
            allocator.wf(),
            tree_indices_ok(start),
            keeps_ranges(windows, allocator@),
            node.bus == start.bus,
            node.functions@.len() == start.functions@.len(),
            start == *old(node),
            forall|k: int|
                i <= k < start.functions@.len() ==> #[trigger] node.functions@[k]
                    == start.functions@[k],
            forall|k: int|
                0 <= k < start.functions@.len() ==> same_function(
                    #[trigger] node.functions@[k],
                    start.functions@[k],
                ),
            forall|k: int|
                0 <= k < start.functions@.len() ==> function_placed(
                    #[trigger] node.functions@[k],
                    allocator@,
                ),
            forall|k: int|
                0 <= k < i ==> {
                    let function = #[trigger] node.functions@[k];
                    &&& failures_noted(function)
                    &&& function.bridge matches Some(bridge) ==> tree_failures_noted(
                        *bridge.downstream,
                    )
                },
        decreases node.functions@.len() - i,
    {
        let ghost before = node.functions@;
        let ghost windows_before = allocator@;
        let ghost log_before = port.log();
        assert(decreases_to!(start => start.functions@[i as int]));
        assert(indices_ok(start.functions@[i as int]));
        assign_function_bars(port, &mut node.functions[i], allocator);
        proof {
            let earlier = states;
            states = states.push(PlaceState { windows: allocator@, log: port.log() });
            assert forall|k: int| 0 <= k < i + 1 implies function_assigned(
                #[trigger] start.functions@[k],
                node.functions@[k],
                states[k],
                states[k + 1],
            ) by {
                if k < i {
                    assert(node.functions@[k] == before[k]);
                    assert(states[k] == earlier[k] && states[k + 1] == earlier[k + 1]);
                }
            }
            lemma_keeps_ranges_trans(windows, windows_before, allocator@);
            assert forall|k: int| 0 <= k < start.functions@.len() implies function_placed(
                #[trigger] node.functions@[k],
                allocator@,
            ) && same_function(node.functions@[k], start.functions@[k]) by {
                if k != i {
                    assert(node.functions@[k] == before[k]);
                    lemma_function_kept(before[k], windows_before, allocator@);
                }
            }
        }
        i += 1;
    }
    assert(tree_assigned(
        start,
        *node,
        first,
        (PlaceState { windows: allocator@, log: port.log() }),
    ));
}

/// The space that a register counts to.
pub open spec fn space_of(kind: PciBarKind) -> PciResourceSpace {
    match kind {
        PciBarKind::Io => PciResourceSpace::Io,
        PciBarKind::Memory { prefetchable } => if prefetchable {
            PciResourceSpace::PrefetchableMemory
        } else {
            PciResourceSpace::Memory
        },
    }
}

/// The envelope with one more register.
pub open spec fn envelope_with(envelope: PciResourceEnvelope, bar: PciBarResource) -> PciResourceEnvelope {
    match bar.allocation {
        Some(allocation) => if bar.size != 0 && allocation.pci_address + bar.size <= u64::MAX {
            envelope.grown(
                space_of(bar.kind),
                PciResourceRange {
                    start: allocation.pci_address,
                    end: (allocation.pci_address + bar.size) as u64,
                },
            )
        } else {
            envelope
        },
        None => envelope,
    }
}

/// The envelope of the registers of a function.
pub open spec fn envelope_of(bars: Seq<PciBarResource>) -> PciResourceEnvelope
    decreases bars.len(),
{
    if bars.len() == 0 {
        PciResourceEnvelope { io: None, memory: None, prefetchable: None }
    } else {
        envelope_with(envelope_of(bars.drop_last()), bars.last())
    }
}

/// The envelope of the registers of a function.
pub fn function_resource_envelope(function: &PciFunctionNode) -> (envelope: PciResourceEnvelope)
    ensures
        envelope == envelope_of(function.bars@),
{
    let mut resources = PciResourceEnvelope::default();
    let mut i: usize = 0;
    assert(function.bars@.take(0) =~= Seq::empty());
    while i < function.bars.len()
        invariant
            i <= function.bars@.len(),
            resources == envelope_of(function.bars@.take(i as int)),
        decreases function.bars@.len() - i,
    {
        assert(function.bars@.take(i + 1).drop_last() =~= function.bars@.take(i as int));
        let resource = function.bars[i];
        if let Some(allocation) = resource.allocation {
            let space = match resource.kind {
                PciBarKind::Io => PciResourceSpace::Io,
                PciBarKind::Memory { prefetchable } => if prefetchable {
                    PciResourceSpace::PrefetchableMemory
                } else {
                    PciResourceSpace::Memory
                },
            };
            let _ = resources.include_resource(space, allocation.pci_address, resource.size);
        }
        i += 1;
    }
    assert(function.bars@.take(i as int) =~= function.bars@);
    resources
}

/// Every register that was placed lies in the envelope of its function.
pub proof fn envelope_holds_every_bar(bars: Seq<PciBarResource>, i: int, address: int)
    requires
        0 <= i < bars.len(),
        bars[i].allocation is Some,
        bars[i].allocation->0.pci_address + bars[i].size <= u64::MAX,
        bars[i].allocation->0.pci_address <= address < bars[i].allocation->0.pci_address
            + bars[i].size,
    ensures
        envelope_of(bars).of(space_of(bars[i].kind)) is Some,
        envelope_of(bars).of(space_of(bars[i].kind))->0.holds(address),
    decreases bars.len(),
{
    if i < bars.len() - 1 {
        envelope_holds_every_bar(bars.drop_last(), i, address);
    }
}

/// The command register of a function once its resources are set up: decoding
/// of a space is switched on where nothing of it failed and it is needed, or
/// where the function has no register of it and had it on.
pub open spec fn command_for(
    function: PciFunctionNode,
    original: u16,
    io_needed: bool,
    memory_needed: bool,
) -> u16 {
    let io = !function.io_failed && (io_needed || (!function.saw_io_bar && original % 2 == 1));
    let memory = !function.memory_failed && (memory_needed || (!function.saw_memory_bar && original
        / 2 % 2 == 1));
    (original / 4 * 4 + (if io {
        1int
    } else {
        0
    }) + (if memory {
        2int
    } else {
        0
    })) as u16
}

/// The command register of a function once its resources are set up.
pub fn final_command(
    function: &PciFunctionNode,
    original: u16,
    io_needed: bool,
    memory_needed: bool,
) -> (command: u16)
    ensures
        command == command_for(*function, original, io_needed, memory_needed),
{
    let mut command: u16 = original / 4 * 4;
    if !function.io_failed && (io_needed || (!function.saw_io_bar && original % 2 == 1)) {
        command = command + 1;
    }
    if !function.memory_failed && (memory_needed || (!function.saw_memory_bar && original / 2 % 2
        == 1)) {
        command = command + 2;
    }
    command
}

/// A function that failed in a space never decodes it.
pub proof fn failed_space_stays_off(
    function: PciFunctionNode,
    original: u16,
    io_needed: bool,
    memory_needed: bool,
)
    ensures
        function.io_failed ==> command_for(function, original, io_needed, memory_needed) % 2 == 0,
        function.memory_failed ==> command_for(function, original, io_needed, memory_needed) / 2 % 2
            == 0,
        command_for(function, original, io_needed, memory_needed) / 4 == original / 4,
{
}

/// Whether `trace` writes the registers in turn, up to the first that fails.
pub open spec fn written(trace: Seq<ConfigExchange>, writes: Seq<ConfigAccess>, ok: bool) -> bool {
    &&& trace.len() <= writes.len()
    &&& ok ==> trace.len() == writes.len()
    &&& !ok ==> trace.len() > 0
    &&& forall|i: int|
        0 <= i < trace.len() ==> #[trigger] trace[i] == (ConfigExchange {
            access: writes[i],
            reply: config_port::done_reply(ok || i < trace.len() - 1),
        })
}

/// The writes that open the I/O window of a bridge.
pub open spec fn io_writes(bdf: PciBdf, window: PciBridgeIoWindow) -> Seq<ConfigAccess> {
    seq![
        ConfigAccess::Write16(
            bdf,
            PCI_BRIDGE_IO_BASE_LIMIT,
            (window.base_low + window.limit_low * 0x100) as u16,
        ),
        ConfigAccess::Write32(
            bdf,
            PCI_BRIDGE_IO_BASE_LIMIT_UPPER,
            (window.base_upper + window.limit_upper * 0x1_0000) as u32,
        ),
    ]
}

/// The write that opens the memory window of a bridge.
pub open spec fn memory_writes(bdf: PciBdf, window: PciBridgeMemoryWindow) -> Seq<ConfigAccess> {
    seq![
        ConfigAccess::Write32(
            bdf,
            PCI_BRIDGE_MEMORY_BASE_LIMIT,
            (window.base + window.limit * 0x1_0000) as u32,
        ),
    ]
}

/// The writes that open the prefetchable window of a bridge.
pub open spec fn prefetch_writes(bdf: PciBdf, window: PciBridgePrefetchWindow) -> Seq<ConfigAccess> {
    seq![
        ConfigAccess::Write32(
            bdf,
            PCI_BRIDGE_PREFETCH_BASE_LIMIT,
            (window.base + window.limit * 0x1_0000) as u32,
        ),
        ConfigAccess::Write32(bdf, PCI_BRIDGE_PREFETCH_BASE_UPPER, window.base_upper),
        ConfigAccess::Write32(bdf, PCI_BRIDGE_PREFETCH_LIMIT_UPPER, window.limit_upper),
    ]
}

/// What opening a window comes to: a sibling that forwards a part of it stops
/// it before anything is written.
pub open spec fn programmed(
    before: Seq<ConfigExchange>,
    after: Seq<ConfigExchange>,
    taken: topology::Apertures,
    now: topology::Apertures,
    space: PciResourceSpace,
    forwarded: PciResourceRange,
    writes: Seq<ConfigAccess>,
    ok: bool,
) -> bool {
    if taken.free(space, forwarded) {
        &&& now == taken.with(space, forwarded)
        &&& exists|trace: Seq<ConfigExchange>|
            after == before + trace && #[trigger] written(trace, writes, ok)
    } else {
        !ok && now == taken && after == before
    }
}

/// Opens the I/O window of a bridge, unless a sibling forwards a part of it.
pub fn program_io_aperture<F: FnMut(ConfigAccess) -> ConfigReply>(
    port: &mut ConfigPort<F>,
    bdf: PciBdf,
    window: PciBridgeIoWindow,
    apertures: &mut PciBridgeApertureTracker,
) -> (ok: bool)
    requires
        old(port).wf(),
        old(apertures).wf(),
    ensures
        final(port).wf(),
        final(port).performs() == old(port).performs(),
        final(apertures).wf(),
        programmed(
            old(port).log(),
            final(port).log(),
            old(apertures)@,
            final(apertures)@,
            PciResourceSpace::Io,
            window.forwarded,
            io_writes(bdf, window),
            ok,
        ),
{
    let ghost before = port.log();
    if !apertures.reserve(PciResourceSpace::Io, window.forwarded) {
        return false;
    }
    let lower: u16 = window.base_low as u16 + window.limit_low as u16 * 0x100;
    let upper: u32 = window.base_upper as u32 + window.limit_upper as u32 * 0x1_0000;
    if !port.write16(bdf, PCI_BRIDGE_IO_BASE_LIMIT, lower) {
        proof {
            let trace = seq![config_port::cw16(bdf, PCI_BRIDGE_IO_BASE_LIMIT, lower, false)];
            assert(port.log() =~= before + trace);
            assert(written(trace, io_writes(bdf, window), false));
        }
        return false;
    }
    let ok = port.write32(bdf, PCI_BRIDGE_IO_BASE_LIMIT_UPPER, upper);
    proof {
        let trace = seq![
            config_port::cw16(bdf, PCI_BRIDGE_IO_BASE_LIMIT, lower, true),
            config_port::cw32(bdf, PCI_BRIDGE_IO_BASE_LIMIT_UPPER, upper, ok),
        ];
        assert(port.log() =~= before + trace);
        assert(written(trace, io_writes(bdf, window), ok));
    }
    ok
}

/// Opens the memory window of a bridge, unless a sibling forwards a part of it.
pub fn program_memory_aperture<F: FnMut(ConfigAccess) -> ConfigReply>(
    port: &mut ConfigPort<F>,
    bdf: PciBdf,
    window: PciBridgeMemoryWindow,
    apertures: &mut PciBridgeApertureTracker,
) -> (ok: bool)
    requires
        old(port).wf(),
        old(apertures).wf(),
    ensures
        final(port).wf(),
        final(port).performs() == old(port).performs(),
        final(apertures).wf(),
        programmed(
            old(port).log(),
            final(port).log(),
            old(apertures)@,
            final(apertures)@,
            PciResourceSpace::Memory,
            window.forwarded,
            memory_writes(bdf, window),
            ok,
        ),
{
    let ghost before = port.log();
    if !apertures.reserve(PciResourceSpace::Memory, window.forwarded) {
        return false;
    }
    let value: u32 = window.base as u32 + window.limit as u32 * 0x1_0000;
    let ok = port.write32(bdf, PCI_BRIDGE_MEMORY_BASE_LIMIT, value);
    proof {
        let trace = seq![config_port::cw32(bdf, PCI_BRIDGE_MEMORY_BASE_LIMIT, value, ok)];
        assert(port.log() =~= before + trace);
        assert(written(trace, memory_writes(bdf, window), ok));
    }
    ok
}

/// Opens the prefetchable window of a bridge, unless a sibling forwards a part
/// of it. Writing stops at the first register that fails.
pub fn program_prefetch_aperture<F: FnMut(ConfigAccess) -> ConfigReply>(
    port: &mut ConfigPort<F>,
    bdf: PciBdf,
    window: PciBridgePrefetchWindow,
    apertures: &mut PciBridgeApertureTracker,
) -> (ok: bool)
    requires
        old(port).wf(),
        old(apertures).wf(),
    ensures
        final(port).wf(),
        final(port).performs() == old(port).performs(),
        final(apertures).wf(),
        programmed(
            old(port).log(),
            final(port).log(),
            old(apertures)@,
            final(apertures)@,
            PciResourceSpace::PrefetchableMemory,
            window.forwarded,
            prefetch_writes(bdf, window),
            ok,
        ),
{
    let ghost before = port.log();
    if !apertures.reserve(PciResourceSpace::PrefetchableMemory, window.forwarded) {
        return false;
    }
    let lower: u32 = window.base as u32 + window.limit as u32 * 0x1_0000;
    let ghost first = config_port::cw32(bdf, PCI_BRIDGE_PREFETCH_BASE_LIMIT, lower, true);
    let ghost second = config_port::cw32(
        bdf,
        PCI_BRIDGE_PREFETCH_BASE_UPPER,
        window.base_upper,
        true,
    );
    if !port.write32(bdf, PCI_BRIDGE_PREFETCH_BASE_LIMIT, lower) {
        proof {
            let trace = seq![config_port::cw32(bdf, PCI_BRIDGE_PREFETCH_BASE_LIMIT, lower, false)];
            assert(port.log() =~= before + trace);
            assert(written(trace, prefetch_writes(bdf, window), false));
        }
        return false;
    }
    if !port.write32(bdf, PCI_BRIDGE_PREFETCH_BASE_UPPER, window.base_upper) {
        proof {
            let trace = seq![
                first,
                config_port::cw32(bdf, PCI_BRIDGE_PREFETCH_BASE_UPPER, window.base_upper, false),
            ];
            assert(port.log() =~= before + trace);
            assert(written(trace, prefetch_writes(bdf, window), false));
        }
        return false;
    }
    let ok = port.write32(bdf, PCI_BRIDGE_PREFETCH_LIMIT_UPPER, window.limit_upper);
    proof {
        let trace = seq![
            first,
            second,
            config_port::cw32(bdf, PCI_BRIDGE_PREFETCH_LIMIT_UPPER, window.limit_upper, ok),
        ];
        assert(port.log() =~= before + trace);
        assert(written(trace, prefetch_writes(bdf, window), ok));
    }
    ok
}

} // verus!
