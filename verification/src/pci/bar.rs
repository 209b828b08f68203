//! Host windows and the allocator of base address registers.
//!
//! A window maps a range of PCI addresses to CPU addresses; the two are kept
//! apart. The allocator keeps the ranges in use per window: ranges that
//! firmware set up are reserved first, new ones go into the holes.

use vstd::prelude::*;
use crate::align;
use crate::align::{align_up, is_power_of_two};

verus! {

pub const PCI_32BIT_ADDRESS_END: u64 = 0x1_0000_0000;

pub const PCI_20BIT_ADDRESS_END: u64 = 0x10_0000;

pub const PCI_BRIDGE_IO_GRANULARITY: u64 = 0x1000;

pub const PCI_BRIDGE_MEMORY_GRANULARITY: u64 = 0x10_0000;

#[derive(Clone, Copy, Debug, PartialEq, Eq, Structural)]
pub enum PciBarWindowSpace {
    Io,
    Memory,
    PrefetchableMemory,
}

#[derive(Clone, Copy, Debug, PartialEq, Eq, Structural)]
pub enum PciBarKind {
    Io,
    Memory { prefetchable: bool },
}

/// How wide an address a memory register can hold.
#[derive(Clone, Copy, Debug, PartialEq, Eq, Structural)]
pub enum PciBarAddressWidth {
    /// Legacy registers below one MiB.
    Bits20,
    Bits32,
    Bits64,
}

impl PciBarAddressWidth {
    /// First address that the register cannot hold.
    pub open spec fn end_address(self) -> u64 {
        match self {
            PciBarAddressWidth::Bits20 => PCI_20BIT_ADDRESS_END,
            PciBarAddressWidth::Bits32 => PCI_32BIT_ADDRESS_END,
            PciBarAddressWidth::Bits64 => u64::MAX,
        }
    }

    /// First address that the register cannot hold.
    pub fn address_end(self) -> (end: u64)
        ensures
            end == self.end_address(),
    {
        match self {
            PciBarAddressWidth::Bits20 => PCI_20BIT_ADDRESS_END,
            PciBarAddressWidth::Bits32 => PCI_32BIT_ADDRESS_END,
            PciBarAddressWidth::Bits64 => u64::MAX,
        }
    }
}

/// Size of a legacy 20-bit memory register by the value that it reads back
/// after all ones were written. Only bits 4 to 19 belong to the address, so a
/// register that covers the whole first MiB reads back zero there.
pub fn probed_20bit_memory_bar_size(value: u32) -> (size: u64)
    ensures
        size == 0x10_0000 - (value % 0x10_0000) / 0x10 * 0x10,
        0x10 <= size <= 0x10_0000,
        size % 0x10 == 0,
{
    let address_bits: u32 = value % 0x10_0000 / 0x10 * 0x10;
    0x10_0000 - address_bits as u64
}

/// A range of PCI addresses and where the CPU sees it.
#[derive(Clone, Copy, Debug, PartialEq, Eq, Structural)]
pub struct PciBarRuntimeWindow {
    pub space: PciBarWindowSpace,
    pub pci_start: u64,
    pub pci_end: u64,
    pub cpu_start: usize,
}

impl PciBarRuntimeWindow {
    /// A window is not empty and ends inside both address ranges.
    pub open spec fn wf(self) -> bool {
        &&& self.pci_start < self.pci_end
        &&& self.cpu_start + (self.pci_end - self.pci_start) <= usize::MAX
    }

    pub fn new(space: PciBarWindowSpace, pci_start: u64, cpu_start: usize, size: usize) -> (result:
        Option<Self>)
        ensures
            result is Some <==> size != 0 && pci_start + size <= u64::MAX && cpu_start + size
                <= usize::MAX,
            result matches Some(window) ==> window.wf() && window == (PciBarRuntimeWindow {
                space,
                pci_start,
                pci_end: (pci_start + size) as u64,
                cpu_start,
            }),
    {
        if size == 0 {
            return None;
        }
        match pci_start.checked_add(size as u64) {
            Some(pci_end) => match cpu_start.checked_add(size) {
                Some(_) => Some(PciBarRuntimeWindow { space, pci_start, pci_end, cpu_start }),
                None => None,
            },
            None => None,
        }
    }

    pub fn size(self) -> (size: u64)
        requires
            self.wf(),
        ensures
            size == self.pci_end - self.pci_start,
    {
        self.pci_end - self.pci_start
    }

    /// Whether a register of the kind may lie in the window: never across
    /// spaces, and only prefetchable memory in prefetchable windows.
    pub open spec fn takes(self, kind: PciBarKind) -> bool {
        match kind {
            PciBarKind::Io => self.space == PciBarWindowSpace::Io,
            PciBarKind::Memory { prefetchable } => self.space == PciBarWindowSpace::Memory || (
            prefetchable && self.space == PciBarWindowSpace::PrefetchableMemory),
        }
    }

    pub fn accepts(self, kind: PciBarKind) -> (accepted: bool)
        ensures
            accepted == self.takes(kind),
    {
        match kind {
            PciBarKind::Io => self.space == PciBarWindowSpace::Io,
            PciBarKind::Memory { prefetchable } => self.space == PciBarWindowSpace::Memory || (
            prefetchable && self.space == PciBarWindowSpace::PrefetchableMemory),
        }
    }

    /// The CPU address of a range inside the window.
    pub fn cpu_address(self, pci_address: u64, size: u64) -> (result: Option<usize>)
        ensures
            result is Some <==> {
                &&& self.pci_start <= pci_address
                &&& pci_address + size <= self.pci_end
                &&& self.cpu_start + (pci_address - self.pci_start) <= usize::MAX
            },
            result matches Some(cpu) ==> cpu == self.cpu_start + (pci_address - self.pci_start),
    {
        let end: u64 = match pci_address.checked_add(size) {
            Some(end) => end,
            None => {
                return None;
            },
        };
        if pci_address < self.pci_start || end > self.pci_end {
            return None;
        }
        let offset: u64 = pci_address - self.pci_start;
        if offset > usize::MAX as u64 {
            return None;
        }
        self.cpu_start.checked_add(offset as usize)
    }
}

/// Where a register was placed.
#[derive(Clone, Copy, Debug, PartialEq, Eq, Structural)]
pub struct PciBarAllocation {
    pub pci_address: u64,
    pub cpu_address: usize,
    pub space: PciBarWindowSpace,
}

/// A range in use.
#[derive(Clone, Copy, Debug, PartialEq, Eq, Structural)]
pub struct PciBarReservedRange {
    pub start: u64,
    pub end: u64,
}

/// Whether two half-open ranges have an address in common.
pub open spec fn overlap(left: PciBarReservedRange, right: PciBarReservedRange) -> bool {
    left.start < right.end && right.start < left.end
}

pub fn ranges_overlap(left: PciBarReservedRange, right: PciBarReservedRange) -> (result: bool)
    ensures
        result == overlap(left, right),
{
    left.start < right.end && right.start < left.end
}

struct PciBarAllocationWindow {
    window: PciBarRuntimeWindow,
    reserved: Vec<PciBarReservedRange>,
    next: u64,
}

/// Model of one window of the allocator: the window, the ranges in use in
/// order, and where the search for a free range begins.
pub ghost struct WindowModel {
    pub window: PciBarRuntimeWindow,
    pub reserved: Seq<PciBarReservedRange>,
    pub next: u64,
}

impl View for PciBarAllocationWindow {
    type V = WindowModel;

    closed spec fn view(&self) -> WindowModel {
        WindowModel { window: self.window, reserved: self.reserved@, next: self.next }
    }
}

impl WindowModel {
    /// Ranges in use are not empty, lie inside the window, are in order and
    /// pairwise disjoint; the search begins inside the window.
    pub open spec fn wf(self) -> bool {
        &&& self.window.wf()
        &&& self.window.pci_start <= self.next <= self.window.pci_end
        &&& ordered(self.reserved)
        &&& forall|i: int|
            0 <= i < self.reserved.len() ==> self.window.pci_start <= (
            #[trigger] self.reserved[i]).start && self.reserved[i].end <= self.window.pci_end
    }
}

/// Ranges that are not empty, in order, and pairwise disjoint.
pub open spec fn ordered(reserved: Seq<PciBarReservedRange>) -> bool {
    &&& forall|i: int|
        0 <= i < reserved.len() ==> (#[trigger] reserved[i]).start < reserved[i].end
    &&& forall|i: int, j: int|
        0 <= i < j < reserved.len() ==> (#[trigger] reserved[i]).end <= (
        #[trigger] reserved[j]).start
}

/// Whether `[start, start + size)` has nothing in common with a range in use.
pub open spec fn is_free(reserved: Seq<PciBarReservedRange>, start: int, size: int) -> bool {
    forall|i: int|
        0 <= i < reserved.len() ==> start + size <= (#[trigger] reserved[i]).start
            || reserved[i].end <= start
}

/// Whether a range of `size` may begin at `start`: not before `from`, aligned,
/// ending at `end` or before, and free.
pub open spec fn fits(
    reserved: Seq<PciBarReservedRange>,
    from: int,
    size: int,
    alignment: int,
    end: int,
    start: int,
) -> bool {
    &&& from <= start
    &&& start % alignment == 0
    &&& start + size <= end
    &&& is_free(reserved, start, size)
}

/// Whether `start` is the lowest place that fits.
pub open spec fn lowest_fit(
    reserved: Seq<PciBarReservedRange>,
    from: int,
    size: int,
    alignment: int,
    end: int,
    start: int,
) -> bool {
    &&& fits(reserved, from, size, alignment, end, start)
    &&& forall|other: int|
        #[trigger] fits(reserved, from, size, alignment, end, other) ==> start <= other
}

/// Whether any place fits.
pub open spec fn has_room(
    reserved: Seq<PciBarReservedRange>,
    from: int,
    size: int,
    alignment: int,
    end: int,
) -> bool {
    exists|start: int| fits(reserved, from, size, alignment, end, start)
}

/// A request has a size, and an alignment that is a power of two.
pub open spec fn request_valid(size: u64, alignment: u64) -> bool {
    size != 0 && align::power_of_two(alignment as int)
}

pub fn valid_request(size: u64, alignment: u64) -> (valid: bool)
    ensures
        valid == request_valid(size, alignment),
        valid ==> alignment > 0,
{
    size != 0 && alignment != 0 && is_power_of_two(alignment)
}

/// Granularity of the windows that a bridge forwards.
pub open spec fn granularity_of(space: PciBarWindowSpace) -> u64 {
    match space {
        PciBarWindowSpace::Io => PCI_BRIDGE_IO_GRANULARITY,
        _ => PCI_BRIDGE_MEMORY_GRANULARITY,
    }
}

pub fn bridge_granularity(space: PciBarWindowSpace) -> (granularity: u64)
    ensures
        granularity == granularity_of(space),
        granularity > 0,
{
    match space {
        PciBarWindowSpace::Io => PCI_BRIDGE_IO_GRANULARITY,
        _ => PCI_BRIDGE_MEMORY_GRANULARITY,
    }
}

/// End of the part of the window that the register can address.
pub open spec fn usable_end(
    window: PciBarRuntimeWindow,
    kind: PciBarKind,
    width: PciBarAddressWidth,
) -> u64 {
    let limit = match kind {
        PciBarKind::Io => PCI_32BIT_ADDRESS_END,
        PciBarKind::Memory { .. } => width.end_address(),
    };
    if window.pci_end < limit {
        window.pci_end
    } else {
        limit
    }
}

pub fn usable_address_end(
    window: PciBarRuntimeWindow,
    kind: PciBarKind,
    width: PciBarAddressWidth,
) -> (end: u64)
    ensures
        end == usable_end(window, kind, width),
{
    let limit: u64 = match kind {
        PciBarKind::Io => PCI_32BIT_ADDRESS_END,
        PciBarKind::Memory { .. } => width.address_end(),
    };
    if window.pci_end < limit {
        window.pci_end
    } else {
        limit
    }
}

/// How often the windows are gone through: prefetchable memory tries the
/// prefetchable windows first and plain memory windows after that.
pub open spec fn pass_count(kind: PciBarKind) -> int {
    if kind == (PciBarKind::Memory { prefetchable: true }) {
        2
    } else {
        1
    }
}

/// The space that is looked for in a pass.
pub open spec fn pass_space(kind: PciBarKind, pass: int) -> PciBarWindowSpace {
    match kind {
        PciBarKind::Io => PciBarWindowSpace::Io,
        PciBarKind::Memory { prefetchable } => if prefetchable && pass == 0 {
            PciBarWindowSpace::PrefetchableMemory
        } else {
            PciBarWindowSpace::Memory
        },
    }
}

pub fn window_matches_pass(window: PciBarRuntimeWindow, kind: PciBarKind, pass: usize) -> (matches:
    bool)
    ensures
        matches == (window.space == pass_space(kind, pass as int)),
{
    match kind {
        PciBarKind::Io => window.space == PciBarWindowSpace::Io,
        PciBarKind::Memory { prefetchable } => if prefetchable && pass == 0 {
            window.space == PciBarWindowSpace::PrefetchableMemory
        } else {
            window.space == PciBarWindowSpace::Memory
        },
    }
}

/// Whether a window has room for a new range.
pub open spec fn window_has_room(
    state: WindowModel,
    kind: PciBarKind,
    width: PciBarAddressWidth,
    size: u64,
    alignment: u64,
) -> bool {
    has_room(
        state.reserved,
        state.next as int,
        size as int,
        alignment as int,
        usable_end(state.window, kind, width) as int,
    )
}

/// The lowest free range from `next` on.
fn first_free_range(
    state: &PciBarAllocationWindow,
    size: u64,
    alignment: u64,
    address_end: u64,
) -> (result: Option<PciBarReservedRange>)
    requires
        state@.wf(),
        size > 0,
        alignment > 0,
        align::power_of_two(alignment as int),
    ensures
        match result {
            Some(range) => range.end == range.start + size && lowest_fit(
                state@.reserved,
                state@.next as int,
                size as int,
                alignment as int,
                address_end as int,
                range.start as int,
            ),
            None => !has_room(
                state@.reserved,
                state@.next as int,
                size as int,
                alignment as int,
                address_end as int,
            ),
        },
{
    let from: u64 = state.next;
    let ghost reserved = state.reserved@;
    let mut candidate: u64 = match align_up(from, alignment) {
        Some(candidate) => candidate,
        None => {
            assert forall|start: int| #[trigger] fits(
                reserved,
                from as int,
                size as int,
                alignment as int,
                address_end as int,
                start,
            ) implies false by {
                align::lemma_no_multiple_left(from as int, alignment as int, start);
            }
            return None;
        },
    };
    proof {
        assert forall|start: int|
            from <= start < candidate && start % (alignment as int) == 0 implies #[trigger] blocked(
            reserved,
            0,
            start,
            size as int,
        ) by {
            align::lemma_aligned_up_is_least(
                from as int,
                alignment as int,
                candidate as int,
                start,
            );
        }
    }
    let mut i: usize = 0;
    while i < state.reserved.len()
        invariant_except_break
            0 <= i <= reserved.len(),
            forall|j: int| 0 <= j < i ==> (#[trigger] reserved[j]).end <= candidate,
        invariant
            reserved == state.reserved@,
            ordered(reserved),
            size > 0,
            alignment > 0,
            align::power_of_two(alignment as int),
            candidate % alignment == 0,
            from <= candidate,
            0 <= i <= reserved.len(),
            forall|start: int|
                from <= start < candidate && start % (alignment as int) == 0 ==> #[trigger] blocked(
                    reserved,
                    i as int,
                    start,
                    size as int,
                ),
            from == state@.next,
            reserved == state@.reserved,
        ensures
            candidate + size > u64::MAX || is_free(reserved, candidate as int, size as int),
        decreases reserved.len() - i,
    {
        let current = state.reserved[i];
        let end: u64 = match candidate.checked_add(size) {
            Some(end) => end,
            None => {
                proof {
                    lemma_nothing_fits(
                        reserved,
                        from as int,
                        size as int,
                        alignment as int,
                        address_end as int,
                        candidate as int,
                        i as int,
                    );
                }
                return None;
            },
        };
        if end <= current.start {
            assert forall|j: int| 0 <= j < reserved.len() implies candidate + size <= (
            #[trigger] reserved[j]).start || reserved[j].end <= candidate by {
                if j > i {
                    assert(reserved[i as int].end <= reserved[j].start);
                }
            }
            break ;
        }
        let ghost before = candidate;
        if candidate < current.end {
            candidate = match align_up(current.end, alignment) {
                Some(next) => next,
                None => {
                    proof {
                        assert forall|start: int| #[trigger] fits(
                            reserved,
                            from as int,
                            size as int,
                            alignment as int,
                            address_end as int,
                            start,
                        ) implies false by {
                            if start >= current.end {
                                align::lemma_no_multiple_left(
                                    current.end as int,
                                    alignment as int,
                                    start,
                                );
                            } else if start >= before {
                                assert(reserved[i as int] == current);
                            } else {
                                assert(blocked(reserved, i as int, start, size as int));
                            }
                        }
                    }
                    return None;
                },
            };
        }
        proof {
            assert forall|start: int|
                from <= start < candidate && start % (alignment as int)
                    == 0 implies #[trigger] blocked(reserved, i + 1, start, size as int) by {
                if start < before {
                    assert(blocked(reserved, i as int, start, size as int));
                } else {
                    if start >= current.end {
                        align::lemma_aligned_up_is_least(
                            current.end as int,
                            alignment as int,
                            candidate as int,
                            start,
                        );
                    }
                    assert(hits(reserved[i as int], start, size as int));
                }
            }
        }
        i += 1;
    }
    let end: u64 = match candidate.checked_add(size) {
        Some(end) => end,
        None => {
            proof {
                lemma_nothing_fits(
                    reserved,
                    from as int,
                    size as int,
                    alignment as int,
                    address_end as int,
                    candidate as int,
                    i as int,
                );
            }
            return None;
        },
    };
    assert forall|start: int| #[trigger] fits(
        reserved,
        from as int,
        size as int,
        alignment as int,
        address_end as int,
        start,
    ) implies candidate <= start by {
        if start < candidate {
            assert(blocked(reserved, i as int, start, size as int));
        }
    }
    if end <= address_end {
        Some(PciBarReservedRange { start: candidate, end })
    } else {
        None
    }
}

/// Whether `[start, start + size)` hits a range in use.
spec fn hits(range: PciBarReservedRange, start: int, size: int) -> bool {
    start < range.end && range.start < start + size
}

/// Whether `[start, start + size)` hits one of the first `count` ranges.
spec fn blocked(reserved: Seq<PciBarReservedRange>, count: int, start: int, size: int) -> bool {
    exists|j: int| 0 <= j < count && j < reserved.len() && hits(#[trigger] reserved[j], start, size)
}

proof fn lemma_nothing_fits(
    reserved: Seq<PciBarReservedRange>,
    from: int,
    size: int,
    alignment: int,
    end: int,
    candidate: int,
    count: int,
)
    requires
        end <= u64::MAX,
        candidate + size > u64::MAX,
        0 <= count <= reserved.len(),
        forall|start: int|
            from <= start < candidate && start % alignment == 0 ==> #[trigger] blocked(
                reserved,
                count,
                start,
                size,
            ),
    ensures
        !has_room(reserved, from, size, alignment, end),
{
    assert forall|start: int| #[trigger] fits(
        reserved,
        from,
        size,
        alignment,
        end,
        start,
    ) implies false by {
        assert(start < candidate);
        assert(blocked(reserved, count, start, size));
    }
}

/// Whether `new` is `old` with `range` put in before the first range that
/// begins behind it.
pub open spec fn with_range(
    old_ranges: Seq<PciBarReservedRange>,
    range: PciBarReservedRange,
    new_ranges: Seq<PciBarReservedRange>,
) -> bool {
    exists|pos: int| insertion_point(old_ranges, range, pos) && new_ranges == #[trigger] old_ranges.insert(pos, range)
}

/// Whether `pos` is where `range` belongs.
pub open spec fn insertion_point(
    ranges: Seq<PciBarReservedRange>,
    range: PciBarReservedRange,
    pos: int,
) -> bool {
    &&& 0 <= pos <= ranges.len()
    &&& forall|j: int| 0 <= j < pos ==> (#[trigger] ranges[j]).start <= range.start
    &&& pos < ranges.len() ==> ranges[pos].start > range.start
}

fn insert_reserved_range(ranges: &mut Vec<PciBarReservedRange>, range: PciBarReservedRange)
    requires
        ordered(old(ranges)@),
        range.start < range.end,
        is_free(old(ranges)@, range.start as int, range.end - range.start),
    ensures
        with_range(old(ranges)@, range, final(ranges)@),
        ordered(final(ranges)@),
        forall|i: int|
            0 <= i < final(ranges)@.len() ==> #[trigger] final(ranges)@[i] == range || (exists|j: int|
                0 <= j < old(ranges)@.len() && old(ranges)@[j] == final(ranges)@[i]),
{
    let ghost before = ranges@;
    let mut index: usize = 0;
    while index < ranges.len() && ranges[index].start <= range.start
        invariant
            ranges@ == before,
            index <= before.len(),
            forall|j: int| 0 <= j < index ==> (#[trigger] before[j]).start <= range.start,
        decreases before.len() - index,
    {
        index += 1;
    }
    ranges.insert(index, range);
    proof {
        let after = ranges@;
        let pos = index as int;
        assert(insertion_point(before, range, pos));
        assert(after == before.insert(pos, range));
        assert forall|i: int, j: int| 0 <= i < j < after.len() implies (#[trigger] after[i]).end <= (
        #[trigger] after[j]).start by {
            if i < pos && j < pos {
                assert(after[i] == before[i] && after[j] == before[j]);
            } else if i < pos && j == pos {
                assert(after[i] == before[i] && after[j] == range);
            } else if i < pos {
                assert(after[i] == before[i] && after[j] == before[j - 1]);
            } else if i == pos {
                assert(after[i] == range && after[j] == before[j - 1]);
                if j - 1 > pos {
                    assert(before[pos].end <= before[j - 1].start);
                }
            } else {
                assert(after[i] == before[i - 1] && after[j] == before[j - 1]);
            }
        }
        assert forall|i: int| 0 <= i < after.len() implies (#[trigger] after[i]).start
            < after[i].end && (after[i] == range || exists|j: int|
            0 <= j < before.len() && before[j] == after[i]) by {
            if i < pos {
                assert(after[i] == before[i]);
            } else if i > pos {
                assert(after[i] == before[i - 1]);
            }
        }
    }
}

/// Order of the spaces among the windows.
pub open spec fn space_rank(space: PciBarWindowSpace) -> int {
    match space {
        PciBarWindowSpace::Io => 0,
        PciBarWindowSpace::Memory => 1,
        PciBarWindowSpace::PrefetchableMemory => 2,
    }
}

/// Whether `left` may stand before `right`: by space, then by address.
pub open spec fn window_le(left: PciBarRuntimeWindow, right: PciBarRuntimeWindow) -> bool {
    space_rank(left.space) < space_rank(right.space) || (left.space == right.space
        && left.pci_start <= right.pci_start)
}

fn window_not_after(left: &PciBarRuntimeWindow, right: &PciBarRuntimeWindow) -> (result: bool)
    ensures
        result == window_le(*left, *right),
{
    match (left.space, right.space) {
        (PciBarWindowSpace::Io, PciBarWindowSpace::Io) => left.pci_start <= right.pci_start,
        (PciBarWindowSpace::Memory, PciBarWindowSpace::Memory) => left.pci_start
            <= right.pci_start,
        (PciBarWindowSpace::PrefetchableMemory, PciBarWindowSpace::PrefetchableMemory) => {
            left.pci_start <= right.pci_start
        },
        (PciBarWindowSpace::Io, _) => true,
        (PciBarWindowSpace::Memory, PciBarWindowSpace::PrefetchableMemory) => true,
        _ => false,
    }
}

/// `windows` with `window` put in behind everything that may stand before it.
pub open spec fn insert_window(
    windows: Seq<PciBarRuntimeWindow>,
    window: PciBarRuntimeWindow,
) -> Seq<PciBarRuntimeWindow>
    decreases windows.len(),
{
    if windows.len() == 0 || window_le(windows.last(), window) {
        windows.push(window)
    } else {
        insert_window(windows.drop_last(), window).push(windows.last())
    }
}

/// The windows in order; equal ones keep the order they came in.
pub open spec fn sorted_windows(windows: Seq<PciBarRuntimeWindow>) -> Seq<PciBarRuntimeWindow>
    decreases windows.len(),
{
    if windows.len() == 0 {
        windows
    } else {
        insert_window(sorted_windows(windows.drop_last()), windows.last())
    }
}

/// Whether windows stand in order.
pub open spec fn windows_in_order(windows: Seq<PciBarRuntimeWindow>) -> bool {
    forall|i: int, j: int|
        0 <= i < j < windows.len() ==> window_le(#[trigger] windows[i], #[trigger] windows[j])
}

proof fn lemma_insert_window(
    windows: Seq<PciBarRuntimeWindow>,
    window: PciBarRuntimeWindow,
    pos: int,
)
    requires
        0 <= pos <= windows.len(),
        pos > 0 ==> window_le(windows[pos - 1], window),
        forall|j: int| pos <= j < windows.len() ==> !window_le(#[trigger] windows[j], window),
    ensures
        insert_window(windows, window) == windows.insert(pos, window),
    decreases windows.len(),
{
    if pos == windows.len() {
        assert(windows.insert(pos, window) =~= windows.push(window));
    } else {
        lemma_insert_window(windows.drop_last(), window, pos);
        assert(windows.insert(pos, window) =~= windows.drop_last().insert(pos, window).push(
            windows.last(),
        ));
    }
}

/// Putting a window in keeps the order, and loses or adds nothing else.
pub proof fn insert_window_keeps_order(
    windows: Seq<PciBarRuntimeWindow>,
    window: PciBarRuntimeWindow,
)
    requires
        windows_in_order(windows),
    ensures
        windows_in_order(insert_window(windows, window)),
        insert_window(windows, window).to_multiset() == windows.to_multiset().insert(window),
        insert_window(windows, window).len() == windows.len() + 1,
    decreases windows.len(),
{
    broadcast use vstd::seq_lib::group_to_multiset_ensures;

    if windows.len() > 0 && !window_le(windows.last(), window) {
        let front = windows.drop_last();
        insert_window_keeps_order(front, window);
        let inserted = insert_window(front, window);
        assert(windows =~= front.push(windows.last()));
        assert(windows.to_multiset() =~= front.to_multiset().insert(windows.last()));
        let all = inserted.push(windows.last());
        assert(all.to_multiset() =~= windows.to_multiset().insert(window));
        assert forall|i: int| 0 <= i < inserted.len() implies window_le(
            #[trigger] inserted[i],
            windows.last(),
        ) by {
            assert(inserted.to_multiset().contains(inserted[i]));
            if inserted[i] != window {
                assert(front.to_multiset().contains(inserted[i]));
                assert(front.contains(inserted[i]));
                let k = choose|k: int| 0 <= k < front.len() && front[k] == inserted[i];
                assert(windows[k] == inserted[i]);
            }
        }
    }
}

/// The order that the allocator keeps: sorted, with the same windows in it.
pub proof fn sorted_windows_are_a_permutation(windows: Seq<PciBarRuntimeWindow>)
    ensures
        windows_in_order(sorted_windows(windows)),
        sorted_windows(windows).to_multiset() == windows.to_multiset(),
        sorted_windows(windows).len() == windows.len(),
    decreases windows.len(),
{
    broadcast use vstd::seq_lib::group_to_multiset_ensures;

    if windows.len() > 0 {
        let front = windows.drop_last();
        sorted_windows_are_a_permutation(front);
        insert_window_keeps_order(sorted_windows(front), windows.last());
        assert(windows =~= front.push(windows.last()));
        assert(windows.to_multiset() =~= front.to_multiset().insert(windows.last()));
    }
}

/// Whether window `index` is the one that a new range goes to: the first with
/// room, pass by pass.
pub open spec fn chosen_for_allocation(
    windows: Seq<WindowModel>,
    kind: PciBarKind,
    width: PciBarAddressWidth,
    size: u64,
    alignment: u64,
    pass: int,
    index: int,
) -> bool {
    &&& 0 <= pass < pass_count(kind)
    &&& 0 <= index < windows.len()
    &&& windows[index].window.space == pass_space(kind, pass)
    &&& window_has_room(windows[index], kind, width, size, alignment)
    &&& forall|p: int, i: int|
        #![trigger pass_space(kind, p), windows[i]]
        0 <= p <= pass && 0 <= i < windows.len() && (p < pass || i < index)
            && windows[i].window.space == pass_space(kind, p) ==> !window_has_room(
            windows[i],
            kind,
            width,
            size,
            alignment,
        )
}

/// Whether no window has room.
pub open spec fn no_window_has_room(
    windows: Seq<WindowModel>,
    kind: PciBarKind,
    width: PciBarAddressWidth,
    size: u64,
    alignment: u64,
    passes: int,
) -> bool {
    forall|p: int, i: int|
        #![trigger pass_space(kind, p), windows[i]]
        0 <= p < passes && 0 <= i < windows.len() && windows[i].window.space == pass_space(kind, p)
            ==> !window_has_room(windows[i], kind, width, size, alignment)
}

/// Whether `after` is `before` with `range` in use.
pub open spec fn range_taken(
    before: WindowModel,
    after: WindowModel,
    range: PciBarReservedRange,
) -> bool {
    &&& after.window == before.window
    &&& with_range(before.reserved, range, after.reserved)
}

/// Whether an allocation names the range, its CPU address and its space.
pub open spec fn describes(
    allocation: PciBarAllocation,
    window: PciBarRuntimeWindow,
    address: u64,
) -> bool {
    &&& allocation.pci_address == address
    &&& allocation.cpu_address == window.cpu_start + (address - window.pci_start)
    &&& allocation.space == window.space
}

/// What an allocation in window `index` does.
pub open spec fn allocated_in(
    before: Seq<WindowModel>,
    after: Seq<WindowModel>,
    kind: PciBarKind,
    width: PciBarAddressWidth,
    size: u64,
    alignment: u64,
    index: int,
    allocation: PciBarAllocation,
) -> bool {
    let state = before[index];
    let range = PciBarReservedRange {
        start: allocation.pci_address,
        end: (allocation.pci_address + size) as u64,
    };
    &&& describes(allocation, state.window, allocation.pci_address)
    &&& lowest_fit(
        state.reserved,
        state.next as int,
        size as int,
        alignment as int,
        usable_end(state.window, kind, width) as int,
        allocation.pci_address as int,
    )
    &&& range_taken(state, after[index], range)
    &&& after[index].next == range.end
    &&& after == before.update(index, after[index])
}

/// Whether `[address, end)` lies in the part of the window that the register
/// can address.
pub open spec fn hosts(
    state: WindowModel,
    kind: PciBarKind,
    width: PciBarAddressWidth,
    address: int,
    size: int,
) -> bool {
    state.window.pci_start <= address && address + size <= usable_end(state.window, kind, width)
}

/// Whether window `index` is the first that hosts the range, pass by pass.
pub open spec fn chosen_for_reservation(
    windows: Seq<WindowModel>,
    kind: PciBarKind,
    width: PciBarAddressWidth,
    address: int,
    size: int,
    pass: int,
    index: int,
) -> bool {
    &&& 0 <= pass < pass_count(kind)
    &&& 0 <= index < windows.len()
    &&& windows[index].window.space == pass_space(kind, pass)
    &&& hosts(windows[index], kind, width, address, size)
    &&& forall|p: int, i: int|
        #![trigger pass_space(kind, p), windows[i]]
        0 <= p <= pass && 0 <= i < windows.len() && (p < pass || i < index)
            && windows[i].window.space == pass_space(kind, p) ==> !hosts(
            windows[i],
            kind,
            width,
            address,
            size,
        )
}

/// Where the search begins once a group of resources behind a bridge starts:
/// at the first granule from the old place on that nothing is in use in, or at
/// the end of the window.
pub open spec fn group_begin(state: WindowModel, next: int) -> bool {
    let granule = granularity_of(state.window.space) as int;
    ||| next == state.window.pci_end && (forall|c: int| #[trigger]
        fits(state.reserved, state.next as int, granule, granule, u64::MAX as int, c)
            ==> state.window.pci_end <= c)
    ||| next < state.window.pci_end && lowest_fit(
        state.reserved,
        state.next as int,
        granule,
        granule,
        u64::MAX as int,
        next,
    )
}

/// Where the search begins once a group of resources behind a bridge ends: at
/// the next granule, or at the end of the window.
pub open spec fn group_end(state: WindowModel, next: int) -> bool {
    let granule = granularity_of(state.window.space) as int;
    ||| next == state.window.pci_end && (forall|a: int| #[trigger]
        align::is_aligned_up(state.next as int, granule, a) ==> state.window.pci_end <= a)
    ||| next < state.window.pci_end && align::is_aligned_up(state.next as int, granule, next)
}

/// Allocates base address registers out of the host windows.
pub struct PciBarWindowAllocator {
    windows: Vec<PciBarAllocationWindow>,
}

impl View for PciBarWindowAllocator {
    type V = Seq<WindowModel>;

    closed spec fn view(&self) -> Seq<WindowModel> {
        self.windows@.map_values(|state: PciBarAllocationWindow| state@)
    }
}

/// Windows of which nothing is in use yet, in the order in which they are
/// searched.
pub open spec fn fresh_windows(windows: Seq<PciBarRuntimeWindow>) -> Seq<WindowModel> {
    sorted_windows(windows).map_values(
        |window: PciBarRuntimeWindow|
            WindowModel { window, reserved: Seq::empty(), next: window.pci_start },
    )
}

/// How the windows change before what is behind a bridge is placed.
pub open spec fn group_begun(before: Seq<WindowModel>, after: Seq<WindowModel>) -> bool {
    &&& after.len() == before.len()
    &&& forall|i: int|
        0 <= i < before.len() ==> {
            let now = #[trigger] after[i];
            &&& now == (WindowModel { next: now.next, ..before[i] })
            &&& group_begin(before[i], now.next as int)
        }
}

/// How the windows change after what is behind a bridge was placed.
pub open spec fn group_ended(before: Seq<WindowModel>, after: Seq<WindowModel>) -> bool {
    &&& after.len() == before.len()
    &&& forall|i: int|
        0 <= i < before.len() ==> {
            let now = #[trigger] after[i];
            &&& now == (WindowModel { next: now.next, ..before[i] })
            &&& group_end(before[i], now.next as int)
        }
}

/// What a search for room comes to: the lowest free range of the first window
/// with room, and nothing where no window has room.
pub open spec fn allocation_made(
    before: Seq<WindowModel>,
    after: Seq<WindowModel>,
    kind: PciBarKind,
    width: PciBarAddressWidth,
    size: u64,
    alignment: u64,
    result: Option<PciBarAllocation>,
) -> bool {
    match result {
        None => after == before && (request_valid(size, alignment) ==> no_window_has_room(
            before,
            kind,
            width,
            size,
            alignment,
            pass_count(kind),
        )),
        Some(allocation) => request_valid(size, alignment) && exists|pass: int, index: int| #[trigger]
            chosen_for_allocation(before, kind, width, size, alignment, pass, index)
                && allocated_in(before, after, kind, width, size, alignment, index, allocation),
    }
}

/// What taking a given range comes to: it is taken if it is aligned and the
/// first window that reaches it has it free.
pub open spec fn reservation_made(
    before: Seq<WindowModel>,
    after: Seq<WindowModel>,
    kind: PciBarKind,
    width: PciBarAddressWidth,
    address: u64,
    size: u64,
    alignment: u64,
    result: Option<PciBarAllocation>,
) -> bool {
    &&& result is Some <==> {
        &&& request_valid(size, alignment)
        &&& address % alignment == 0
        &&& exists|pass: int, index: int| #[trigger]
            chosen_for_reservation(before, kind, width, address as int, size as int, pass, index)
                && is_free(before[index].reserved, address as int, size as int)
    }
    &&& match result {
        None => after == before,
        Some(allocation) => exists|pass: int, index: int| #[trigger]
            chosen_for_reservation(before, kind, width, address as int, size as int, pass, index)
                && {
                let state = before[index];
                let now = after[index];
                &&& describes(allocation, state.window, address)
                &&& range_taken(
                    state,
                    now,
                    PciBarReservedRange { start: address, end: (address + size) as u64 },
                )
                &&& now.next == state.next
                &&& after == before.update(index, now)
            },
    }
}

impl PciBarWindowAllocator {
    /// Every window keeps its invariant.
    pub open spec fn wf(&self) -> bool {
        forall|i: int| 0 <= i < self@.len() ==> (#[trigger] self@[i]).wf()
    }

    /// An allocator with nothing in use.
    pub fn new(windows: &[PciBarRuntimeWindow]) -> (allocator: Self)
        requires
            forall|i: int| 0 <= i < windows@.len() ==> (#[trigger] windows@[i]).wf(),
        ensures
            allocator.wf(),
            allocator@ == fresh_windows(windows@),
    {
        let mut sorted: Vec<PciBarRuntimeWindow> = Vec::new();
        let mut i: usize = 0;
        assert(windows@.take(0) =~= Seq::empty());
        while i < windows.len()
            invariant
                i <= windows@.len(),
                forall|j: int| 0 <= j < windows@.len() ==> (#[trigger] windows@[j]).wf(),
                sorted@ == sorted_windows(windows@.take(i as int)),
                forall|j: int| 0 <= j < sorted@.len() ==> (#[trigger] sorted@[j]).wf(),
            decreases windows@.len() - i,
        {
            let window = windows[i];
            let ghost before = sorted@;
            let mut pos: usize = sorted.len();
            while pos > 0 && !window_not_after(&sorted[pos - 1], &window)
                invariant
                    sorted@ == before,
                    pos <= before.len(),
                    forall|j: int|
                        pos <= j < before.len() ==> !window_le(#[trigger] before[j], window),
                decreases pos,
            {
                pos -= 1;
            }
            sorted.insert(pos, window);
            proof {
                lemma_insert_window(before, window, pos as int);
                assert(windows@.take(i + 1).drop_last() =~= windows@.take(i as int));
                assert(windows@.take(i + 1).last() == window);
                assert forall|j: int| 0 <= j < sorted@.len() implies (#[trigger] sorted@[j]).wf() by {
                    if j < pos {
                        assert(sorted@[j] == before[j]);
                    } else if j > pos {
                        assert(sorted@[j] == before[j - 1]);
                    }
                }
            }
            i += 1;
        }
        assert(windows@.take(i as int) =~= windows@);
        let mut states: Vec<PciBarAllocationWindow> = Vec::new();
        let mut k: usize = 0;
        while k < sorted.len()
            invariant
                k <= sorted@.len(),
                states@.len() == k,
                forall|j: int|
                    0 <= j < k ==> (#[trigger] states@[j])@ == (WindowModel {
                        window: sorted@[j],
                        reserved: Seq::empty(),
                        next: sorted@[j].pci_start,
                    }),
            decreases sorted@.len() - k,
        {
            let window = sorted[k];
            let state = PciBarAllocationWindow {
                window,
                reserved: Vec::new(),
                next: window.pci_start,
            };
            assert(state@.reserved =~= Seq::empty());
            states.push(state);
            k += 1;
        }
        let allocator = PciBarWindowAllocator { windows: states };
        assert(allocator@ =~= sorted_windows(windows@).map_values(
            |window: PciBarRuntimeWindow|
                WindowModel { window, reserved: Seq::empty(), next: window.pci_start },
        ));
        allocator
    }

    /// Takes the lowest free range of the first window with room.
    pub fn allocate(
        &mut self,
        kind: PciBarKind,
        width: PciBarAddressWidth,
        size: u64,
        alignment: u64,
    ) -> (result: Option<PciBarAllocation>)
        requires
            old(self).wf(),
        ensures
            final(self).wf(),
            allocation_made(old(self)@, final(self)@, kind, width, size, alignment, result),
    {
        if !valid_request(size, alignment) {
            return None;
        }
        let passes: usize = if kind == (PciBarKind::Memory { prefetchable: true }) {
            2
        } else {
            1
        };
        let ghost start = self@;
        let mut pass: usize = 0;
        while pass < passes
            invariant
                pass <= passes,
                passes == pass_count(kind),
                self@ == start,
                start == old(self)@,
                self.wf(),
                request_valid(size, alignment),
                alignment > 0,
                no_window_has_room(start, kind, width, size, alignment, pass as int),
            decreases passes - pass,
        {
            let mut index: usize = 0;
            while index < self.windows.len()
                invariant
                    index <= self.windows@.len(),
                    pass < passes,
                    passes == pass_count(kind),
                    self@ == start,
                    start == old(self)@,
                    start.len() == self.windows@.len(),
                    self.wf(),
                    request_valid(size, alignment),
                    alignment > 0,
                    no_window_has_room(start, kind, width, size, alignment, pass as int),
                    forall|i: int|
                        0 <= i < index && (#[trigger] start[i]).window.space == pass_space(
                            kind,
                            pass as int,
                        ) ==> !window_has_room(start[i], kind, width, size, alignment),
                decreases self.windows@.len() - index,
            {
                assert(self@[index as int] == self.windows@[index as int]@);
                assert(start[index as int].wf());
                let window = self.windows[index].window;
                if window_matches_pass(window, kind, pass) {
                    let address_end: u64 = usable_address_end(window, kind, width);
                    if let Some(range) = first_free_range(
                        &self.windows[index],
                        size,
                        alignment,
                        address_end,
                    ) {
                        let ghost state = start[index as int];
                        assert(fits(
                            state.reserved,
                            state.next as int,
                            size as int,
                            alignment as int,
                            address_end as int,
                            range.start as int,
                        ));
                        let cpu_address: usize = match window.cpu_address(range.start, size) {
                            Some(cpu_address) => cpu_address,
                            None => {
                                return None;
                            },
                        };
                        insert_reserved_range(&mut self.windows[index].reserved, range);
                        self.windows[index].next = range.end;
                        let allocation = PciBarAllocation {
                            pci_address: range.start,
                            cpu_address,
                            space: window.space,
                        };
                        proof {
                            let after = self@;
                            assert(after[index as int] == self.windows@[index as int]@);
                            assert(after =~= start.update(index as int, after[index as int]));
                            assert(window_has_room(state, kind, width, size, alignment));
                            assert(chosen_for_allocation(
                                start,
                                kind,
                                width,
                                size,
                                alignment,
                                pass as int,
                                index as int,
                            ));
                            assert(allocated_in(
                                start,
                                after,
                                kind,
                                width,
                                size,
                                alignment,
                                index as int,
                                allocation,
                            ));
                            assert forall|i: int| 0 <= i < after.len() implies (
                            #[trigger] after[i]).wf() by {
                                if i != index {
                                    assert(after[i] == start[i]);
                                }
                            }
                        }
                        return Some(allocation);
                    }
                }
                index += 1;
            }
            pass += 1;
        }
        None
    }

    /// Takes the range that firmware put into a register: it must be aligned,
    /// lie in a matching window and in reach of the register, and be free.
    pub fn reserve(
        &mut self,
        kind: PciBarKind,
        width: PciBarAddressWidth,
        address: u64,
        size: u64,
        alignment: u64,
    ) -> (result: Option<PciBarAllocation>)
        requires
            old(self).wf(),
        ensures
            final(self).wf(),
            reservation_made(
                old(self)@,
                final(self)@,
                kind,
                width,
                address,
                size,
                alignment,
                result,
            ),
    {
        if !valid_request(size, alignment) || address % alignment != 0 {
            return None;
        }
        let ghost start = self@;
        let end: u64 = match address.checked_add(size) {
            Some(end) => end,
            None => {
                return None;
            },
        };
        let passes: usize = if kind == (PciBarKind::Memory { prefetchable: true }) {
            2
        } else {
            1
        };
        let mut pass: usize = 0;
        while pass < passes
            invariant
                pass <= passes,
                passes == pass_count(kind),
                self@ == start,
                start == old(self)@,
                self.wf(),
                size > 0,
                request_valid(size, alignment),
                address % alignment == 0,
                end == address + size,
                forall|p: int, i: int|
                    #![trigger pass_space(kind, p), start[i]]
                    0 <= p < pass && 0 <= i < start.len() && start[i].window.space == pass_space(
                        kind,
                        p,
                    ) ==> !hosts(start[i], kind, width, address as int, size as int),
            decreases passes - pass,
        {
            let mut index: usize = 0;
            while index < self.windows.len()
                invariant
                    index <= self.windows@.len(),
                    pass < passes,
                    passes == pass_count(kind),
                    self@ == start,
                    start == old(self)@,
                    start.len() == self.windows@.len(),
                    self.wf(),
                    size > 0,
                    request_valid(size, alignment),
                    address % alignment == 0,
                    end == address + size,
                    forall|p: int, i: int|
                        #![trigger pass_space(kind, p), start[i]]
                        0 <= p < pass && 0 <= i < start.len() && start[i].window.space
                            == pass_space(kind, p) ==> !hosts(
                            start[i],
                            kind,
                            width,
                            address as int,
                            size as int,
                        ),
                    forall|i: int|
                        0 <= i < index && (#[trigger] start[i]).window.space == pass_space(
                            kind,
                            pass as int,
                        ) ==> !hosts(start[i], kind, width, address as int, size as int),
                decreases self.windows@.len() - index,
            {
                assert(self@[index as int] == self.windows@[index as int]@);
                assert(start[index as int].wf());
                let window = self.windows[index].window;
                if !window_matches_pass(window, kind, pass) || address < window.pci_start || end
                    > usable_address_end(window, kind, width) {
                    index += 1;
                    continue ;
                }
                let ghost state = start[index as int];
                assert(chosen_for_reservation(
                    start,
                    kind,
                    width,
                    address as int,
                    size as int,
                    pass as int,
                    index as int,
                ));
                let range = PciBarReservedRange { start: address, end };
                let mut k: usize = 0;
                while k < self.windows[index].reserved.len()
                    invariant
                        index < self.windows@.len(),
                        self@ == start,
                        self.wf(),
                        size > 0,
                        start == old(self)@,
                        state == start[index as int],
                        state == self.windows@[index as int]@,
                        k <= state.reserved.len(),
                        range.start == address,
                        range.end == address + size,
                        forall|j: int|
                            0 <= j < k ==> address + size <= (#[trigger] state.reserved[j]).start
                                || state.reserved[j].end <= address,
                        chosen_for_reservation(
                            start,
                            kind,
                            width,
                            address as int,
                            size as int,
                            pass as int,
                            index as int,
                        ),
                    decreases state.reserved.len() - k,
                {
                    if ranges_overlap(self.windows[index].reserved[k], range) {
                        proof {
                            assert(state.reserved[k as int].start < range.end);
                            assert(!is_free(state.reserved, address as int, size as int));
                            assert forall|p: int, i: int| #[trigger]
                                chosen_for_reservation(
                                    start,
                                    kind,
                                    width,
                                    address as int,
                                    size as int,
                                    p,
                                    i,
                                ) implies i == index by {
                                lemma_reservation_choice_is_unique(
                                    start,
                                    kind,
                                    width,
                                    address as int,
                                    size as int,
                                    pass as int,
                                    index as int,
                                    p,
                                    i,
                                );
                            }
                        }
                        return None;
                    }
                    k += 1;
                }
                let cpu_address: usize = match window.cpu_address(address, size) {
                    Some(cpu_address) => cpu_address,
                    None => {
                        return None;
                    },
                };
                insert_reserved_range(&mut self.windows[index].reserved, range);
                let allocation = PciBarAllocation {
                    pci_address: address,
                    cpu_address,
                    space: window.space,
                };
                proof {
                    let after = self@;
                    assert(after[index as int] == self.windows@[index as int]@);
                    assert(after =~= start.update(index as int, after[index as int]));
                    assert forall|i: int| 0 <= i < after.len() implies (#[trigger] after[i]).wf() by {
                        if i != index {
                            assert(after[i] == start[i]);
                        }
                    }
                }
                return Some(allocation);
            }
            pass += 1;
        }
        proof {
            assert forall|p: int, i: int| #[trigger]
                chosen_for_reservation(
                    start,
                    kind,
                    width,
                    address as int,
                    size as int,
                    p,
                    i,
                ) implies false by {
                assert(start[i].window.space == pass_space(kind, p));
            }
        }
        None
    }

    /// Moves the start of the search to a free granule, so that what comes next
    /// can be forwarded by a bridge on its own.
    pub fn begin_bridge_group(&mut self)
        requires
            old(self).wf(),
        ensures
            final(self).wf(),
            group_begun(old(self)@, final(self)@),
    {
        let ghost start = self@;
        let mut index: usize = 0;
        while index < self.windows.len()
            invariant
                index <= self.windows@.len(),
                self.windows@.len() == start.len(),
                start == old(self)@,
                old(self).wf(),
                forall|i: int|
                    0 <= i < index ==> {
                        let after = (#[trigger] self.windows@[i])@;
                        &&& after.wf()
                        &&& after == (WindowModel { next: after.next, ..start[i] })
                        &&& group_begin(start[i], after.next as int)
                    },
                forall|i: int| index <= i < start.len() ==> (#[trigger] self.windows@[i])@ == start[i],
            decreases self.windows@.len() - index,
        {
            let ghost state = start[index as int];
            assert(old(self)@[index as int].wf());
            assert(self.windows@[index as int]@ == state);
            let next: u64 = free_granule(&self.windows[index]);
            self.windows[index].next = next;
            assert(self.windows@[index as int]@ == (WindowModel { next, ..state }));
            index += 1;
        }
        proof {
            assert forall|i: int| 0 <= i < start.len() implies self@[i] == (
            #[trigger] self.windows@[i])@ by {}
        }
    }

    /// Moves the start of the search past the granule in use, so that what comes
    /// next does not share it.
    pub fn end_bridge_group(&mut self)
        requires
            old(self).wf(),
        ensures
            final(self).wf(),
            group_ended(old(self)@, final(self)@),
    {
        let ghost start = self@;
        let mut index: usize = 0;
        while index < self.windows.len()
            invariant
                index <= self.windows@.len(),
                self.windows@.len() == start.len(),
                start == old(self)@,
                old(self).wf(),
                forall|i: int|
                    0 <= i < index ==> {
                        let after = (#[trigger] self.windows@[i])@;
                        &&& after.wf()
                        &&& after == (WindowModel { next: after.next, ..start[i] })
                        &&& group_end(start[i], after.next as int)
                    },
                forall|i: int| index <= i < start.len() ==> (#[trigger] self.windows@[i])@ == start[i],
            decreases self.windows@.len() - index,
        {
            let ghost state = start[index as int];
            assert(old(self)@[index as int].wf());
            assert(self.windows@[index as int]@ == state);
            let window = self.windows[index].window;
            let granularity: u64 = bridge_granularity(window.space);
            let current: u64 = self.windows[index].next;
            let next: u64 = match align_up(current, granularity) {
                Some(next) => if next < window.pci_end {
                    next
                } else {
                    window.pci_end
                },
                None => window.pci_end,
            };
            proof {
                align::lemma_bridge_granularities();
                if next == window.pci_end {
                    assert forall|a: int| #[trigger]
                        align::is_aligned_up(
                            current as int,
                            granularity as int,
                            a,
                        ) implies window.pci_end <= a by {
                        if current + granularity - 1 > u64::MAX {
                            align::lemma_no_multiple_left(current as int, granularity as int, a);
                        } else {
                            let b = choose|b: u64|
                                align::is_aligned_up(current as int, granularity as int, b as int)
                                    && window.pci_end <= b;
                            align::lemma_aligned_up_is_least(
                                current as int,
                                granularity as int,
                                b as int,
                                a,
                            );
                        }
                    }
                }
            }
            self.windows[index].next = next;
            assert(self.windows@[index as int]@ == (WindowModel { next, ..state }));
            index += 1;
        }
        proof {
            assert forall|i: int| 0 <= i < start.len() implies self@[i] == (
            #[trigger] self.windows@[i])@ by {}
        }
    }
}

proof fn lemma_reservation_choice_is_unique(
    windows: Seq<WindowModel>,
    kind: PciBarKind,
    width: PciBarAddressWidth,
    address: int,
    size: int,
    pass: int,
    index: int,
    other_pass: int,
    other: int,
)
    requires
        chosen_for_reservation(windows, kind, width, address, size, pass, index),
        chosen_for_reservation(windows, kind, width, address, size, other_pass, other),
    ensures
        other == index,
{
    if other_pass < pass || (other_pass == pass && other < index) {
        assert(windows[other].window.space == pass_space(kind, other_pass));
    } else if pass < other_pass || index < other {
        assert(windows[index].window.space == pass_space(kind, pass));
    }
}

/// The first granule from `next` on with nothing in use in it, or the end of
/// the window.
fn free_granule(state: &PciBarAllocationWindow) -> (next: u64)
    requires
        state@.wf(),
    ensures
        group_begin(state@, next as int),
        state@.next <= next <= state@.window.pci_end,
{
    let window = state.window;
    let granularity: u64 = bridge_granularity(window.space);
    proof {
        align::lemma_bridge_granularities();
    }
    match first_free_range(state, granularity, granularity, u64::MAX) {
        Some(range) => if range.start < window.pci_end {
            range.start
        } else {
            window.pci_end
        },
        None => window.pci_end,
    }
}

/// Two ranges that are in use in a window never overlap.
pub proof fn ranges_in_use_are_disjoint(state: WindowModel, i: int, j: int)
    requires
        state.wf(),
        0 <= i < state.reserved.len(),
        0 <= j < state.reserved.len(),
        i != j,
    ensures
        !overlap(state.reserved[i], state.reserved[j]),
{
    if i < j {
        assert(state.reserved[i].end <= state.reserved[j].start);
    } else {
        assert(state.reserved[j].end <= state.reserved[i].start);
    }
}

/// What is allocated lies in its window, is aligned, can be addressed by the
/// register, is mapped inside the CPU's view of the window, overlaps nothing
/// that was in use, and never crosses from one space to another.
pub proof fn allocation_is_sound(
    before: Seq<WindowModel>,
    after: Seq<WindowModel>,
    kind: PciBarKind,
    width: PciBarAddressWidth,
    size: u64,
    alignment: u64,
    pass: int,
    index: int,
    allocation: PciBarAllocation,
)
    requires
        forall|i: int| 0 <= i < before.len() ==> (#[trigger] before[i]).wf(),
        request_valid(size, alignment),
        chosen_for_allocation(before, kind, width, size, alignment, pass, index),
        allocated_in(before, after, kind, width, size, alignment, index, allocation),
    ensures
        allocation.pci_address as int % alignment as int == 0,
        before[index].window.pci_start <= allocation.pci_address,
        allocation.pci_address + size <= before[index].window.pci_end,
        allocation.pci_address + size <= usable_end(before[index].window, kind, width),
        allocation.cpu_address + size <= before[index].window.cpu_start + (
        before[index].window.pci_end - before[index].window.pci_start),
        before[index].window.takes(kind),
        allocation.space == before[index].window.space,
        forall|j: int|
            0 <= j < before[index].reserved.len() ==> allocation.pci_address + size <= (
            #[trigger] before[index].reserved[j]).start || before[index].reserved[j].end
                <= allocation.pci_address,
{
    assert(before[index].wf());
}

/// The CPU sees a range as far into its window as the bus does. A register never gets what
/// it cannot address: 20 or 32 bits of memory, or 32 bits of I/O; nor memory for I/O, nor
/// prefetchable memory unless it is prefetchable. What it gets is in use afterwards.
pub proof fn allocation_is_seen_through_its_window(
    before: Seq<WindowModel>,
    after: Seq<WindowModel>,
    kind: PciBarKind,
    width: PciBarAddressWidth,
    size: u64,
    alignment: u64,
    pass: int,
    index: int,
    allocation: PciBarAllocation,
)
    requires
        forall|i: int| 0 <= i < before.len() ==> (#[trigger] before[i]).wf(),
        request_valid(size, alignment),
        chosen_for_allocation(before, kind, width, size, alignment, pass, index),
        allocated_in(before, after, kind, width, size, alignment, index, allocation),
    ensures
        allocation.cpu_address - before[index].window.cpu_start == allocation.pci_address
            - before[index].window.pci_start,
        kind is Memory && width is Bits20 ==> allocation.pci_address + size <= 0x10_0000,
        kind is Io || width is Bits32 ==> allocation.pci_address + size <= 0x1_0000_0000,
        kind is Io <==> before[index].window.space is Io,
        kind == (PciBarKind::Memory { prefetchable: false }) ==> before[index].window.space
            is Memory,
        exists|k: int|
            0 <= k < after[index].reserved.len() && (#[trigger] after[index].reserved[k]).start
                == allocation.pci_address && after[index].reserved[k].end == allocation.pci_address
                + size,
{
    assert(before[index].wf());
    let range = PciBarReservedRange {
        start: allocation.pci_address,
        end: (allocation.pci_address + size) as u64,
    };
    let old_ranges = before[index].reserved;
    let pos = choose|pos: int|
        insertion_point(old_ranges, range, pos) && after[index].reserved
            == #[trigger] old_ranges.insert(pos, range);
    assert(after[index].reserved[pos] == range);
}

/// Prefetchable windows are never used for memory that is not prefetchable, nor
/// memory windows for I/O.
pub proof fn passes_keep_spaces_apart(window: PciBarRuntimeWindow, kind: PciBarKind, pass: int)
    requires
        0 <= pass < pass_count(kind),
        window.space == pass_space(kind, pass),
    ensures
        window.takes(kind),
{
}

/// A call of an allocator, and what came of it.
pub ghost enum AllocatorCall {
    Allocate {
        kind: PciBarKind,
        width: PciBarAddressWidth,
        size: u64,
        alignment: u64,
        allocated: Option<PciBarAllocation>,
    },
    Reserve {
        kind: PciBarKind,
        width: PciBarAddressWidth,
        address: u64,
        size: u64,
        alignment: u64,
        reserved: Option<PciBarAllocation>,
    },
    BeginBridgeGroup,
    EndBridgeGroup,
}

/// Whether a call changed the windows so.
pub open spec fn call_made(
    before: Seq<WindowModel>,
    call: AllocatorCall,
    after: Seq<WindowModel>,
) -> bool {
    match call {
        AllocatorCall::Allocate { kind, width, size, alignment, allocated } => allocation_made(
            before,
            after,
            kind,
            width,
            size,
            alignment,
            allocated,
        ),
        AllocatorCall::Reserve { kind, width, address, size, alignment, reserved } =>
            reservation_made(before, after, kind, width, address, size, alignment, reserved),
        AllocatorCall::BeginBridgeGroup => group_begun(before, after),
        AllocatorCall::EndBridgeGroup => group_ended(before, after),
    }
}

/// A range that a call granted, and its space.
pub ghost struct Grant {
    pub range: PciBarReservedRange,
    pub space: PciBarWindowSpace,
}

/// What a call granted.
pub open spec fn granted(call: AllocatorCall) -> Option<Grant> {
    match call {
        AllocatorCall::Allocate { size, allocated: Some(allocation), .. } => Some(
            Grant {
                range: PciBarReservedRange {
                    start: allocation.pci_address,
                    end: (allocation.pci_address + size) as u64,
                },
                space: allocation.space,
            },
        ),
        AllocatorCall::Reserve { size, reserved: Some(allocation), .. } => Some(
            Grant {
                range: PciBarReservedRange {
                    start: allocation.pci_address,
                    end: (allocation.pci_address + size) as u64,
                },
                space: allocation.space,
            },
        ),
        _ => None,
    }
}

/// Whether two spaces share their addresses: all memory does.
pub open spec fn same_addresses(left: PciBarWindowSpace, right: PciBarWindowSpace) -> bool {
    (left == PciBarWindowSpace::Io) == (right == PciBarWindowSpace::Io)
}

/// Whether windows whose spaces share their addresses have none in common.
pub open spec fn windows_apart(windows: Seq<PciBarRuntimeWindow>) -> bool {
    forall|i: int, j: int|
        0 <= i < j < windows.len() && same_addresses(windows[i].space, windows[j].space) ==> (
        #[trigger] windows[i]).pci_end <= (#[trigger] windows[j]).pci_start || windows[j].pci_end
            <= windows[i].pci_start
}

/// Whether the windows of an allocator went through these states with these calls,
/// from a new allocator on.
pub open spec fn history(
    windows: Seq<PciBarRuntimeWindow>,
    states: Seq<Seq<WindowModel>>,
    calls: Seq<AllocatorCall>,
) -> bool {
    &&& states.len() == calls.len() + 1
    &&& states[0] == fresh_windows(windows)
    &&& forall|k: int, w: int|
        0 <= k < states.len() && 0 <= w < states[k].len() ==> (#[trigger] states[k][w]).wf()
    &&& forall|k: int|
        0 <= k < calls.len() ==> call_made(states[k], #[trigger] calls[k], states[k + 1])
}

/// Whether a range was granted in a window.
pub open spec fn granted_in(
    before: Seq<WindowModel>,
    after: Seq<WindowModel>,
    range: PciBarReservedRange,
    space: PciBarWindowSpace,
    w: int,
) -> bool {
    &&& 0 <= w < before.len()
    &&& before[w].window.space == space
    &&& range.start < range.end
    &&& is_free(before[w].reserved, range.start as int, range.end - range.start)
    &&& after[w].reserved.contains(range)
}

/// Whether the windows of a state are those of another one, with at least its ranges.
pub open spec fn grown_from(before: Seq<WindowModel>, after: Seq<WindowModel>) -> bool {
    &&& after.len() == before.len()
    &&& forall|w: int| 0 <= w < before.len() ==> (#[trigger] after[w]).window == before[w].window
    &&& forall|w: int, range: PciBarReservedRange|
        0 <= w < before.len() && before[w].reserved.contains(range) ==> #[trigger]
            after[w].reserved.contains(range)
}

proof fn lemma_with_range(
    before: Seq<PciBarReservedRange>,
    range: PciBarReservedRange,
    after: Seq<PciBarReservedRange>,
)
    requires
        with_range(before, range, after),
    ensures
        after.contains(range),
        forall|other: PciBarReservedRange| before.contains(other) ==> #[trigger] after.contains(other),
{
    let pos = choose|pos: int|
        insertion_point(before, range, pos) && after == #[trigger] before.insert(pos, range);
    assert(after[pos] == range);
    assert forall|other: PciBarReservedRange| before.contains(other) implies #[trigger]
    after.contains(other) by {
        let i = choose|i: int| 0 <= i < before.len() && before[i] == other;
        if i < pos {
            assert(after[i] == other);
        } else {
            assert(after[i + 1] == other);
        }
    }
}

proof fn lemma_call(before: Seq<WindowModel>, call: AllocatorCall, after: Seq<WindowModel>)
    requires
        call_made(before, call, after),
        forall|w: int| 0 <= w < before.len() ==> (#[trigger] before[w]).wf(),
    ensures
        grown_from(before, after),
        granted(call) matches Some(grant) ==> exists|w: int| #[trigger]
            granted_in(before, after, grant.range, grant.space, w),
{
    match call {
        AllocatorCall::Allocate { kind, width, size, alignment, allocated } => {
            if let Some(allocation) = allocated {
                let (pass, w) = choose|pass: int, w: int| #[trigger]
                    chosen_for_allocation(before, kind, width, size, alignment, pass, w)
                        && allocated_in(before, after, kind, width, size, alignment, w, allocation);
                let range = granted(call).unwrap().range;
                assert(before[w].wf());
                lemma_with_range(before[w].reserved, range, after[w].reserved);
                assert(granted_in(before, after, range, allocation.space, w));
            }
        },
        AllocatorCall::Reserve { kind, width, address, size, alignment, reserved } => {
            if let Some(allocation) = reserved {
                let (p, v) = choose|p: int, v: int| #[trigger]
                    chosen_for_reservation(before, kind, width, address as int, size as int, p, v)
                        && is_free(before[v].reserved, address as int, size as int);
                let (pass, w) = choose|pass: int, w: int| #[trigger]
                    chosen_for_reservation(
                        before,
                        kind,
                        width,
                        address as int,
                        size as int,
                        pass,
                        w,
                    ) && {
                        let state = before[w];
                        let now = after[w];
                        &&& describes(allocation, state.window, address)
                        &&& range_taken(
                            state,
                            now,
                            PciBarReservedRange { start: address, end: (address + size) as u64 },
                        )
                        &&& now.next == state.next
                        &&& after == before.update(w, now)
                    };
                lemma_reservation_choice_is_unique(
                    before,
                    kind,
                    width,
                    address as int,
                    size as int,
                    pass,
                    w,
                    p,
                    v,
                );
                let range = granted(call).unwrap().range;
                assert(before[w].wf());
                lemma_with_range(before[w].reserved, range, after[w].reserved);
                assert(granted_in(before, after, range, allocation.space, w));
            }
        },
        _ => {},
    }
}

proof fn lemma_grown(
    windows: Seq<PciBarRuntimeWindow>,
    states: Seq<Seq<WindowModel>>,
    calls: Seq<AllocatorCall>,
    from: int,
    to: int,
)
    requires
        history(windows, states, calls),
        0 <= from <= to < states.len(),
    ensures
        grown_from(states[from], states[to]),
    decreases to - from,
{
    if from < to {
        lemma_grown(windows, states, calls, from, to - 1);
        assert(call_made(states[to - 1], calls[to - 1], states[to]));
        assert forall|w: int| 0 <= w < states[to - 1].len() implies (
        #[trigger] states[to - 1][w]).wf() by {}
        lemma_call(states[to - 1], calls[to - 1], states[to]);
        assert forall|w: int, range: PciBarReservedRange|
            0 <= w < states[from].len() && states[from][w].reserved.contains(range) implies #[trigger]
        states[to][w].reserved.contains(range) by {
            assert(states[to - 1][w].reserved.contains(range));
        }
        assert forall|w: int| 0 <= w < states[from].len() implies (#[trigger] states[to][w]).window
            == states[from][w].window by {
            assert(states[to - 1][w].window == states[from][w].window);
        }
    }
}

proof fn lemma_insert_apart(windows: Seq<PciBarRuntimeWindow>, window: PciBarRuntimeWindow)
    requires
        windows_apart(windows),
        forall|i: int|
            0 <= i < windows.len() && same_addresses((#[trigger] windows[i]).space, window.space)
                ==> windows[i].pci_end <= window.pci_start || window.pci_end
                <= windows[i].pci_start,
    ensures
        windows_apart(insert_window(windows, window)),
        forall|i: int|
            0 <= i < insert_window(windows, window).len() ==> (#[trigger] insert_window(
                windows,
                window,
            )[i]) == window || windows.contains(insert_window(windows, window)[i]),
    decreases windows.len(),
{
    if windows.len() == 0 || window_le(windows.last(), window) {
        let all = windows.push(window);
        assert forall|i: int| 0 <= i < all.len() implies (#[trigger] all[i]) == window
            || windows.contains(all[i]) by {
            if i < windows.len() {
                assert(windows[i] == all[i]);
            }
        }
        assert forall|i: int, j: int|
            0 <= i < j < all.len() && same_addresses(all[i].space, all[j].space) implies (
        #[trigger] all[i]).pci_end <= (#[trigger] all[j]).pci_start || all[j].pci_end
            <= all[i].pci_start by {
            assert(all[i] == windows[i]);
            if j < windows.len() {
                assert(all[j] == windows[j]);
            }
        }
    } else {
        let front = windows.drop_last();
        let last = windows.last();
        assert(windows[windows.len() - 1] == last);
        assert forall|i: int, j: int|
            0 <= i < j < front.len() && same_addresses(front[i].space, front[j].space) implies (
        #[trigger] front[i]).pci_end <= (#[trigger] front[j]).pci_start || front[j].pci_end
            <= front[i].pci_start by {
            assert(windows[i] == front[i] && windows[j] == front[j]);
        }
        assert forall|i: int|
            0 <= i < front.len() && same_addresses(
                (#[trigger] front[i]).space,
                window.space,
            ) implies front[i].pci_end <= window.pci_start || window.pci_end
            <= front[i].pci_start by {
            assert(windows[i] == front[i]);
        }
        lemma_insert_apart(front, window);
        let rest = insert_window(front, window);
        let all = insert_window(windows, window);
        assert(all == rest.push(last));
        assert forall|i: int| 0 <= i < rest.len() implies ((#[trigger] rest[i]) == window
            || windows.contains(rest[i])) && (same_addresses(rest[i].space, last.space)
            ==> rest[i].pci_end <= last.pci_start || last.pci_end <= rest[i].pci_start) by {
            if rest[i] != window {
                assert(front.contains(rest[i]));
                let k = choose|k: int| 0 <= k < front.len() && front[k] == rest[i];
                assert(windows[k] == rest[i]);
            }
        }
        assert forall|i: int, j: int|
            0 <= i < j < all.len() && same_addresses(all[i].space, all[j].space) implies (
        #[trigger] all[i]).pci_end <= (#[trigger] all[j]).pci_start || all[j].pci_end
            <= all[i].pci_start by {
            assert(all[i] == rest[i]);
            if j < rest.len() {
                assert(all[j] == rest[j]);
            }
        }
        assert forall|i: int| 0 <= i < all.len() implies (#[trigger] all[i]) == window
            || windows.contains(all[i]) by {
            if i < rest.len() {
                assert(all[i] == rest[i]);
            }
        }
    }
}

/// Sorting keeps windows apart.
proof fn lemma_sorted_apart(windows: Seq<PciBarRuntimeWindow>)
    requires
        windows_apart(windows),
    ensures
        windows_apart(sorted_windows(windows)),
        forall|i: int|
            0 <= i < sorted_windows(windows).len() ==> windows.contains(
                #[trigger] sorted_windows(windows)[i],
            ),
    decreases windows.len(),
{
    if windows.len() > 0 {
        let front = windows.drop_last();
        let last = windows.last();
        assert forall|i: int, j: int|
            0 <= i < j < front.len() && same_addresses(front[i].space, front[j].space) implies (
        #[trigger] front[i]).pci_end <= (#[trigger] front[j]).pci_start || front[j].pci_end
            <= front[i].pci_start by {
            assert(windows[i] == front[i] && windows[j] == front[j]);
        }
        lemma_sorted_apart(front);
        let sorted = sorted_windows(front);
        assert forall|i: int| 0 <= i < sorted.len() implies windows.contains(sorted[i]) && (
        same_addresses((#[trigger] sorted[i]).space, last.space) ==> sorted[i].pci_end
            <= last.pci_start || last.pci_end <= sorted[i].pci_start) by {
            let k = choose|k: int| 0 <= k < front.len() && front[k] == sorted[i];
            assert(front.contains(sorted[i]));
            assert(windows[k] == sorted[i]);
            assert(windows[windows.len() - 1] == last);
        }
        lemma_insert_apart(sorted, last);
        assert(windows[windows.len() - 1] == last);
        let all = sorted_windows(windows);
        assert forall|i: int| 0 <= i < all.len() implies windows.contains(#[trigger] all[i]) by {
            if all[i] != last {
                let k = choose|k: int| 0 <= k < sorted.len() && sorted[k] == all[i];
                assert(sorted.contains(all[i]));
                assert(windows.contains(sorted[k]));
            }
        }
    }
}

/// All ranges that an allocator ever grants, through either call, are apart from each
/// other, whatever else is called in between; only I/O and memory, which share no
/// addresses, may have the same numbers. The windows that it was made with must be
/// apart in that way.
pub proof fn granted_ranges_are_disjoint(
    windows: Seq<PciBarRuntimeWindow>,
    states: Seq<Seq<WindowModel>>,
    calls: Seq<AllocatorCall>,
    i: int,
    j: int,
)
    requires
        windows_apart(windows),
        history(windows, states, calls),
        0 <= i < j < calls.len(),
        granted(calls[i]) is Some,
        granted(calls[j]) is Some,
        same_addresses(granted(calls[i]).unwrap().space, granted(calls[j]).unwrap().space),
    ensures
        !overlap(granted(calls[i]).unwrap().range, granted(calls[j]).unwrap().range),
{
    let Grant { range: first, space: first_space } = granted(calls[i]).unwrap();
    let Grant { range: second, space: second_space } = granted(calls[j]).unwrap();
    assert forall|w: int| 0 <= w < states[i].len() implies (#[trigger] states[i][w]).wf() by {}
    assert forall|w: int| 0 <= w < states[j].len() implies (#[trigger] states[j][w]).wf() by {}
    lemma_call(states[i], calls[i], states[i + 1]);
    lemma_call(states[j], calls[j], states[j + 1]);
    let v = choose|w: int| #[trigger]
        granted_in(states[i], states[i + 1], first, first_space, w);
    let w = choose|w: int| #[trigger]
        granted_in(states[j], states[j + 1], second, second_space, w);
    lemma_grown(windows, states, calls, 0, i);
    lemma_grown(windows, states, calls, 0, j);
    lemma_grown(windows, states, calls, 0, i + 1);
    lemma_grown(windows, states, calls, 0, j + 1);
    lemma_grown(windows, states, calls, i + 1, j);
    assert(states[j][v].reserved.contains(first));
    let m = choose|m: int| 0 <= m < states[j][v].reserved.len() && states[j][v].reserved[m] == first;
    assert(states[j][v].wf());
    assert(states[j + 1][w].wf());
    let after = states[j + 1][w];
    let n = choose|n: int| 0 <= n < after.reserved.len() && after.reserved[n] == second;
    assert(after.reserved[n].start >= after.window.pci_start);
    assert(states[j][v].reserved[m].start >= states[j][v].window.pci_start);
    if v != w {
        lemma_sorted_apart(windows);
        let sorted = sorted_windows(windows);
        assert(states[0][v].window == sorted[v] && states[0][w].window == sorted[w]);
        if v < w {
            assert(sorted[v].pci_end <= sorted[w].pci_start || sorted[w].pci_end
                <= sorted[v].pci_start);
        } else {
            assert(sorted[w].pci_end <= sorted[v].pci_start || sorted[v].pci_end
                <= sorted[w].pci_start);
        }
    }
}

} // verus!
