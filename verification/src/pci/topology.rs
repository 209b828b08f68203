//! Resources behind bridges and the registers that forward them.

use vstd::prelude::*;
use crate::align;
use crate::align::align_up;

verus! {

pub const PCI_IO_WINDOW_GRANULARITY: u64 = 0x1000;

pub const PCI_MEMORY_WINDOW_GRANULARITY: u64 = 0x10_0000;

pub const PCI_16BIT_IO_END: u64 = 0x1_0000;

pub const PCI_32BIT_ADDRESS_END: u64 = 0x1_0000_0000;

#[derive(Clone, Copy, Debug, PartialEq, Eq, Structural)]
pub enum PciResourceSpace {
    Io,
    Memory,
    PrefetchableMemory,
}

/// A half-open range of PCI addresses.
#[derive(Clone, Copy, Debug, PartialEq, Eq, Structural)]
pub struct PciResourceRange {
    pub start: u64,
    pub end: u64,
}

impl PciResourceRange {
    /// Whether `address` lies in the range.
    pub open spec fn holds(self, address: int) -> bool {
        self.start <= address < self.end
    }

    pub fn new(start: u64, size: u64) -> (result: Option<Self>)
        ensures
            result is Some <==> size != 0 && start + size <= u64::MAX,
            result matches Some(range) ==> range.start == start && range.end == start + size,
    {
        if size == 0 {
            return None;
        }
        match start.checked_add(size) {
            Some(end) => Some(PciResourceRange { start, end }),
            None => None,
        }
    }

    pub open spec fn meets(self, other: Self) -> bool {
        self.start < other.end && other.start < self.end
    }

    pub fn overlaps(self, other: Self) -> (result: bool)
        ensures
            result == self.meets(other),
    {
        self.start < other.end && other.start < self.end
    }

    /// The smallest range that holds both.
    pub open spec fn hull(self, other: Self) -> Self {
        PciResourceRange {
            start: if self.start < other.start {
                self.start
            } else {
                other.start
            },
            end: if self.end > other.end {
                self.end
            } else {
                other.end
            },
        }
    }

    pub fn cover(self, other: Self) -> (result: Self)
        ensures
            result == self.hull(other),
    {
        PciResourceRange {
            start: if self.start < other.start {
                self.start
            } else {
                other.start
            },
            end: if self.end > other.end {
                self.end
            } else {
                other.end
            },
        }
    }
}

/// For each space, the smallest range that holds what a bus and everything
/// below it use.
#[derive(Clone, Copy, Debug, PartialEq, Eq, Structural)]
pub struct PciResourceEnvelope {
    pub io: Option<PciResourceRange>,
    pub memory: Option<PciResourceRange>,
    pub prefetchable: Option<PciResourceRange>,
}

impl Default for PciResourceEnvelope {
    fn default() -> (envelope: Self)
        ensures
            envelope == (PciResourceEnvelope { io: None, memory: None, prefetchable: None }),
    {
        PciResourceEnvelope { io: None, memory: None, prefetchable: None }
    }
}

impl PciResourceEnvelope {
    /// The range of a space.
    pub open spec fn of(self, space: PciResourceSpace) -> Option<PciResourceRange> {
        match space {
            PciResourceSpace::Io => self.io,
            PciResourceSpace::Memory => self.memory,
            PciResourceSpace::PrefetchableMemory => self.prefetchable,
        }
    }

    /// The envelope with another range for one space.
    pub open spec fn with(self, space: PciResourceSpace, range: Option<PciResourceRange>) -> Self {
        match space {
            PciResourceSpace::Io => PciResourceEnvelope { io: range, ..self },
            PciResourceSpace::Memory => PciResourceEnvelope { memory: range, ..self },
            PciResourceSpace::PrefetchableMemory => PciResourceEnvelope {
                prefetchable: range,
                ..self
            },
        }
    }

    /// The envelope grown over a range.
    pub open spec fn grown(self, space: PciResourceSpace, range: PciResourceRange) -> Self {
        self.with(
            space,
            Some(
                match self.of(space) {
                    Some(existing) => existing.hull(range),
                    None => range,
                },
            ),
        )
    }

    /// Takes in a resource; an empty or overflowing one is refused.
    pub fn include_resource(&mut self, space: PciResourceSpace, address: u64, size: u64) -> (ok: bool)
        ensures
            ok == (size != 0 && address + size <= u64::MAX),
            ok ==> *final(self) == old(self).grown(
                space,
                (PciResourceRange { start: address, end: (address + size) as u64 }),
            ),
            !ok ==> *final(self) == *old(self),
    {
        match PciResourceRange::new(address, size) {
            Some(range) => {
                self.include_range(space, range);
                true
            },
            None => false,
        }
    }

    pub fn include_range(&mut self, space: PciResourceSpace, range: PciResourceRange)
        ensures
            *final(self) == old(self).grown(space, range),
    {
        let grown = match self.range(space) {
            Some(existing) => existing.cover(range),
            None => range,
        };
        self.replace(space, Some(grown));
    }

    pub fn range(self, space: PciResourceSpace) -> (range: Option<PciResourceRange>)
        ensures
            range == self.of(space),
    {
        match space {
            PciResourceSpace::Io => self.io,
            PciResourceSpace::Memory => self.memory,
            PciResourceSpace::PrefetchableMemory => self.prefetchable,
        }
    }

    pub fn clear(&mut self, space: PciResourceSpace)
        ensures
            *final(self) == old(self).with(space, None),
    {
        self.replace(space, None);
    }

    fn replace(&mut self, space: PciResourceSpace, range: Option<PciResourceRange>)
        ensures
            *final(self) == old(self).with(space, range),
    {
        match space {
            PciResourceSpace::Io => {
                self.io = range;
            },
            PciResourceSpace::Memory => {
                self.memory = range;
            },
            PciResourceSpace::PrefetchableMemory => {
                self.prefetchable = range;
            },
        }
    }
}

/// An envelope holds everything that it was grown over, and what it held.
pub proof fn envelope_covers_descendants(
    envelope: PciResourceEnvelope,
    space: PciResourceSpace,
    range: PciResourceRange,
    address: int,
)
    ensures
        range.holds(address) ==> envelope.grown(space, range).of(space)->0.holds(address),
        envelope.of(space) matches Some(existing) ==> existing.holds(address) ==> envelope.grown(
            space,
            range,
        ).of(space)->0.holds(address),
        forall|other: PciResourceSpace| #[trigger]
            envelope.of(other) != envelope.grown(space, range).of(other) ==> other == space,
{
}

/// Hands out bus numbers behind the root, in order.
pub struct PciBusNumberAllocator {
    next: u16,
    end: u8,
}

impl PciBusNumberAllocator {
    /// The number that is handed out next.
    pub closed spec fn next_bus(&self) -> int {
        self.next as int
    }

    /// The last number that may be handed out.
    pub closed spec fn last_bus(&self) -> u8 {
        self.end
    }

    pub fn new(root: u8, end: u8) -> (allocator: Self)
        ensures
            allocator.next_bus() == root + 1,
            allocator.last_bus() == end,
    {
        PciBusNumberAllocator { next: root as u16 + 1, end }
    }

    pub fn allocate(&mut self) -> (bus: Option<u8>)
        ensures
            final(self).last_bus() == old(self).last_bus(),
            match bus {
                Some(bus) => bus == old(self).next_bus() && bus <= old(self).last_bus()
                    && final(self).next_bus() == old(self).next_bus() + 1,
                None => old(self).next_bus() > old(self).last_bus() && final(self).next_bus()
                    == old(self).next_bus(),
            },
    {
        if self.next > self.end as u16 {
            return None;
        }
        let bus: u8 = self.next as u8;
        self.next = self.next + 1;
        Some(bus)
    }

    /// The highest number that was handed out, or the root.
    pub fn last_allocated(&self, root: u8) -> (bus: u8)
        requires
            self.next_bus() > root,
            self.next_bus() <= 256,
        ensures
            bus == self.next_bus() - 1,
    {
        if self.next == root as u16 + 1 {
            root
        } else {
            (self.next - 1) as u8
        }
    }
}

#[derive(Clone, Copy, Debug, PartialEq, Eq, Structural)]
pub enum PciBridgeWindowError {
    AddressOverflow,
    IoWidth,
    MemoryWidth,
    PrefetchableWidth,
}

#[derive(Clone, Copy, Debug, PartialEq, Eq, Structural)]
pub struct PciBridgeIoWindow {
    pub base_low: u8,
    pub limit_low: u8,
    pub base_upper: u16,
    pub limit_upper: u16,
    pub forwarded: PciResourceRange,
}

#[derive(Clone, Copy, Debug, PartialEq, Eq, Structural)]
pub struct PciBridgeMemoryWindow {
    pub base: u16,
    pub limit: u16,
    pub forwarded: PciResourceRange,
}

#[derive(Clone, Copy, Debug, PartialEq, Eq, Structural)]
pub struct PciBridgePrefetchWindow {
    pub base: u16,
    pub limit: u16,
    pub base_upper: u32,
    pub limit_upper: u32,
    pub forwarded: PciResourceRange,
}

/// Whether `rounded` is `range` with both ends moved outward to multiples of
/// the granularity.
pub open spec fn is_rounded(
    range: PciResourceRange,
    granularity: int,
    rounded: PciResourceRange,
) -> bool {
    &&& rounded.start as int % granularity == 0
    &&& range.start - granularity < rounded.start <= range.start
    &&& align::is_aligned_up(range.end as int, granularity, rounded.end as int)
}

/// Whether a range can be rounded outward.
pub open spec fn can_round(range: PciResourceRange, granularity: int) -> bool {
    range.start < range.end && range.end + granularity - 1 <= u64::MAX
}

fn rounded_range(range: PciResourceRange, granularity: u64) -> (result: Result<
    PciResourceRange,
    PciBridgeWindowError,
>)
    requires
        granularity > 0,
    ensures
        result is Ok <==> can_round(range, granularity as int),
        result matches Ok(rounded) ==> is_rounded(range, granularity as int, rounded)
            && rounded.start < rounded.end,
        result matches Err(error) ==> error == PciBridgeWindowError::AddressOverflow,
{
    if range.start >= range.end {
        return Err(PciBridgeWindowError::AddressOverflow);
    }
    proof {
        align::lemma_round_down(range.start as int, granularity as int);
    }
    let start: u64 = range.start - range.start % granularity;
    match align_up(range.end, granularity) {
        Some(end) => Ok(PciResourceRange { start, end }),
        None => Err(PciBridgeWindowError::AddressOverflow),
    }
}

impl PciBridgeIoWindow {
    /// What a bridge forwards by its registers: bits 12 to 15 come from the low
    /// registers, the rest from the upper ones, and the limit is inclusive.
    pub open spec fn decoded_start(self) -> int {
        self.base_upper * 0x1_0000 + self.base_low / 0x10 * 0x1000
    }

    pub open spec fn decoded_end(self) -> int {
        self.limit_upper * 0x1_0000 + self.limit_low / 0x10 * 0x1000 + 0x1000
    }
}

impl PciBridgeMemoryWindow {
    pub open spec fn decoded_start(self) -> int {
        self.base / 0x10 * 0x10_0000
    }

    pub open spec fn decoded_end(self) -> int {
        self.limit / 0x10 * 0x10_0000 + 0x10_0000
    }
}

impl PciBridgePrefetchWindow {
    pub open spec fn decoded_start(self) -> int {
        self.base_upper * 0x1_0000_0000 + self.base / 0x10 * 0x10_0000
    }

    pub open spec fn decoded_end(self) -> int {
        self.limit_upper * 0x1_0000_0000 + self.limit / 0x10 * 0x10_0000 + 0x10_0000
    }
}

/// The I/O registers of a bridge that forwards `range`. The low bits of the
/// registers say whether the upper ones exist.
pub fn encode_bridge_io_window(range: PciResourceRange, supports_32bit: bool) -> (result: Result<
    PciBridgeIoWindow,
    PciBridgeWindowError,
>)
    ensures
        match result {
            Ok(window) => {
                &&& can_round(range, 0x1000)
                &&& is_rounded(range, 0x1000, window.forwarded)
                &&& window.forwarded.end <= PCI_32BIT_ADDRESS_END
                &&& !supports_32bit ==> window.forwarded.end <= PCI_16BIT_IO_END
                &&& window.decoded_start() == window.forwarded.start
                &&& window.decoded_end() == window.forwarded.end
                &&& window.base_low % 0x10 == (if supports_32bit {
                    1int
                } else {
                    0int
                })
                &&& window.limit_low % 0x10 == window.base_low % 0x10
            },
            Err(error) => {
                &&& error == PciBridgeWindowError::AddressOverflow <==> !can_round(range, 0x1000)
                &&& error == PciBridgeWindowError::IoWidth <==> can_round(range, 0x1000) && (
                range.end > PCI_32BIT_ADDRESS_END || (!supports_32bit && range.end
                    > PCI_16BIT_IO_END))
                &&& error == PciBridgeWindowError::AddressOverflow || error
                    == PciBridgeWindowError::IoWidth
            },
        },
{
    let forwarded = match rounded_range(range, PCI_IO_WINDOW_GRANULARITY) {
        Ok(forwarded) => forwarded,
        Err(error) => {
            return Err(error);
        },
    };
    if forwarded.end > PCI_32BIT_ADDRESS_END || (!supports_32bit && forwarded.end
        > PCI_16BIT_IO_END) {
        return Err(PciBridgeWindowError::IoWidth);
    }
    let limit: u64 = forwarded.end - 1;
    let address_type: u8 = if supports_32bit {
        1
    } else {
        0
    };
    Ok(
        PciBridgeIoWindow {
            base_low: (forwarded.start / 0x1000 % 0x10) as u8 * 0x10 + address_type,
            limit_low: (limit / 0x1000 % 0x10) as u8 * 0x10 + address_type,
            base_upper: (forwarded.start / 0x1_0000) as u16,
            limit_upper: (limit / 0x1_0000) as u16,
            forwarded,
        },
    )
}

/// The memory registers of a bridge that forwards `range`.
pub fn encode_bridge_memory_window(range: PciResourceRange) -> (result: Result<
    PciBridgeMemoryWindow,
    PciBridgeWindowError,
>)
    ensures
        match result {
            Ok(window) => {
                &&& can_round(range, 0x10_0000)
                &&& is_rounded(range, 0x10_0000, window.forwarded)
                &&& window.forwarded.end <= PCI_32BIT_ADDRESS_END
                &&& window.decoded_start() == window.forwarded.start
                &&& window.decoded_end() == window.forwarded.end
                &&& window.base % 0x10 == 0
                &&& window.limit % 0x10 == 0
            },
            Err(error) => {
                &&& error == PciBridgeWindowError::AddressOverflow <==> !can_round(
                    range,
                    0x10_0000,
                )
                &&& error == PciBridgeWindowError::MemoryWidth <==> can_round(range, 0x10_0000)
                    && range.end > PCI_32BIT_ADDRESS_END
                &&& error == PciBridgeWindowError::AddressOverflow || error
                    == PciBridgeWindowError::MemoryWidth
            },
        },
{
    let forwarded = match rounded_range(range, PCI_MEMORY_WINDOW_GRANULARITY) {
        Ok(forwarded) => forwarded,
        Err(error) => {
            return Err(error);
        },
    };
    if forwarded.end > PCI_32BIT_ADDRESS_END {
        return Err(PciBridgeWindowError::MemoryWidth);
    }
    let limit: u64 = forwarded.end - 1;
    Ok(
        PciBridgeMemoryWindow {
            base: (forwarded.start / 0x10_0000 % 0x1000) as u16 * 0x10,
            limit: (limit / 0x10_0000 % 0x1000) as u16 * 0x10,
            forwarded,
        },
    )
}

/// The prefetchable memory registers of a bridge that forwards `range`. The low
/// bits of the registers say whether the upper ones exist.
#[verifier::spinoff_prover]
#[verifier::rlimit(60)]
pub fn encode_bridge_prefetch_window(range: PciResourceRange, supports_64bit: bool) -> (result:
    Result<PciBridgePrefetchWindow, PciBridgeWindowError>)
    ensures
        match result {
            Ok(window) => {
                &&& can_round(range, 0x10_0000)
                &&& is_rounded(range, 0x10_0000, window.forwarded)
                &&& !supports_64bit ==> window.forwarded.end <= PCI_32BIT_ADDRESS_END
                &&& window.decoded_start() == window.forwarded.start
                &&& window.decoded_end() == window.forwarded.end
                &&& window.base % 0x10 == (if supports_64bit {
                    1int
                } else {
                    0int
                })
                &&& window.limit % 0x10 == window.base % 0x10
            },
            Err(error) => {
                &&& error == PciBridgeWindowError::AddressOverflow <==> !can_round(
                    range,
                    0x10_0000,
                )
                &&& error == PciBridgeWindowError::PrefetchableWidth <==> can_round(
                    range,
                    0x10_0000,
                ) && !supports_64bit && range.end > PCI_32BIT_ADDRESS_END
                &&& error == PciBridgeWindowError::AddressOverflow || error
                    == PciBridgeWindowError::PrefetchableWidth
            },
        },
{
    let forwarded = match rounded_range(range, PCI_MEMORY_WINDOW_GRANULARITY) {
        Ok(forwarded) => forwarded,
        Err(error) => {
            return Err(error);
        },
    };
    if !supports_64bit && forwarded.end > PCI_32BIT_ADDRESS_END {
        return Err(PciBridgeWindowError::PrefetchableWidth);
    }
    let limit: u64 = forwarded.end - 1;
    let address_type: u16 = if supports_64bit {
        1
    } else {
        0
    };
    Ok(
        PciBridgePrefetchWindow {
            base: (forwarded.start / 0x10_0000 % 0x1000) as u16 * 0x10 + address_type,
            limit: (limit / 0x10_0000 % 0x1000) as u16 * 0x10 + address_type,
            base_upper: (forwarded.start / 0x1_0000_0000) as u32,
            limit_upper: (limit / 0x1_0000_0000) as u32,
            forwarded,
        },
    )
}

/// What a bridge forwards holds the whole range that it was set up for.
pub proof fn forwarded_window_covers_range(
    range: PciResourceRange,
    granularity: int,
    rounded: PciResourceRange,
    address: int,
)
    requires
        is_rounded(range, granularity, rounded),
        range.holds(address),
    ensures
        rounded.holds(address),
{
}

/// The ranges that the bridges of one bus forward.
pub struct PciBridgeApertureTracker {
    io: Vec<PciResourceRange>,
    memory: Vec<PciResourceRange>,
}

/// The ranges that are forwarded, by space; both kinds of memory share one list.
#[verifier::ext_equal]
pub ghost struct Apertures {
    pub io: Seq<PciResourceRange>,
    pub memory: Seq<PciResourceRange>,
}

impl Apertures {
    pub open spec fn of(self, space: PciResourceSpace) -> Seq<PciResourceRange> {
        match space {
            PciResourceSpace::Io => self.io,
            _ => self.memory,
        }
    }

    /// Whether nothing that is forwarded has an address in common with `range`.
    pub open spec fn free(self, space: PciResourceSpace, range: PciResourceRange) -> bool {
        forall|i: int| 0 <= i < self.of(space).len() ==> !(#[trigger] self.of(space)[i]).meets(range)
    }

    /// The ranges with one more.
    pub open spec fn with(self, space: PciResourceSpace, range: PciResourceRange) -> Apertures {
        match space {
            PciResourceSpace::Io => Apertures { io: self.io.push(range), ..self },
            _ => Apertures { memory: self.memory.push(range), ..self },
        }
    }
}

/// Whether no two ranges have an address in common.
pub open spec fn pairwise_apart(ranges: Seq<PciResourceRange>) -> bool {
    forall|i: int, j: int|
        0 <= i < j < ranges.len() ==> !(#[trigger] ranges[i]).meets(#[trigger] ranges[j])
}

impl View for PciBridgeApertureTracker {
    type V = Apertures;

    closed spec fn view(&self) -> Apertures {
        Apertures { io: self.io@, memory: self.memory@ }
    }
}

impl PciBridgeApertureTracker {
    /// No two bridges forward the same address.
    pub open spec fn wf(&self) -> bool {
        pairwise_apart(self@.io) && pairwise_apart(self@.memory)
    }

    pub fn new() -> (tracker: Self)
        ensures
            tracker.wf(),
            tracker@ == (Apertures { io: Seq::empty(), memory: Seq::empty() }),
    {
        let tracker = PciBridgeApertureTracker { io: Vec::new(), memory: Vec::new() };
        assert(tracker@.io =~= Seq::empty() && tracker@.memory =~= Seq::empty());
        tracker
    }

    /// Takes a range unless a sibling bridge forwards a part of it.
    pub fn reserve(&mut self, space: PciResourceSpace, range: PciResourceRange) -> (ok: bool)
        requires
            old(self).wf(),
        ensures
            final(self).wf(),
            ok == old(self)@.free(space, range),
            final(self)@ == (if ok {
                old(self)@.with(space, range)
            } else {
                old(self)@
            }),
    {
        let apart = match space {
            PciResourceSpace::Io => all_apart(&self.io, range),
            _ => all_apart(&self.memory, range),
        };
        proof {
            let list = self@.of(space);
            assert(list == match space {
                PciResourceSpace::Io => self.io@,
                _ => self.memory@,
            });
            assert(apart == (forall|i: int|
                0 <= i < list.len() ==> !(#[trigger] list[i]).meets(range)));
        }
        if !apart {
            return false;
        }
        match space {
            PciResourceSpace::Io => {
                self.io.push(range);
            },
            _ => {
                self.memory.push(range);
            },
        }
        true
    }
}

fn all_apart(ranges: &Vec<PciResourceRange>, range: PciResourceRange) -> (apart: bool)
    ensures
        apart == (forall|i: int|
            0 <= i < ranges@.len() ==> !(#[trigger] ranges@[i]).meets(range)),
{
    let mut i: usize = 0;
    while i < ranges.len()
        invariant
            i <= ranges@.len(),
            forall|j: int| 0 <= j < i ==> !(#[trigger] ranges@[j]).meets(range),
        decreases ranges@.len() - i,
    {
        if ranges[i].overlaps(range) {
            return false;
        }
        i += 1;
    }
    true
}

} // verus!
