//! What a host bridge is set up with, and how its address spaces are looked up.

use vstd::prelude::*;
use crate::pci::bar::{PciBarKind, PciBarRuntimeWindow, PciBarWindowSpace};
use crate::pci::host_table::{PciHostBusRange, PciHostTable};
use crate::pci::ls2k_config;
use crate::pci::ls2k_config::Ls2kConfigWindow;

verus! {

/// Address space of a range that firmware describes.
#[derive(Clone, Copy, PartialEq, Eq, Structural, Debug)]
pub enum DtbPciAddressSpace {
    Io,
    Memory,
    PrefetchableMemory,
    Unknown(u8),
}

/// A range that firmware describes.
#[derive(Clone, Copy, PartialEq, Eq, Structural, Debug)]
pub struct DtbPciRangeInfo {
    pub space: DtbPciAddressSpace,
    pub child_addr: u64,
    pub parent_addr: usize,
    pub size: usize,
}

/// The space of a window, if it is one that registers can be placed in.
pub open spec fn window_space(space: DtbPciAddressSpace) -> Option<PciBarWindowSpace> {
    match space {
        DtbPciAddressSpace::Io => Some(PciBarWindowSpace::Io),
        DtbPciAddressSpace::Memory => Some(PciBarWindowSpace::Memory),
        DtbPciAddressSpace::PrefetchableMemory => Some(PciBarWindowSpace::PrefetchableMemory),
        DtbPciAddressSpace::Unknown(_) => None,
    }
}

/// Whether a range makes a window.
pub open spec fn range_usable(range: DtbPciRangeInfo) -> bool {
    &&& window_space(range.space) is Some
    &&& range.size != 0
    &&& range.child_addr + range.size <= u64::MAX
    &&& range.parent_addr + range.size <= usize::MAX
}

/// The window of a range.
pub open spec fn window_of(range: DtbPciRangeInfo) -> PciBarRuntimeWindow {
    PciBarRuntimeWindow {
        space: window_space(range.space)->0,
        pci_start: range.child_addr,
        pci_end: (range.child_addr + range.size) as u64,
        cpu_start: range.parent_addr,
    }
}

/// The window of a range.
pub fn pci_runtime_window(range: &DtbPciRangeInfo) -> (result: Option<PciBarRuntimeWindow>)
    ensures
        result == (if range_usable(*range) {
            Some(window_of(*range))
        } else {
            None
        }),
        result matches Some(window) ==> window.wf(),
{
    let space = match range.space {
        DtbPciAddressSpace::Io => PciBarWindowSpace::Io,
        DtbPciAddressSpace::Memory => PciBarWindowSpace::Memory,
        DtbPciAddressSpace::PrefetchableMemory => PciBarWindowSpace::PrefetchableMemory,
        DtbPciAddressSpace::Unknown(_) => {
            return None;
        },
    };
    PciBarRuntimeWindow::new(space, range.child_addr, range.parent_addr, range.size)
}

/// Whether two windows have a PCI address in common; I/O and memory are apart.
pub open spec fn windows_meet(left: PciBarRuntimeWindow, right: PciBarRuntimeWindow) -> bool {
    &&& (left.space == PciBarWindowSpace::Io) == (right.space == PciBarWindowSpace::Io)
    &&& left.pci_start < right.pci_end
    &&& right.pci_start < left.pci_end
}

pub fn pci_windows_overlap(left: PciBarRuntimeWindow, right: PciBarRuntimeWindow) -> (result: bool)
    ensures
        result == windows_meet(left, right),
{
    (left.space == PciBarWindowSpace::Io) == (right.space == PciBarWindowSpace::Io)
        && left.pci_start < right.pci_end && right.pci_start < left.pci_end
}

/// The ranges of a known space.
pub open spec fn known_ranges(ranges: Seq<DtbPciRangeInfo>) -> Seq<DtbPciRangeInfo>
    decreases ranges.len(),
{
    if ranges.len() == 0 {
        ranges
    } else if window_space(ranges.last().space) is Some {
        known_ranges(ranges.drop_last()).push(ranges.last())
    } else {
        known_ranges(ranges.drop_last())
    }
}

/// Whether the windows of a host can be set up: there is one at least, each is
/// valid, and no two overlap.
pub open spec fn ranges_valid(known: Seq<DtbPciRangeInfo>) -> bool {
    &&& forall|i: int| 0 <= i < known.len() ==> range_usable(#[trigger] known[i])
    &&& forall|i: int, j: int|
        0 <= i < j < known.len() ==> !windows_meet(
            window_of(#[trigger] known[i]),
            window_of(#[trigger] known[j]),
        )
}

/// The windows of a host.
pub fn host_windows(ranges: &Vec<DtbPciRangeInfo>) -> (result: Option<Vec<PciBarRuntimeWindow>>)
    ensures
        match result {
            Some(windows) => {
                let known = known_ranges(ranges@);
                &&& known.len() > 0
                &&& ranges_valid(known)
                &&& windows@ == known.map_values(|range: DtbPciRangeInfo| window_of(range))
                &&& forall|i: int| 0 <= i < windows@.len() ==> (#[trigger] windows@[i]).wf()
            },
            None => known_ranges(ranges@).len() == 0 || !ranges_valid(known_ranges(ranges@)),
        },
{
    let mut windows: Vec<PciBarRuntimeWindow> = Vec::new();
    let ghost f = |range: DtbPciRangeInfo| window_of(range);
    let mut i: usize = 0;
    assert(ranges@.take(0) =~= Seq::empty());
    assert(windows@ =~= known_ranges(ranges@.take(0)).map_values(f));
    while i < ranges.len()
        invariant
            i <= ranges@.len(),
            f == (|range: DtbPciRangeInfo| window_of(range)),
            ranges_valid(known_ranges(ranges@.take(i as int))),
            windows@ == known_ranges(ranges@.take(i as int)).map_values(f),
            forall|k: int| 0 <= k < windows@.len() ==> (#[trigger] windows@[k]).wf(),
        decreases ranges@.len() - i,
    {
        let ghost known = known_ranges(ranges@.take(i as int));
        assert(ranges@.take(i + 1).drop_last() =~= ranges@.take(i as int));
        let range = ranges[i];
        let known_space = match range.space {
            DtbPciAddressSpace::Unknown(_) => false,
            _ => true,
        };
        if known_space {
            let ghost next = known_ranges(ranges@.take(i + 1));
            assert(next == known.push(range));
            proof {
                lemma_known_prefix(ranges@, i + 1);
            }
            let window = match pci_runtime_window(&range) {
                Some(window) => window,
                None => {
                    proof {
                        let all = known_ranges(ranges@);
                        assert(all[known.len() as int] == next[known.len() as int]);
                        assert(!range_usable(all[known.len() as int]));
                    }
                    return None;
                },
            };
            let mut k: usize = 0;
            while k < windows.len()
                invariant
                    k <= windows@.len(),
                    i < ranges@.len(),
                    windows@ == known.map_values(f),
                    f == (|range: DtbPciRangeInfo| window_of(range)),
                    window == window_of(range),
                    next == known.push(range),
                    next == known_ranges(ranges@.take(i + 1)),
                    next.len() <= known_ranges(ranges@).len(),
                    forall|j: int|
                        0 <= j < next.len() ==> #[trigger] known_ranges(ranges@)[j] == next[j],
                    forall|j: int| 0 <= j < k ==> !windows_meet(#[trigger] windows@[j], window),
                decreases windows@.len() - k,
            {
                if pci_windows_overlap(windows[k], window) {
                    proof {
                        let all = known_ranges(ranges@);
                        assert(all[k as int] == next[k as int]);
                        assert(all[known.len() as int] == next[known.len() as int]);
                        assert(windows@[k as int] == window_of(known[k as int]));
                        assert(!ranges_valid(all));
                    }
                    return None;
                }
                k += 1;
            }
            windows.push(window);
            proof {
                assert(windows@ =~= next.map_values(f));
                assert forall|a: int, b: int| 0 <= a < b < next.len() implies !windows_meet(
                    window_of(#[trigger] next[a]),
                    window_of(#[trigger] next[b]),
                ) by {
                    if b < known.len() {
                        assert(next[a] == known[a] && next[b] == known[b]);
                    } else {
                        assert(windows@[a] == window_of(next[a]));
                    }
                }
                assert forall|a: int| 0 <= a < next.len() implies range_usable(
                    #[trigger] next[a],
                ) by {
                    if a < known.len() {
                        assert(next[a] == known[a]);
                    }
                }
            }
        }
        i += 1;
    }
    assert(ranges@.take(i as int) =~= ranges@);
    if windows.len() == 0 {
        return None;
    }
    Some(windows)
}

proof fn lemma_known_prefix(ranges: Seq<DtbPciRangeInfo>, count: int)
    requires
        0 <= count <= ranges.len(),
    ensures
        known_ranges(ranges.take(count)).len() <= known_ranges(ranges).len(),
        forall|j: int|
            0 <= j < known_ranges(ranges.take(count)).len() ==> #[trigger] known_ranges(ranges)[j]
                == known_ranges(ranges.take(count))[j],
    decreases ranges.len() - count,
{
    if count == ranges.len() {
        assert(ranges.take(count) =~= ranges);
    } else {
        lemma_known_prefix(ranges, count + 1);
        assert(ranges.take(count + 1).drop_last() =~= ranges.take(count));
        let shorter = known_ranges(ranges.take(count));
        let longer = known_ranges(ranges.take(count + 1));
        assert forall|j: int| 0 <= j < shorter.len() implies #[trigger] known_ranges(ranges)[j]
            == shorter[j] by {
            assert(known_ranges(ranges)[j] == longer[j]);
        }
    }
}

/// Layout of configuration space.
#[derive(Clone, Copy, PartialEq, Eq, Structural, Debug)]
pub enum DtbPciConfigSpace {
    Cam,
    Ecam,
    Ls2k1000,
}

/// Number of bytes per function.
pub open spec fn function_bytes(space: DtbPciConfigSpace) -> int {
    match space {
        DtbPciConfigSpace::Cam => 0x100,
        _ => 0x1000,
    }
}

pub fn bytes_per_function(space: DtbPciConfigSpace) -> (bytes: u16)
    ensures
        bytes == function_bytes(space),
{
    match space {
        DtbPciConfigSpace::Cam => 0x100,
        _ => 0x1000,
    }
}

/// Why configuration space cannot be accessed.
#[derive(Clone, Copy, PartialEq, Eq, Structural, Debug)]
pub enum PciConfigError {
    Uninitialized,
    InvalidOffset,
}

/// The configuration space of a host.
#[derive(Clone, Copy, PartialEq, Eq, Structural, Debug)]
pub struct PciEcamRegion {
    pub phys_base: usize,
    pub bus_start: u8,
    pub bus_end: u8,
    pub vbase: usize,
    pub size: usize,
    pub config_space: DtbPciConfigSpace,
}

impl PciEcamRegion {
    /// Whether the window reaches every function of its buses, seen by physical
    /// and by virtual address.
    pub open spec fn wf(self) -> bool {
        &&& self.bus_start <= self.bus_end
        &&& self.phys_base + self.size <= usize::MAX
        &&& self.vbase + self.size <= usize::MAX
        &&& if self.config_space == DtbPciConfigSpace::Ls2k1000 {
            &&& (Ls2kConfigWindow {
                base: self.phys_base,
                size: self.size,
                bus_start: self.bus_start,
                bus_end: self.bus_end,
            }).wf()
            &&& self.virtual_window().wf()
        } else {
            self.size >= (self.bus_end - self.bus_start + 1) * 256 * function_bytes(
                self.config_space,
            )
        }
    }

    /// The window by its virtual address.
    pub open spec fn virtual_window(self) -> Ls2kConfigWindow {
        Ls2kConfigWindow {
            base: self.vbase,
            size: self.size,
            bus_start: self.bus_start,
            bus_end: self.bus_end,
        }
    }

    pub fn new(
        phys_base: u64,
        size: u64,
        bus_start: u8,
        bus_end: u8,
        config_space: DtbPciConfigSpace,
        vbase: usize,
    ) -> (result: Option<Self>)
        ensures
            match result {
                Some(region) => region.wf() && region == (PciEcamRegion {
                    phys_base: phys_base as usize,
                    bus_start,
                    bus_end,
                    vbase,
                    size: size as usize,
                    config_space,
                }) && phys_base <= usize::MAX && size <= usize::MAX,
                None => phys_base > usize::MAX || size > usize::MAX || !(PciEcamRegion {
                    phys_base: phys_base as usize,
                    bus_start,
                    bus_end,
                    vbase,
                    size: size as usize,
                    config_space,
                }).wf(),
            },
    {
        if phys_base > usize::MAX as u64 || size > usize::MAX as u64 {
            return None;
        }
        let phys: usize = phys_base as usize;
        let bytes: usize = size as usize;
        if bus_start > bus_end {
            return None;
        }
        let buses: usize = bus_end as usize - bus_start as usize + 1;
        let valid = match config_space {
            DtbPciConfigSpace::Ls2k1000 => Ls2kConfigWindow::new(
                phys,
                bytes,
                bus_start,
                bus_end,
            ).is_ok() && Ls2kConfigWindow::new(vbase, bytes, bus_start, bus_end).is_ok(),
            DtbPciConfigSpace::Cam => bytes >= buses * 256 * 0x100,
            DtbPciConfigSpace::Ecam => bytes >= buses * 256 * 0x1000,
        };
        if !valid || phys.checked_add(bytes).is_none() || vbase.checked_add(bytes).is_none() {
            return None;
        }
        Some(PciEcamRegion { phys_base: phys, bus_start, bus_end, vbase, size: bytes, config_space })
    }

    /// Place of a register in a linear window.
    pub open spec fn linear_offset(self, bus: u8, device: u8, function: u8, offset: u16) -> int {
        (((bus - self.bus_start) * 32 + device) * 8 + function) * function_bytes(self.config_space)
            + offset
    }

    /// The address of a register of a function.
    pub fn address(&self, bus: u8, device: u8, function: u8, offset: u16, width: usize) -> (result:
        Result<usize, PciConfigError>)
        requires
            self.wf(),
            self.bus_start <= bus <= self.bus_end,
        ensures
            match result {
                Ok(address) => {
                    &&& device < 32
                    &&& function < 8
                    &&& offset < function_bytes(self.config_space)
                    &&& self.vbase <= address < self.vbase + self.size
                    &&& if self.config_space == DtbPciConfigSpace::Ls2k1000 {
                        &&& self.virtual_window().access_error(
                            bus,
                            device,
                            function,
                            offset,
                            width,
                        ) is None
                        &&& address == self.vbase + ls2k_config::offset_of(
                            self.bus_start,
                            bus,
                            device,
                            function,
                            offset,
                        )
                    } else {
                        address == self.vbase + self.linear_offset(bus, device, function, offset)
                    }
                },
                Err(error) => error == PciConfigError::InvalidOffset && (device >= 32 || function
                    >= 8 || offset >= function_bytes(self.config_space) || (self.config_space
                    == DtbPciConfigSpace::Ls2k1000 && self.virtual_window().access_error(
                    bus,
                    device,
                    function,
                    offset,
                    width,
                ) is Some)),
            },
    {
        if device >= 32 || function >= 8 || offset >= bytes_per_function(self.config_space) {
            return Err(PciConfigError::InvalidOffset);
        }
        if self.config_space == DtbPciConfigSpace::Ls2k1000 {
            let window = Ls2kConfigWindow {
                base: self.vbase,
                size: self.size,
                bus_start: self.bus_start,
                bus_end: self.bus_end,
            };
            return match window.address(bus, device, function, offset, width) {
                Ok(address) => Ok(address),
                Err(_) => Err(PciConfigError::InvalidOffset),
            };
        }
        let bytes: usize = bytes_per_function(self.config_space) as usize;
        let index: usize = ((bus - self.bus_start) as usize * 32 + device as usize) * 8
            + function as usize;
        proof {
            let total = (self.bus_end - self.bus_start + 1) * 256;
            assert(index < total);
            assert(index * bytes + bytes <= total * bytes) by (nonlinear_arith)
                requires
                    index + 1 <= total,
                    bytes > 0,
            ;
        }
        let place: usize = index * bytes + offset as usize;
        Ok(self.vbase + place)
    }
}

/// Two registers of a linear window share a place only if they are the same.
pub proof fn linear_offsets_are_distinct(
    region: PciEcamRegion,
    bus: u8,
    device: u8,
    function: u8,
    offset: u16,
    other_bus: u8,
    other_device: u8,
    other_function: u8,
    other_offset: u16,
)
    requires
        region.config_space != DtbPciConfigSpace::Ls2k1000,
        region.bus_start <= bus,
        region.bus_start <= other_bus,
        device < 32 && function < 8 && offset < function_bytes(region.config_space),
        other_device < 32 && other_function < 8 && other_offset < function_bytes(
            region.config_space,
        ),
        region.linear_offset(bus, device, function, offset) == region.linear_offset(
            other_bus,
            other_device,
            other_function,
            other_offset,
        ),
    ensures
        bus == other_bus && device == other_device && function == other_function && offset
            == other_offset,
{
}

/// Whether two ranges overlap; one that does not fit the address range counts
/// as overlapping everything.
pub open spec fn ranges_clash(left_start: usize, left_size: usize, right_start: usize, right_size: usize) -> bool {
    ||| left_start + left_size > usize::MAX
    ||| right_start + right_size > usize::MAX
    ||| left_start < right_start + right_size && right_start < left_start + left_size
}

pub fn usize_ranges_overlap(
    left_start: usize,
    left_size: usize,
    right_start: usize,
    right_size: usize,
) -> (result: bool)
    ensures
        result == ranges_clash(left_start, left_size, right_start, right_size),
{
    match left_start.checked_add(left_size) {
        Some(left_end) => match right_start.checked_add(right_size) {
            Some(right_end) => left_start < right_end && right_start < left_end,
            None => true,
        },
        None => true,
    }
}

/// Whether a region may be added: neither its physical nor its virtual window
/// overlaps one that is there.
pub open spec fn region_apart(existing: PciEcamRegion, candidate: PciEcamRegion) -> bool {
    &&& !ranges_clash(existing.phys_base, existing.size, candidate.phys_base, candidate.size)
    &&& !ranges_clash(existing.vbase, existing.size, candidate.vbase, candidate.size)
}

/// Whether all regions of a table are valid.
pub open spec fn regions_wf(table: Seq<(PciHostBusRange, PciEcamRegion)>) -> bool {
    forall|i: int|
        0 <= i < table.len() ==> {
            let entry = #[trigger] table[i];
            &&& entry.1.wf()
            &&& entry.0.bus_start == entry.1.bus_start
            &&& entry.0.bus_end == entry.1.bus_end
        }
}

/// Whether every region of a table is apart from the candidate.
pub open spec fn all_apart(
    table: Seq<(PciHostBusRange, PciEcamRegion)>,
    candidate: PciEcamRegion,
) -> bool {
    forall|i: int| 0 <= i < table.len() ==> region_apart((#[trigger] table[i]).1, candidate)
}

/// Whether no host of a table has a bus of `key`.
pub open spec fn key_free<T>(table: Seq<(PciHostBusRange, T)>, key: PciHostBusRange) -> bool {
    forall|i: int| 0 <= i < table.len() ==> !(#[trigger] table[i]).0.meets(key)
}

/// Adds a region; a region that clashes with another is refused.
pub fn install_ecam(
    regions: &mut PciHostTable<PciEcamRegion>,
    key: PciHostBusRange,
    candidate: PciEcamRegion,
) -> (ok: bool)
    requires
        old(regions).wf(),
        regions_wf(old(regions)@),
        key.wf(),
        candidate.wf(),
        key.bus_start == candidate.bus_start,
        key.bus_end == candidate.bus_end,
    ensures
        final(regions).wf(),
        regions_wf(final(regions)@),
        ok == (all_apart(old(regions)@, candidate) && key_free(old(regions)@, key)),
        final(regions)@ == (if ok {
            old(regions)@.push((key, candidate))
        } else {
            old(regions)@
        }),
{
    let mut i: usize = 0;
    while i < regions.len()
        invariant
            i <= regions@.len(),
            *regions == *old(regions),
            regions.wf(),
            regions_wf(regions@),
            forall|j: int| 0 <= j < i ==> region_apart((#[trigger] regions@[j]).1, candidate),
        decreases regions@.len() - i,
    {
        let existing = *regions.value(i);
        if usize_ranges_overlap(
            existing.phys_base,
            existing.size,
            candidate.phys_base,
            candidate.size,
        ) || usize_ranges_overlap(
            existing.vbase,
            existing.size,
            candidate.vbase,
            candidate.size,
        ) {
            assert(!region_apart(regions@[i as int].1, candidate));
            return false;
        }
        i += 1;
    }
    regions.insert(key, candidate)
}

/// The address of a register: an empty table means that nothing was set up yet,
/// a bus without a host that the access is wrong.
pub fn ecam_addr(
    regions: &PciHostTable<PciEcamRegion>,
    segment: u16,
    bus: u8,
    device: u8,
    function: u8,
    offset: u16,
    width: usize,
) -> (result: Result<usize, PciConfigError>)
    requires
        regions.wf(),
        regions_wf(regions@),
    ensures
        match result {
            Ok(address) => exists|i: int| #[trigger]
                regions.found_at(segment, bus, i) && {
                    let region = regions@[i].1;
                    &&& device < 32
                    &&& function < 8
                    &&& offset < function_bytes(region.config_space)
                    &&& region.vbase <= address < region.vbase + region.size
                    &&& region.config_space != DtbPciConfigSpace::Ls2k1000 ==> address
                        == region.vbase + region.linear_offset(bus, device, function, offset)
                    &&& region.config_space == DtbPciConfigSpace::Ls2k1000 ==> address
                        == region.vbase + ls2k_config::offset_of(
                        region.bus_start,
                        bus,
                        device,
                        function,
                        offset,
                    )
                },
            Err(PciConfigError::Uninitialized) => regions@.len() == 0 && device < 32 && function < 8
                && offset < 0x1000,
            Err(PciConfigError::InvalidOffset) => device >= 32 || function >= 8 || offset >= 0x1000
                || (forall|i: int| !#[trigger] regions.found_at(segment, bus, i)) || exists|i: int| #[trigger]
                regions.found_at(segment, bus, i) && {
                    let region = regions@[i].1;
                    ||| offset >= function_bytes(region.config_space)
                    ||| region.config_space == DtbPciConfigSpace::Ls2k1000
                        && region.virtual_window().access_error(
                        bus,
                        device,
                        function,
                        offset,
                        width,
                    ) is Some
                },
        },
{
    if device >= 32 || function >= 8 || offset >= 0x1000 {
        return Err(PciConfigError::InvalidOffset);
    }
    if regions.is_empty() {
        return Err(PciConfigError::Uninitialized);
    }
    match regions.get(segment, bus) {
        Some(region) => {
            assert(exists|i: int| #[trigger]
                regions.found_at(segment, bus, i) && *region == regions@[i].1);
            region.address(bus, device, function, offset, width)
        },
        None => Err(PciConfigError::InvalidOffset),
    }
}

/// Whether a register lies in a window of its kind.
pub open spec fn window_maps(
    window: PciBarRuntimeWindow,
    kind: PciBarKind,
    pci_address: u64,
    size: u64,
) -> bool {
    &&& window.takes(kind)
    &&& window.pci_start <= pci_address
    &&& pci_address + size <= window.pci_end
}

/// Whether window `at` is the one that a register is mapped by: the first
/// prefetchable one for a prefetchable register, else the first.
pub open spec fn maps_by(
    windows: Seq<PciBarRuntimeWindow>,
    kind: PciBarKind,
    pci_address: u64,
    size: u64,
    at: int,
) -> bool {
    let exact = kind == (PciBarKind::Memory { prefetchable: true });
    let preferred = |i: int| exact && windows[i].space == PciBarWindowSpace::PrefetchableMemory;
    &&& 0 <= at < windows.len()
    &&& window_maps(windows[at], kind, pci_address, size)
    &&& forall|i: int|
        0 <= i < windows.len() && window_maps(#[trigger] windows[i], kind, pci_address, size) ==> {
            &&& preferred(i) ==> preferred(at)
            &&& i < at ==> preferred(at) && !preferred(i)
        }
}

/// The CPU address of a register of a host.
pub fn resolve_bar_mapping(
    windows: &Vec<PciBarRuntimeWindow>,
    kind: PciBarKind,
    pci_address: u64,
    size: u64,
) -> (result: Option<usize>)
    requires
        forall|i: int| 0 <= i < windows@.len() ==> (#[trigger] windows@[i]).wf(),
    ensures
        match result {
            Some(cpu) => exists|at: int| #[trigger]
                maps_by(windows@, kind, pci_address, size, at) && cpu == windows@[at].cpu_start + (
                pci_address - windows@[at].pci_start),
            None => forall|i: int|
                0 <= i < windows@.len() ==> !window_maps(
                    #[trigger] windows@[i],
                    kind,
                    pci_address,
                    size,
                ),
        },
{
    let exact = match kind {
        PciBarKind::Memory { prefetchable } => prefetchable,
        PciBarKind::Io => false,
    };
    let mut best: Option<usize> = None;
    let mut i: usize = 0;
    while i < windows.len()
        invariant
            i <= windows@.len(),
            exact == (kind == (PciBarKind::Memory { prefetchable: true })),
            forall|k: int| 0 <= k < windows@.len() ==> (#[trigger] windows@[k]).wf(),
            match best {
                None => forall|k: int|
                    0 <= k < i ==> !window_maps(
                        #[trigger] windows@[k],
                        kind,
                        pci_address,
                        size,
                    ),
                Some(at) => at < i && maps_by(
                    windows@.take(i as int),
                    kind,
                    pci_address,
                    size,
                    at as int,
                ),
            },
        decreases windows@.len() - i,
    {
        let window = windows[i];
        assert(windows@[i as int].wf());
        let ghost before = windows@.take(i as int);
        let ghost after = windows@.take(i + 1);
        let maps = window.accepts(kind) && window.cpu_address(pci_address, size).is_some();
        assert(maps == window_maps(window, kind, pci_address, size));
        if maps {
            match best {
                None => {
                    best = Some(i);
                },
                Some(at) => {
                    if exact && window.space == PciBarWindowSpace::PrefetchableMemory
                        && windows[at].space != PciBarWindowSpace::PrefetchableMemory {
                        best = Some(i);
                    }
                },
            }
        }
        proof {
            assert forall|k: int| 0 <= k < i implies #[trigger] after[k] == before[k] by {}
            assert(after[i as int] == window);
            assert forall|k: int| 0 <= k < i implies #[trigger] windows@[k] == before[k] by {}
        }
        i += 1;
    }
    assert(windows@.take(i as int) =~= windows@);
    match best {
        Some(at) => windows[at].cpu_address(pci_address, size),
        None => None,
    }
}

} // verus!
