//! What firmware says of direct memory access behind a host bridge.

use vstd::prelude::*;
use crate::platform::has_id;
use crate::platform;

verus! {

pub const COMPAT_PCI_ECAM: &'static str = "pci-host-ecam-generic";

pub const COMPAT_PCIE_ECAM: &'static str = "pcie-host-ecam-generic";

pub const COMPAT_PCI_CAM: &'static str = "pci-host-cam-generic";

pub const COMPAT_LS2K1000_PCI: &'static str = "loongson,ls2k1000-pci";

/// Whether a device is a host bridge.
pub fn matches_platform(ids: &Vec<String>) -> (matched: bool)
    ensures
        matched == (platform::compatible(ids@, COMPAT_PCI_ECAM@) || platform::compatible(
            ids@,
            COMPAT_PCIE_ECAM@,
        ) || platform::compatible(ids@, COMPAT_PCI_CAM@) || platform::compatible(
            ids@,
            COMPAT_LS2K1000_PCI@,
        )),
{
    has_id(ids, COMPAT_PCI_ECAM) || has_id(ids, COMPAT_PCIE_ECAM) || has_id(ids, COMPAT_PCI_CAM)
        || has_id(ids, COMPAT_LS2K1000_PCI)
}

/// Addresses as the CPU and as devices see them.
#[derive(Clone, Copy, PartialEq, Eq, Structural, Debug)]
pub struct DmaWindow {
    pub cpu_start: u64,
    pub dma_start: u64,
    pub size: u64,
}

/// A reference from a device to a provider.
pub struct DtbProviderReference {
    pub property: String,
    pub provider_available: Option<bool>,
    pub phandle: u32,
    pub provider_path: Option<String>,
    pub args: Vec<u32>,
}

/// A reference to an address translation unit.
pub struct PciIommuReference {
    pub provider_path: String,
    pub provider_phandle: u32,
    pub args: Vec<u32>,
}

/// A reference to an address translation unit.
pub ghost struct IommuReference {
    pub provider_path: Seq<char>,
    pub provider_phandle: u32,
    pub args: Seq<u32>,
}

impl View for PciIommuReference {
    type V = IommuReference;

    open spec fn view(&self) -> IommuReference {
        IommuReference {
            provider_path: self.provider_path@,
            provider_phandle: self.provider_phandle,
            args: self.args@,
        }
    }
}

/// The property by which a device names its translation units.
pub const IOMMUS: &'static str = "iommus";

/// Whether a reference names a translation unit that is there.
pub open spec fn usable_iommu(reference: DtbProviderReference) -> bool {
    &&& reference.property@ == IOMMUS@
    &&& reference.provider_available == Some(true)
    &&& reference.phandle != 0
    &&& reference.provider_path is Some
}

/// The references that name translation units that are there, in order.
pub open spec fn iommus_of(references: Seq<DtbProviderReference>) -> Seq<IommuReference>
    decreases references.len(),
{
    if references.len() == 0 {
        Seq::empty()
    } else {
        let front = iommus_of(references.drop_last());
        let reference = references.last();
        if usable_iommu(reference) {
            front.push(
                IommuReference {
                    provider_path: reference.provider_path->0@,
                    provider_phandle: reference.phandle,
                    args: reference.args@,
                },
            )
        } else {
            front
        }
    }
}

/// The views of a list.
pub open spec fn views(list: Seq<PciIommuReference>) -> Seq<IommuReference> {
    list.map_values(|reference: PciIommuReference| reference@)
}

fn copy_cells(cells: &Vec<u32>) -> (copy: Vec<u32>)
    ensures
        copy@ == cells@,
{
    let mut copy: Vec<u32> = Vec::new();
    let mut i: usize = 0;
    while i < cells.len()
        invariant
            i <= cells@.len(),
            copy@ == cells@.take(i as int),
        decreases cells@.len() - i,
    {
        copy.push(cells[i]);
        i += 1;
        assert(copy@ =~= cells@.take(i as int));
    }
    assert(cells@.take(i as int) =~= cells@);
    copy
}

/// Lists the translation units that a device names and that are there.
pub fn iommu_references(references: &Vec<DtbProviderReference>) -> (list: Vec<PciIommuReference>)
    ensures
        views(list@) == iommus_of(references@),
{
    let property = IOMMUS.to_owned();
    let mut list: Vec<PciIommuReference> = Vec::new();
    let mut i: usize = 0;
    assert(references@.take(0) =~= Seq::empty());
    assert(views(list@) =~= iommus_of(references@.take(0)));
    while i < references.len()
        invariant
            i <= references@.len(),
            property@ == IOMMUS@,
            views(list@) == iommus_of(references@.take(i as int)),
        decreases references@.len() - i,
    {
        let reference = &references[i];
        assert(references@.take(i + 1).drop_last() =~= references@.take(i as int));
        let available = match reference.provider_available {
            Some(available) => available,
            None => false,
        };
        if reference.property == property && available && reference.phandle != 0 {
            if let Some(path) = &reference.provider_path {
                let ghost before = list@;
                let found = PciIommuReference {
                    provider_path: path.clone(),
                    provider_phandle: reference.phandle,
                    args: copy_cells(&reference.args),
                };
                let ghost kept = found;
                list.push(found);
                proof {
                    assert(views(list@) =~= views(before).push(kept@));
                }
            }
        }
        i += 1;
    }
    assert(references@.take(i as int) =~= references@);
    list
}

/// A range of requester numbers that a translation unit serves.
pub struct RequesterIdMapEntry {
    pub input_base: u32,
    pub provider_path: String,
    pub provider_phandle: u32,
    pub output_base: Vec<u32>,
    pub length: u32,
    /// Whether the translation unit is there.
    pub provider_available: bool,
}

/// A range of requester numbers that a translation unit serves.
pub ghost struct MapEntry {
    pub input_base: u32,
    pub provider_path: Seq<char>,
    pub provider_phandle: u32,
    pub output_base: Seq<u32>,
    pub length: u32,
}

/// An entry, but for whether its unit is there.
pub open spec fn entry_of(entry: RequesterIdMapEntry) -> MapEntry {
    MapEntry {
        input_base: entry.input_base,
        provider_path: entry.provider_path@,
        provider_phandle: entry.provider_phandle,
        output_base: entry.output_base@,
        length: entry.length,
    }
}

/// The entries whose units are there, in order.
pub open spec fn available_entries(entries: Seq<RequesterIdMapEntry>) -> Seq<MapEntry>
    decreases entries.len(),
{
    if entries.len() == 0 {
        Seq::empty()
    } else if entries.last().provider_available {
        available_entries(entries.drop_last()).push(entry_of(entries.last()))
    } else {
        available_entries(entries.drop_last())
    }
}

/// A map from requester numbers to translation units.
pub struct PciRequesterIdMap {
    pub mask: u32,
    pub entries: Vec<RequesterIdMapEntry>,
}

/// The part of a map whose units are there; no map where none is.
pub fn available_map(map: &PciRequesterIdMap) -> (result: Option<PciRequesterIdMap>)
    ensures
        match result {
            Some(kept) => {
                &&& kept.mask == map.mask
                &&& kept.entries@.map_values(|entry: RequesterIdMapEntry| entry_of(entry))
                    == available_entries(map.entries@)
                &&& kept.entries@.len() > 0
                &&& forall|i: int|
                    0 <= i < kept.entries@.len() ==> (
                    #[trigger] kept.entries@[i]).provider_available
            },
            None => available_entries(map.entries@).len() == 0,
        },
{
    let ghost f = |entry: RequesterIdMapEntry| entry_of(entry);
    let mut entries: Vec<RequesterIdMapEntry> = Vec::new();
    let mut i: usize = 0;
    assert(map.entries@.take(0) =~= Seq::empty());
    assert(entries@.map_values(f) =~= available_entries(map.entries@.take(0)));
    while i < map.entries.len()
        invariant
            i <= map.entries@.len(),
            f == (|entry: RequesterIdMapEntry| entry_of(entry)),
            entries@.map_values(f) == available_entries(map.entries@.take(i as int)),
            forall|k: int| 0 <= k < entries@.len() ==> (#[trigger] entries@[k]).provider_available,
        decreases map.entries@.len() - i,
    {
        let entry = &map.entries[i];
        assert(map.entries@.take(i + 1).drop_last() =~= map.entries@.take(i as int));
        if entry.provider_available {
            let ghost before = entries@;
            let copy = RequesterIdMapEntry {
                input_base: entry.input_base,
                provider_path: entry.provider_path.clone(),
                provider_phandle: entry.provider_phandle,
                output_base: copy_cells(&entry.output_base),
                length: entry.length,
                provider_available: true,
            };
            let ghost kept = copy;
            entries.push(copy);
            proof {
                assert(entries@.map_values(f) =~= before.map_values(f).push(entry_of(kept)));
            }
        }
        i += 1;
    }
    assert(map.entries@.take(i as int) =~= map.entries@);
    if entries.len() == 0 {
        return None;
    }
    Some(PciRequesterIdMap { mask: map.mask, entries })
}

/// Copies a list of windows.
fn copy_windows(windows: &Option<Vec<DmaWindow>>) -> (copy: Option<Vec<DmaWindow>>)
    ensures
        windows_of(copy) == windows_of(*windows),
{
    match windows {
        None => None,
        Some(list) => {
            let mut copy: Vec<DmaWindow> = Vec::new();
            let mut i: usize = 0;
            while i < list.len()
                invariant
                    i <= list@.len(),
                    copy@ == list@.take(i as int),
                decreases list@.len() - i,
            {
                copy.push(list[i]);
                i += 1;
                assert(copy@ =~= list@.take(i as int));
            }
            assert(list@.take(i as int) =~= list@);
            Some(copy)
        },
    }
}

/// The windows of a device, if it has limits.
pub open spec fn windows_of(windows: Option<Vec<DmaWindow>>) -> Option<Seq<DmaWindow>> {
    match windows {
        None => None,
        Some(list) => Some(list@),
    }
}

/// What firmware says of a function.
pub struct DtbPciChild {
    pub path: String,
    pub bus: u8,
    pub device: u8,
    pub function: u8,
    pub coherent: bool,
    pub windows: Option<Vec<DmaWindow>>,
    pub unsupported: bool,
    pub references: Vec<DtbProviderReference>,
}

/// Memory access of a function.
pub struct PciFunctionDmaInfo {
    pub firmware_path: String,
    pub bus: u8,
    pub device: u8,
    pub function: u8,
    pub coherent: bool,
    pub windows: Option<Vec<DmaWindow>>,
    pub iommus: Vec<PciIommuReference>,
    pub unsupported: bool,
}

/// Whether `info` is the memory access of `child`.
pub open spec fn info_of(child: DtbPciChild, info: PciFunctionDmaInfo) -> bool {
    &&& info.firmware_path@ == child.path@
    &&& info.bus == child.bus
    &&& info.device == child.device
    &&& info.function == child.function
    &&& info.coherent == child.coherent
    &&& windows_of(info.windows) == windows_of(child.windows)
    &&& views(info.iommus@) == iommus_of(child.references@)
    &&& info.unsupported == child.unsupported
}

/// Memory access of a function.
pub fn function_dma_info(child: &DtbPciChild) -> (info: PciFunctionDmaInfo)
    ensures
        info_of(*child, info),
{
    PciFunctionDmaInfo {
        firmware_path: child.path.clone(),
        bus: child.bus,
        device: child.device,
        function: child.function,
        coherent: child.coherent,
        windows: copy_windows(&child.windows),
        iommus: iommu_references(&child.references),
        unsupported: child.unsupported,
    }
}

/// What firmware says of memory access behind a host.
pub struct DtbPciHostDma {
    pub windows: Option<Vec<DmaWindow>>,
    pub unsupported: bool,
    pub iommus: Vec<DtbProviderReference>,
    pub iommu_map: Option<PciRequesterIdMap>,
    pub children: Vec<DtbPciChild>,
}

/// Memory access behind a host.
pub struct PciHostDmaInfo {
    pub windows: Option<Vec<DmaWindow>>,
    pub iommu_map: Option<PciRequesterIdMap>,
    pub iommus: Vec<PciIommuReference>,
    pub unsupported: bool,
    pub functions: Vec<PciFunctionDmaInfo>,
}

/// Memory access behind a host: limits as they are, translation units as far as
/// they are there.
pub fn pci_host_dma_info(host: &DtbPciHostDma) -> (info: PciHostDmaInfo)
    ensures
        windows_of(info.windows) == windows_of(host.windows),
        info.unsupported == host.unsupported,
        views(info.iommus@) == iommus_of(host.iommus@),
        match info.iommu_map {
            Some(kept) => host.iommu_map is Some && kept.mask == host.iommu_map->0.mask
                && kept.entries@.len() > 0 && kept.entries@.map_values(
                |entry: RequesterIdMapEntry| entry_of(entry),
            ) == available_entries(host.iommu_map->0.entries@),
            None => host.iommu_map is None || available_entries(host.iommu_map->0.entries@).len()
                == 0,
        },
        info.functions@.len() == host.children@.len(),
        forall|i: int|
            0 <= i < host.children@.len() ==> info_of(
                #[trigger] host.children@[i],
                info.functions@[i],
            ),
{
    let iommu_map = match &host.iommu_map {
        Some(map) => available_map(map),
        None => None,
    };
    let mut functions: Vec<PciFunctionDmaInfo> = Vec::new();
    let mut i: usize = 0;
    while i < host.children.len()
        invariant
            i <= host.children@.len(),
            functions@.len() == i,
            forall|k: int|
                0 <= k < i ==> info_of(#[trigger] host.children@[k], functions@[k]),
        decreases host.children@.len() - i,
    {
        functions.push(function_dma_info(&host.children[i]));
        i += 1;
    }
    PciHostDmaInfo {
        windows: copy_windows(&host.windows),
        iommu_map,
        iommus: iommu_references(&host.iommus),
        unsupported: host.unsupported,
        functions,
    }
}

} // verus!
