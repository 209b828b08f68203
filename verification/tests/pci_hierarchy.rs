use std::cell::RefCell;
use std::collections::HashMap;

use platform_drivers::pci::bar::{PciBarKind, PciBarRuntimeWindow, PciBarWindowSpace};
use platform_drivers::pci::config_port::{
    ConfigAccess, ConfigPort, ConfigReply, PciBdf, PciFunctionInfo,
};
use platform_drivers::pci::configure::configure_pci_hierarchy;
use platform_drivers::pci::host::{DtbPciAddressSpace, DtbPciConfigSpace, DtbPciRangeInfo};
use platform_drivers::pci::host_runtime::{
    DtbMsiParent, PciHostBridgeError, PciHostDescription, PciHostRuntime,
    PciHostRuntimeInstallError, PciProbeOutcome, intx_topology, map_host_bridge_error,
    map_install_error, pci_requester_id, summarize,
};
use platform_drivers::pci::host_table::{PciHostBusRange, PciHostTable};
use platform_drivers::pci::routing::{Allocator, PciMsiTarget};
use platform_drivers::platform::{PnpError, PnpResourceKind};

/// A bridge on the first bus and a function behind it.
struct Machine {
    registers: RefCell<HashMap<(bool, u16), u32>>,
}

impl Machine {
    fn new() -> Self {
        Machine {
            registers: RefCell::new(HashMap::from([((false, 0x14), 1)])),
        }
    }

    fn get(&self, bridge: bool, at: u16) -> u32 {
        self.registers
            .borrow()
            .get(&(bridge, at))
            .copied()
            .unwrap_or(0)
    }

    fn set(&self, bridge: bool, at: u16, value: u32) {
        let kept = match (bridge, at) {
            (true, 0x10..=0x14) => 0,
            (false, 0x10) => value & 0xffff_f000,
            (false, 0x14) => value & 0xffff_ffe0 | 1,
            (false, 0x18..=0x24) => 0,
            _ => value,
        };
        self.registers.borrow_mut().insert((bridge, at), kept);
    }

    /// Which of the two answers to a place.
    fn at(&self, bdf: PciBdf) -> Option<bool> {
        if (bdf.bus, bdf.device, bdf.function) == (0, 1, 0) {
            return Some(true);
        }
        let secondary = self.get(true, 0x18) >> 8 & 0xff;
        if secondary != 0 && u32::from(bdf.bus) == secondary && (bdf.device, bdf.function) == (0, 0)
        {
            return Some(false);
        }
        None
    }

    fn perform(&self, access: ConfigAccess) -> ConfigReply {
        let bdf = match access {
            ConfigAccess::Look(bdf)
            | ConfigAccess::Command(bdf)
            | ConfigAccess::SetCommand(bdf, _)
            | ConfigAccess::Read16(bdf, _)
            | ConfigAccess::Read32(bdf, _)
            | ConfigAccess::Write16(bdf, _, _)
            | ConfigAccess::Write32(bdf, _, _) => bdf,
        };
        let Some(bridge) = self.at(bdf) else {
            return ConfigReply::Failed;
        };
        match access {
            ConfigAccess::Look(_) => ConfigReply::Function(PciFunctionInfo {
                header_type: u8::from(bridge),
                class: if bridge { 6 } else { 2 },
                subclass: if bridge { 4 } else { 0 },
                multi_function: false,
                bar_count: if bridge { 2 } else { 6 },
            }),
            ConfigAccess::Command(_) => ConfigReply::Value(self.get(bridge, 4)),
            ConfigAccess::SetCommand(_, value) => {
                self.set(bridge, 4, u32::from(value));
                ConfigReply::Done
            }
            ConfigAccess::Read16(_, at) => {
                ConfigReply::Value(self.get(bridge, at & !3) >> (8 * u32::from(at & 2)) & 0xffff)
            }
            ConfigAccess::Read32(_, at) => ConfigReply::Value(self.get(bridge, at)),
            ConfigAccess::Write16(_, at, value) => {
                let shift = 8 * u32::from(at & 2);
                let old = self.get(bridge, at & !3);
                self.set(
                    bridge,
                    at & !3,
                    old & !(0xffff << shift) | u32::from(value) << shift,
                );
                ConfigReply::Done
            }
            ConfigAccess::Write32(_, at, value) => {
                self.set(bridge, at, value);
                ConfigReply::Done
            }
        }
    }
}

fn windows() -> Vec<PciBarRuntimeWindow> {
    vec![
        PciBarRuntimeWindow::new(PciBarWindowSpace::Io, 0x4000, 0x1800_4000, 0x4000).unwrap(),
        PciBarRuntimeWindow::new(PciBarWindowSpace::Memory, 0x4000_0000, 0x4000_0000, 0x100_0000)
            .unwrap(),
    ]
}

#[test]
fn bridge_forwards_to_the_function_behind_it() {
    let machine = Machine::new();
    let mut port = ConfigPort::new(|access: ConfigAccess| machine.perform(access));
    let root = configure_pci_hierarchy(&mut port, 0, 0, 4, &windows());
    assert_eq!(root.functions.len(), 1);
    let bridge = root.functions[0].bridge.as_ref().unwrap();
    assert_eq!(bridge.downstream.bus, 1);
    assert_eq!(bridge.downstream.functions.len(), 1);
    let function = &bridge.downstream.functions[0];
    assert!(function.saw_io_bar && function.saw_memory_bar);
    assert!(!function.io_failed && !function.memory_failed);
    assert_eq!(machine.get(true, 0x18) & 0xff_ffff, 0x01_01_00);
    assert_eq!(machine.get(false, 0x10), 0x4000_0000);
    assert_eq!(machine.get(false, 0x14), 0x4001);
    assert_eq!(machine.get(true, 0x20), 0x4000_4000);
    assert_eq!(machine.get(true, 0x1c) & 0xf0f0, 0x4040);
    assert_eq!(machine.get(false, 4) & 3, 3);
}

#[test]
fn function_without_windows_is_not_decoded() {
    let machine = Machine::new();
    let mut port = ConfigPort::new(|access: ConfigAccess| machine.perform(access));
    let root = configure_pci_hierarchy(&mut port, 0, 0, 4, &vec![]);
    let bridge = root.functions[0].bridge.as_ref().unwrap();
    let function = &bridge.downstream.functions[0];
    assert!(function.io_failed && function.memory_failed);
    assert_eq!(machine.get(false, 4) & 3, 0);
}

#[test]
fn bridge_without_a_bus_number_stays_shut() {
    let machine = Machine::new();
    let mut port = ConfigPort::new(|access: ConfigAccess| machine.perform(access));
    let root = configure_pci_hierarchy(&mut port, 0, 0, 0, &windows());
    assert_eq!(root.functions.len(), 1);
    assert!(root.functions[0].bridge.is_none());
    assert_eq!(machine.get(true, 0x18) & 0xff_ff00, 0xff00);
}

fn host(bus_start: u8, bus_end: u8, ecam_phys: u64) -> PciHostDescription {
    PciHostDescription {
        domain: 0,
        bus_start,
        bus_end,
        ecam_phys,
        ecam_size: 0x100_0000,
        config_space: DtbPciConfigSpace::Ecam,
        ranges: vec![DtbPciRangeInfo {
            space: DtbPciAddressSpace::Memory,
            child_addr: 0x4000_0000,
            parent_addr: 0x8000_0000,
            size: 0x10_0000,
        }],
        address_cells: 3,
        interrupt_cells: 1,
        interrupt_map_mask: None,
        interrupt_map_pass_thru: None,
        interrupt_resolver: false,
        interrupt_map: vec![],
        children: vec![],
        msi_map_present: false,
        msi_map_mask: 0,
        msi_map: vec![],
        msi_parents: vec![],
    }
}

#[test]
fn host_is_found_while_it_is_set_up() {
    let mut tables = PciHostRuntime::new();
    assert_eq!(
        tables.prepare_host(&host(0, 15, 0x3000_0000), 0x3000_0000, true),
        Ok((0, 0))
    );
    let memory = PciBarKind::Memory {
        prefetchable: false,
    };
    assert_eq!(
        tables.resolve_pci_bar_mapping(0, 3, memory, 0x4000_1000, 0x1000),
        Some(0x8000_1000)
    );
    assert_eq!(
        tables.resolve_pci_bar_mapping(0, 16, memory, 0x4000_1000, 0x1000),
        None
    );
    assert_eq!(
        tables.prepare_host(&host(8, 31, 0x5000_0000), 0x5000_0000, true),
        Err(PciHostRuntimeInstallError::BarWindows)
    );
    let mut small = host(16, 31, 0x5000_0000);
    small.ecam_size = 0x1000;
    assert_eq!(
        tables.prepare_host(&small, 0x5000_0000, true),
        Err(PciHostRuntimeInstallError::Ecam)
    );
    assert_eq!(
        tables.resolve_pci_bar_mapping(0, 16, memory, 0x4000_1000, 0x1000),
        None
    );
    tables.remove_host(0, 0, 15);
    assert_eq!(
        tables.resolve_pci_bar_mapping(0, 3, memory, 0x4000_1000, 0x1000),
        None
    );
    assert!(tables.bars.is_empty() && tables.ecam.is_empty());
}

#[test]
fn hosts_do_not_share_a_bus() {
    let mut table: PciHostTable<u8> = PciHostTable::new();
    let low = PciHostBusRange::new(0, 0, 7).unwrap();
    let high = PciHostBusRange::new(0, 7, 9).unwrap();
    assert!(table.insert(low, 1));
    assert!(!table.insert(high, 2));
    assert!(table.insert(PciHostBusRange::new(1, 7, 9).unwrap(), 3));
    assert_eq!(table.len(), 2);
    assert!(PciHostBusRange::new(0, 2, 1).is_none());
    assert_eq!(pci_requester_id(1, 2, 3), 0x113);
}

#[test]
fn host_faults_are_told_to_the_driver_core() {
    assert_eq!(
        map_install_error(PciHostRuntimeInstallError::BarWindows),
        PnpError::Malformed(
            PnpResourceKind::PciHostBridge,
            "invalid or overlapping PCI address windows"
        )
    );
    assert_eq!(
        map_install_error(PciHostRuntimeInstallError::Ecam),
        PnpError::Malformed(
            PnpResourceKind::PciHostBridge,
            "overlapping, undersized or unrepresentable ECAM window"
        )
    );
    assert_eq!(
        map_host_bridge_error(PciHostBridgeError::OutOfMemory),
        PnpError::OutOfMemory
    );
    assert_eq!(
        map_host_bridge_error(PciHostBridgeError::NotFound),
        PnpError::RegistrationFailed(
            PnpResourceKind::PciHostBridge,
            "PCI host registry rejected descriptor"
        )
    );
    assert_eq!(
        map_host_bridge_error(PciHostBridgeError::AlreadyRegistered),
        PnpError::RegistrationFailed(
            PnpResourceKind::PciHostBridge,
            "PCI domain and bus range overlaps an active host"
        )
    );
}

#[test]
fn message_goes_to_the_parent_with_the_requester() {
    let mut tables = PciHostRuntime::new();
    let mut routed = host(0, 15, 0x3000_0000);
    routed.msi_parents = vec![DtbMsiParent {
        controller: 9,
        msi_specifier: vec![],
    }];
    assert_eq!(
        tables.prepare_host(&routed, 0x3000_0000, true),
        Ok((0, 1))
    );
    let targets = tables.resolve_pci_msi(0, 1, 2, 3);
    assert_eq!(targets.len(), 1);
    assert_eq!((targets[0].controller, targets[0].device_id), (9, 0x113));
    assert!(tables.resolve_pci_msi(0, 16, 2, 3).is_empty());
    let mut asked = Vec::new();
    let mut allocator = Allocator::new(|target: PciMsiTarget| {
        asked.push((target.controller, target.device_id));
        Ok::<u32, ()>(77)
    });
    assert_eq!(tables.allocate_pci_msi(0, 1, 2, 3, &mut allocator), Some(77));
    assert_eq!(tables.allocate_pci_msi(0, 16, 2, 3, &mut allocator), None);
    drop(allocator);
    assert_eq!(asked, [(9, 0x113)]);
    assert!(tables.resolve_pci_irq(0, 1, 2, 3, Some(1)).is_none());
}

#[test]
fn outcomes_are_counted() {
    let summary = summarize(&vec![
        PciProbeOutcome::Bound,
        PciProbeOutcome::NoDriver,
        PciProbeOutcome::Bound,
        PciProbeOutcome::Deferred,
        PciProbeOutcome::Failed,
    ]);
    assert_eq!(summary.bound, 2);
    assert_eq!(summary.no_driver, 1);
    assert_eq!(summary.deferred, 1);
    assert_eq!(summary.failed, 1);
}

#[test]
fn bridge_under_a_bus_that_is_not_its_own_is_refused() {
    let machine = Machine::new();
    let mut port = ConfigPort::new(|access: ConfigAccess| machine.perform(access));
    let mut root = configure_pci_hierarchy(&mut port, 0, 0, 3, &windows());
    assert!(root.functions[0].bridge.is_some());
    assert!(intx_topology(&root).is_some());
    root.functions[0].bdf.bus = 2;
    assert!(intx_topology(&root).is_none());
}
