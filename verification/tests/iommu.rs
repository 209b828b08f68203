use std::cell::RefCell;
use std::collections::HashMap;

use platform_drivers::iommu::bits::{
    Command, PTE_VALID, decode_pte_paddr, encode_ppn, pte_is_leaf,
};
use platform_drivers::iommu::domain;
use platform_drivers::iommu::domain::{DmaConstraints, DmaDirection, DmaRegion};
use platform_drivers::iommu::page_table::{PageTable, PageTableError};
use platform_drivers::iommu::probe::{
    FunctionStep, PciUnit, PciUnitBar, UnitEvent, UnitStep, WsiHandlerError, WsiLine,
    advance_binding, advance_function, check_pci, map_wsi_error, platform_wsi_count,
    start_binding,
};
use platform_drivers::iommu::queue::HardwareError;
use platform_drivers::iommu::unit::{IommuError, RiscvIommuCore};
use platform_drivers::platform::{PnpError, PnpResourceKind};
use platform_drivers::port::{Access, NO_PAGE, Port};

/// Pages that a unit walks.
struct Memory {
    words: RefCell<HashMap<usize, u64>>,
    next: RefCell<u64>,
    limit: u64,
    released: RefCell<Vec<u64>>,
}

impl Memory {
    fn new(pages: u64) -> Self {
        Memory {
            words: RefCell::new(HashMap::new()),
            next: RefCell::new(0x8000_0000),
            limit: 0x8000_0000 + 0x1000 * pages,
            released: RefCell::new(Vec::new()),
        }
    }

    fn perform(&self, access: Access) -> u64 {
        match access {
            Access::AllocatePage => {
                let mut next = self.next.borrow_mut();
                if *next >= self.limit {
                    return NO_PAGE;
                }
                *next += 0x1000;
                *next - 0x1000
            }
            Access::ReleasePage(page) => {
                self.released.borrow_mut().push(page);
                0
            }
            Access::Load64(at) => self.get(at),
            Access::Store64(at, value) => {
                self.words.borrow_mut().insert(at, value);
                0
            }
            _ => 0,
        }
    }

    fn get(&self, at: usize) -> u64 {
        self.words.borrow().get(&at).copied().unwrap_or(0)
    }

    /// Walks three levels of tables, as a unit does.
    fn translate(&self, root: u64, iova: usize) -> u64 {
        let mut page = root as usize;
        let mut entry = 0;
        for level in (0..3).rev() {
            let index = iova >> (12 + 9 * level) & 0x1ff;
            entry = self.get(page + 8 * index);
            if entry & PTE_VALID == 0 {
                return 0;
            }
            page = decode_pte_paddr(entry);
        }
        entry
    }
}

#[test]
fn mapped_page_translates_until_it_is_unmapped() {
    let memory = Memory::new(16);
    let mut port = Port::new(|access: Access| memory.perform(access));
    let mut table = PageTable::new(&mut port, 8, 56).ok().unwrap();
    let root = table.root_paddr();
    assert_eq!(table.mode(), 8);
    assert_eq!(table.map_page(&mut port, 0x4020_1000, 0x1234_5000, true), Ok(()));
    assert_eq!(table.map_page(&mut port, 0x4020_2000, 0x1234_6000, false), Ok(()));
    let entry = memory.translate(root, 0x4020_1000);
    assert_eq!(decode_pte_paddr(entry), 0x1234_5000);
    assert!(pte_is_leaf(entry));
    assert_eq!(entry & 4, 4);
    let entry = memory.translate(root, 0x4020_2000);
    assert_eq!(decode_pte_paddr(entry), 0x1234_6000);
    assert_eq!(entry & 4, 0);
    assert_eq!(
        table.map_page(&mut port, 0x4020_1000, 0x9000, true),
        Err(PageTableError::Conflict)
    );
    assert_eq!(table.unmap_page(&mut port, 0x4020_1000), Ok(()));
    assert_eq!(memory.translate(root, 0x4020_1000), 0);
    assert_eq!(
        decode_pte_paddr(memory.translate(root, 0x4020_2000)),
        0x1234_6000
    );
    assert_eq!(table.unmap_page(&mut port, 0x4020_1000), Ok(()));
    table.release(&mut port);
    assert_eq!(memory.released.borrow().len(), 3);
}

#[test]
fn page_that_is_no_new_table_is_refused() {
    let memory = Memory::new(16);
    let answers = RefCell::new(vec![NO_PAGE]);
    let mut port = Port::new(|access: Access| match access {
        Access::AllocatePage if !answers.borrow().is_empty() => answers.borrow_mut().remove(0),
        _ => memory.perform(access),
    });
    assert_eq!(PageTable::new(&mut port, 8, 56).err(), Some(PageTableError::OutOfMemory));
    *answers.borrow_mut() = vec![0x8000_0800];
    assert_eq!(PageTable::new(&mut port, 8, 56).err(), Some(PageTableError::Invalid));
    assert_eq!(*memory.released.borrow(), [0x8000_0800]);
    let mut table = PageTable::new(&mut port, 8, 56).ok().unwrap();
    let root = table.root_paddr();
    *answers.borrow_mut() = vec![0x9000_0008];
    assert_eq!(
        table.map_page(&mut port, 0x1000, 0x5000, true),
        Err(PageTableError::Invalid)
    );
    assert_eq!(*memory.released.borrow(), [0x8000_0800, 0x9000_0008]);
    *answers.borrow_mut() = vec![root];
    assert_eq!(
        table.map_page(&mut port, 0x1000, 0x5000, true),
        Err(PageTableError::OutOfMemory)
    );
    assert_eq!(memory.released.borrow().len(), 2);
    assert_eq!(memory.translate(root, 0x1000), 0);
    assert_eq!(table.map_page(&mut port, 0x1000, 0x5000, true), Ok(()));
    assert_eq!(decode_pte_paddr(memory.translate(root, 0x1000)), 0x5000);
    assert_eq!(table.unmap_page(&mut port, 0x1000), Ok(()));
    assert_eq!(table.unmap_page(&mut port, 0x1000), Ok(()));
    *answers.borrow_mut() = vec![NO_PAGE];
    assert_eq!(table.map_page(&mut port, 0x1000, 0x5000, true), Ok(()));
    assert_eq!(answers.borrow().len(), 1);
}

#[test]
fn refused_page_is_not_mapped() {
    let memory = Memory::new(2);
    let mut port = Port::new(|access: Access| memory.perform(access));
    assert!(matches!(
        PageTable::new(&mut port, 7, 56),
        Err(PageTableError::Invalid)
    ));
    let mut table = PageTable::new(&mut port, 8, 40).ok().unwrap();
    assert_eq!(
        table.map_page(&mut port, 0x123, 0x1000, true),
        Err(PageTableError::Invalid)
    );
    assert_eq!(
        table.map_page(&mut port, 0, 1 << 40, true),
        Err(PageTableError::Invalid)
    );
    assert_eq!(
        table.map_page(&mut port, 1 << 39, 0x1000, true),
        Err(PageTableError::Invalid)
    );
    assert_eq!(
        table.map_page(&mut port, 0, 0x1000, true),
        Err(PageTableError::OutOfMemory)
    );
    assert_eq!(memory.translate(table.root_paddr(), 0), 0);
}

#[test]
fn addresses_come_back_from_entries() {
    assert_eq!(decode_pte_paddr(encode_ppn(0x1234_5000) | 0xff), 0x1234_5000);
    assert_eq!(Command::iofence().dword0 & 0x7f, 2);
    assert_eq!(Command::iodir_all().dword0 & 0x7f, 3);
    assert_eq!(Command::iotinval_all().dword0 & 0x7f, 1);
    assert_eq!(Command::iodir_device(5).dword0 >> 40, 5);
}

/// Runs the steps of a binding and lets one of them be refused.
fn bind(count: usize, refused: Option<UnitStep>) -> (Vec<UnitStep>, Result<(), PnpError>) {
    let mut step = start_binding(2, Ok(count));
    let mut steps = Vec::new();
    loop {
        if let UnitStep::Finished(result) = step {
            return (steps, result);
        }
        steps.push(step);
        step = advance_binding(
            step,
            if refused == Some(step) {
                UnitEvent::Refused(PnpError::OutOfMemory)
            } else {
                UnitEvent::Done
            },
        );
    }
}

#[test]
fn unit_that_cannot_be_bound_is_stopped() {
    let (steps, result) = bind(2, None);
    assert_eq!(result, Ok(()));
    assert_eq!(steps.len(), 10);
    let (steps, result) = bind(0, Some(UnitStep::OwnController));
    assert_eq!(result, Err(PnpError::OutOfMemory));
    assert_eq!(
        steps,
        [
            UnitStep::ReserveController,
            UnitStep::RegisterController,
            UnitStep::OwnController,
            UnitStep::UnregisterController(PnpError::OutOfMemory),
            UnitStep::Quiesce(PnpError::OutOfMemory),
        ]
    );
}

#[test]
fn function_whose_unit_fails_is_switched_off() {
    let fault = PnpError::HardwareFailure("riscv PCI iommu failed to enable bus master");
    let mut step = FunctionStep::EnableMmio;
    step = advance_function(step, UnitEvent::Done);
    step = advance_function(step, UnitEvent::Refused(PnpError::OutOfMemory));
    assert_eq!(step, FunctionStep::DisableBusMaster(fault));
    step = advance_function(step, UnitEvent::Done);
    assert_eq!(step, FunctionStep::DisableMmio(fault));
    step = advance_function(step, UnitEvent::Done);
    assert_eq!(step, FunctionStep::Finished(Err(fault)));
    assert_eq!(
        advance_function(FunctionStep::EnableMmio, UnitEvent::Refused(PnpError::OutOfMemory)),
        FunctionStep::Finished(Err(PnpError::HardwareFailure(
            "riscv PCI iommu failed to enable MMIO decode"
        )))
    );
}

#[test]
fn firmware_of_a_unit_is_checked() {
    let unit = PciUnit {
        compatible: true,
        phandle: Some(9),
        iommu_cells: Some(1),
    };
    let bar = PciUnitBar {
        memory: true,
        size: 0x1000,
        virt: 0,
    };
    assert_eq!(check_pci(Some(unit), Some(bar)), Ok((9, 0x1000)));
    assert_eq!(
        check_pci(
            Some(PciUnit {
                iommu_cells: Some(2),
                ..unit
            }),
            Some(bar)
        ),
        Err(PnpError::Malformed(
            PnpResourceKind::FirmwareBus,
            "riscv PCI iommu requires #iommu-cells = <1>"
        ))
    );
    assert_eq!(
        check_pci(Some(unit), None),
        Err(PnpError::Missing(
            PnpResourceKind::Mmio,
            "riscv PCI iommu BAR0 missing"
        ))
    );
    assert_eq!(platform_wsi_count(&[WsiLine::Resolved; 3]), Ok(3));
    assert_eq!(
        platform_wsi_count(&[WsiLine::Resolved, WsiLine::Unresolved(Some(4))]),
        Err(PnpError::NeedsIrqDomain(Some(4)))
    );
    assert!(platform_wsi_count(&[WsiLine::Resolved; 5]).is_err());
    assert_eq!(
        map_wsi_error(WsiHandlerError::Unresolved(None)),
        PnpError::NeedsIrqDomain(None)
    );
    assert_eq!(
        map_wsi_error(WsiHandlerError::NotFound),
        PnpError::RegistrationFailed(PnpResourceKind::Irq, "riscv iommu IRQ line not found")
    );
}

/// A unit that does at once what its registers ask for.
struct Unit {
    memory: Memory,
    registers: RefCell<HashMap<usize, u64>>,
    commands: RefCell<Vec<u64>>,
    capabilities: u64,
}

impl Unit {
    fn new(capabilities: u64) -> Self {
        Unit {
            memory: Memory::new(64),
            registers: RefCell::new(HashMap::new()),
            commands: RefCell::new(Vec::new()),
            capabilities,
        }
    }

    fn get(&self, at: usize) -> u64 {
        self.registers.borrow().get(&at).copied().unwrap_or(0)
    }

    fn set(&self, at: usize, value: u64) {
        match at {
            0x24 => {
                let base = (self.get(0x18) >> 10 << 12) as usize;
                let mut head = self.get(0x24);
                while head != value {
                    let command = self.memory.get(base + 16 * head as usize);
                    self.commands.borrow_mut().push(command);
                    head = (head + 1) % 128;
                    if head > value && self.commands.borrow().len() > 1000 {
                        break;
                    }
                }
                self.registers.borrow_mut().insert(0x20, value);
            }
            0x48 | 0x4c | 0x50 => {
                let active = if value & 1 == 1 { 0x1_0000 } else { 0 };
                self.registers.borrow_mut().insert(at, value & 3 | active);
                return;
            }
            _ => {}
        }
        self.registers.borrow_mut().insert(at, value);
    }

    fn perform(&self, access: Access) -> u64 {
        match access {
            Access::Read64(0) => self.capabilities,
            Access::Read32(at) | Access::Read64(at) => self.get(at),
            Access::Write32(at, value) => {
                self.set(at, u64::from(value));
                0
            }
            Access::Write64(at, value) => {
                self.set(at, value);
                0
            }
            other => self.memory.perform(other),
        }
    }
}

const SV39_UNIT: u64 = 0x10 | 0x200 | 56 << 32;

#[test]
fn device_reaches_what_is_mapped_for_it() {
    let unit = Unit::new(SV39_UNIT);
    let mut port = Port::new(|access: Access| unit.perform(access));
    let mut controller = RiscvIommuCore::new(&mut port).ok().unwrap();
    let mut domain = domain::attach(&mut controller, &mut port, &[5]).ok().unwrap();
    assert_eq!(domain.device_id, 5);
    let root = domain.state.page_table.root_paddr();
    let everything = DmaConstraints {
        address_mask: usize::MAX,
        max_segment_size: usize::MAX,
    };
    let region = DmaRegion {
        paddr: 0x1234_5010,
        len: 0x1800,
        direction: DmaDirection::Bidirectional,
    };
    let mapped = domain
        .map(&mut port, &mut controller, region, everything, None)
        .unwrap();
    assert_eq!(mapped.dma_addr % 0x1000, 0x10);
    let page = mapped.dma_addr - 0x10;
    for i in 0..2 {
        let entry = unit.memory.translate(root, page + 0x1000 * i);
        assert_eq!(decode_pte_paddr(entry), 0x1234_5000 + 0x1000 * i);
    }
    assert_eq!(unit.memory.translate(root, page + 0x2000), 0);
    assert!(domain.unmap_region(&mut port, &mut controller, mapped));
    assert_eq!(unit.memory.translate(root, page), 0);
    assert!(!domain.unmap_region(&mut port, &mut controller, mapped));
    assert!(domain.release(&mut port, &mut controller));
    assert!(!unit.commands.borrow().is_empty());
    controller.quiesce(&mut port);
    assert!(controller.quiesced);
    assert_eq!(unit.get(0x10) & 0xf, 0);
}

#[test]
fn device_is_attached_once() {
    let unit = Unit::new(SV39_UNIT);
    let mut port = Port::new(|access: Access| unit.perform(access));
    let mut controller = RiscvIommuCore::new(&mut port).ok().unwrap();
    assert!(domain::attach(&mut controller, &mut port, &[5]).is_ok());
    assert!(matches!(
        domain::attach(&mut controller, &mut port, &[5]),
        Err(IommuError::Busy)
    ));
    assert!(domain::attach(&mut controller, &mut port, &[]).is_err());
    assert!(domain::attach(&mut controller, &mut port, &[1, 2]).is_err());
    assert!(controller.detach(&mut port, 5));
    assert!(domain::attach(&mut controller, &mut port, &[5]).is_ok());
}

#[test]
fn unknown_unit_is_not_started() {
    for capabilities in [0x20 | 0x200 | 56 << 32, 0x10 | 56 << 32, 0x10 | 0x200 | 31 << 32] {
        let unit = Unit::new(capabilities);
        let mut port = Port::new(|access: Access| unit.perform(access));
        assert_eq!(
            RiscvIommuCore::new(&mut port).err(),
            Some(HardwareError::Unsupported)
        );
    }
}

#[test]
fn page_can_be_unmapped_twice_and_mapped_again() {
    let memory = Memory::new(16);
    let mut port = Port::new(|access: Access| memory.perform(access));
    let mut table = PageTable::new(&mut port, 8, 56).ok().unwrap();
    let root = table.root_paddr();
    assert_eq!(table.map_page(&mut port, 0x4020_1000, 0x1234_5000, true), Ok(()));
    assert_eq!(table.unmap_page(&mut port, 0x4020_1000), Ok(()));
    assert_eq!(table.unmap_page(&mut port, 0x4020_1000), Ok(()));
    assert_eq!(table.map_page(&mut port, 0x4020_1000, 0x1234_5000, true), Ok(()));
    assert_eq!(
        decode_pte_paddr(memory.translate(root, 0x4020_1000)),
        0x1234_5000
    );
    table.release(&mut port);
}
