//! Finding the unit, and binding it.

use vstd::prelude::*;
use crate::iommu::bits;
use crate::iommu::queue::HardwareError;
use crate::iommu::unit::{IommuError, registers_valid};
use crate::platform;
use crate::platform::{PnpError, PnpResourceKind, has_id};

verus! {

pub const PLATFORM_COMPATIBLE: &'static str = "riscv,iommu";

pub const PCI_COMPATIBLE: &'static str = "riscv,pci-iommu";

/// Whether a device with these names is a unit on the platform bus.
pub fn matches_platform(ids: &Vec<String>) -> (matching: bool)
    ensures
        matching == platform::compatible(ids@, PLATFORM_COMPATIBLE@),
{
    has_id(ids, PLATFORM_COMPATIBLE)
}

/// Whether a function with these names is a unit on a PCI bus.
pub fn is_riscv_pci_iommu(compatible: &Vec<String>) -> (matching: bool)
    ensures
        matching == platform::compatible(compatible@, PCI_COMPATIBLE@),
{
    has_id(compatible, PCI_COMPATIBLE)
}

pub open spec fn probe_fault(error: HardwareError) -> PnpError {
    match error {
        HardwareError::OutOfMemory => PnpError::OutOfMemory,
        HardwareError::Busy => PnpError::ResourceBusy(
            PnpResourceKind::Dma,
            "riscv iommu is already enabled",
        ),
        HardwareError::Invalid | HardwareError::Unsupported => PnpError::Malformed(
            PnpResourceKind::Mmio,
            "unsupported riscv iommu register capabilities",
        ),
        _ => PnpError::HardwareFailure("riscv iommu initialization failed"),
    }
}

pub fn map_probe_error(error: HardwareError) -> (fault: PnpError)
    ensures
        fault == probe_fault(error),
{
    match error {
        HardwareError::OutOfMemory => PnpError::OutOfMemory,
        HardwareError::Busy => PnpError::ResourceBusy(
            PnpResourceKind::Dma,
            "riscv iommu is already enabled",
        ),
        HardwareError::Invalid | HardwareError::Unsupported => PnpError::Malformed(
            PnpResourceKind::Mmio,
            "unsupported riscv iommu register capabilities",
        ),
        _ => PnpError::HardwareFailure("riscv iommu initialization failed"),
    }
}

pub open spec fn registration_fault(error: IommuError) -> PnpError {
    match error {
        IommuError::OutOfMemory => PnpError::OutOfMemory,
        IommuError::AlreadyRegistered | IommuError::Busy => PnpError::ResourceBusy(
            PnpResourceKind::Dma,
            "riscv iommu controller registry is busy",
        ),
        _ => PnpError::RegistrationFailed(
            PnpResourceKind::Dma,
            "riscv iommu controller registration failed",
        ),
    }
}

pub fn map_controller_registration_error(error: IommuError) -> (fault: PnpError)
    ensures
        fault == registration_fault(error),
{
    match error {
        IommuError::OutOfMemory => PnpError::OutOfMemory,
        IommuError::AlreadyRegistered | IommuError::Busy => PnpError::ResourceBusy(
            PnpResourceKind::Dma,
            "riscv iommu controller registry is busy",
        ),
        _ => PnpError::RegistrationFailed(
            PnpResourceKind::Dma,
            "riscv iommu controller registration failed",
        ),
    }
}

/// An interrupt line that firmware gives the unit.
#[derive(Clone, Copy, PartialEq, Eq, Structural, Debug)]
pub enum WsiLine {
    Resolved,
    /// Its controller is not there yet.
    Unresolved(Option<u32>),
}

/// How many of the first lines are resolved.
pub open spec fn resolved_prefix(lines: Seq<WsiLine>, from: int) -> int
    decreases lines.len() - from,
{
    if from < 0 || from >= lines.len() || lines[from] != WsiLine::Resolved {
        from
    } else {
        resolved_prefix(lines, from + 1)
    }
}

/// How many wired interrupts the unit has: at most four, and each must be resolved.
pub open spec fn wsi_count_of(lines: Seq<WsiLine>) -> Result<usize, PnpError> {
    let count = resolved_prefix(lines, 0);
    if count < 4 && count < lines.len() {
        Err(PnpError::NeedsIrqDomain(lines[count]->Unresolved_0))
    } else if lines.len() > 4 {
        Err(
            PnpError::Malformed(
                PnpResourceKind::Irq,
                "riscv iommu exposes more than four WSI vectors",
            ),
        )
    } else {
        Ok(count as usize)
    }
}

proof fn lemma_prefix(lines: Seq<WsiLine>, from: int)
    requires
        0 <= from <= lines.len(),
    ensures
        from <= resolved_prefix(lines, from) <= lines.len(),
    decreases lines.len() - from,
{
    if from < lines.len() && lines[from] == WsiLine::Resolved {
        lemma_prefix(lines, from + 1);
    }
}

pub fn platform_wsi_count(lines: &[WsiLine]) -> (result: Result<usize, PnpError>)
    ensures
        result == wsi_count_of(lines@),
{
    let mut count: usize = 0;
    while count < lines.len() && count < bits::INTERRUPT_CAUSE_COUNT
        invariant
            count <= lines@.len(),
            count <= 4,
            resolved_prefix(lines@, 0) == resolved_prefix(lines@, count as int),
        decreases 4 - count,
    {
        match lines[count] {
            WsiLine::Resolved => {
                count += 1;
            },
            WsiLine::Unresolved(controller) => {
                return Err(PnpError::NeedsIrqDomain(controller));
            },
        }
    }
    proof {
        lemma_prefix(lines@, count as int);
    }
    if lines.len() > bits::INTERRUPT_CAUSE_COUNT {
        return Err(
            PnpError::Malformed(
                PnpResourceKind::Irq,
                "riscv iommu exposes more than four WSI vectors",
            ),
        );
    }
    Ok(count)
}

/// What firmware says of a unit on the platform bus is checked in this order: its
/// handle, the width of its specifiers, its registers.
pub fn check_platform(
    phandle: Option<u32>,
    iommu_cells: Option<u32>,
    mmio: Option<(usize, usize)>,
    virt: usize,
) -> (result: Result<u32, PnpError>)
    ensures
        result == (match phandle {
            None => Err::<u32, PnpError>(
                PnpError::Missing(PnpResourceKind::FirmwareBus, "riscv iommu phandle missing"),
            ),
            Some(handle) => if iommu_cells != Some(1u32) {
                Err(
                    PnpError::Malformed(
                        PnpResourceKind::FirmwareBus,
                        "riscv iommu requires #iommu-cells = <1>",
                    ),
                )
            } else {
                match mmio {
                    None => Err(
                        PnpError::Missing(PnpResourceKind::Mmio, "riscv iommu reg missing"),
                    ),
                    Some((_, size)) => if virt != 0 && size >= bits::REG_SIZE && virt % 8 == 0 {
                        Ok(handle)
                    } else {
                        Err(probe_fault(HardwareError::Invalid))
                    },
                }
            },
        }),
{
    let handle: u32 = match phandle {
        Some(handle) => handle,
        None => {
            return Err(
                PnpError::Missing(PnpResourceKind::FirmwareBus, "riscv iommu phandle missing"),
            );
        },
    };
    let one = match iommu_cells {
        Some(cells) => cells == 1,
        None => false,
    };
    if !one {
        return Err(
            PnpError::Malformed(
                PnpResourceKind::FirmwareBus,
                "riscv iommu requires #iommu-cells = <1>",
            ),
        );
    }
    match mmio {
        None => Err(PnpError::Missing(PnpResourceKind::Mmio, "riscv iommu reg missing")),
        Some((_, size)) => if registers_valid(virt, size) {
            Ok(handle)
        } else {
            Err(map_probe_error(HardwareError::Invalid))
        },
    }
}

/// What firmware says of a function on a PCI bus.
#[derive(Clone, Copy)]
pub struct PciUnit {
    pub compatible: bool,
    pub phandle: Option<u32>,
    pub iommu_cells: Option<u32>,
}

/// The first base address register of the function: whether it is memory, how large
/// it is, and where it is mapped.
#[derive(Clone, Copy)]
pub struct PciUnitBar {
    pub memory: bool,
    pub size: u64,
    pub virt: usize,
}

/// The handle of a unit on a PCI bus and the size of its registers.
pub open spec fn pci_unit_of(firmware: Option<PciUnit>, bar: Option<PciUnitBar>) -> Result<
    (u32, usize),
    PnpError,
> {
    match firmware {
        None => Err(
            PnpError::Missing(
                PnpResourceKind::FirmwareBus,
                "riscv PCI iommu firmware metadata missing",
            ),
        ),
        Some(unit) => if !unit.compatible {
            Err(PnpError::InvalidState)
        } else {
            match unit.phandle {
                None => Err(
                    PnpError::Missing(
                        PnpResourceKind::FirmwareBus,
                        "riscv PCI iommu phandle missing",
                    ),
                ),
                Some(handle) => if unit.iommu_cells != Some(1u32) {
                    Err(
                        PnpError::Malformed(
                            PnpResourceKind::FirmwareBus,
                            "riscv PCI iommu requires #iommu-cells = <1>",
                        ),
                    )
                } else {
                    match bar {
                        None => Err(
                            PnpError::Missing(
                                PnpResourceKind::Mmio,
                                "riscv PCI iommu BAR0 missing",
                            ),
                        ),
                        Some(bar) => if !bar.memory {
                            Err(
                                PnpError::Malformed(
                                    PnpResourceKind::Mmio,
                                    "riscv PCI iommu BAR0 is not MMIO",
                                ),
                            )
                        } else if bar.size > usize::MAX {
                            Err(
                                PnpError::Malformed(
                                    PnpResourceKind::Mmio,
                                    "riscv PCI iommu BAR0 is not representable",
                                ),
                            )
                        } else {
                            Ok((handle, bar.size as usize))
                        },
                    }
                },
            }
        },
    }
}

pub fn check_pci(firmware: Option<PciUnit>, bar: Option<PciUnitBar>) -> (result: Result<
    (u32, usize),
    PnpError,
>)
    ensures
        result == pci_unit_of(firmware, bar),
{
    let unit = match firmware {
        Some(unit) => unit,
        None => {
            return Err(
                PnpError::Missing(
                    PnpResourceKind::FirmwareBus,
                    "riscv PCI iommu firmware metadata missing",
                ),
            );
        },
    };
    if !unit.compatible {
        return Err(PnpError::InvalidState);
    }
    let handle: u32 = match unit.phandle {
        Some(handle) => handle,
        None => {
            return Err(
                PnpError::Missing(PnpResourceKind::FirmwareBus, "riscv PCI iommu phandle missing"),
            );
        },
    };
    let one = match unit.iommu_cells {
        Some(cells) => cells == 1,
        None => false,
    };
    if !one {
        return Err(
            PnpError::Malformed(
                PnpResourceKind::FirmwareBus,
                "riscv PCI iommu requires #iommu-cells = <1>",
            ),
        );
    }
    match bar {
        None => Err(PnpError::Missing(PnpResourceKind::Mmio, "riscv PCI iommu BAR0 missing")),
        Some(bar) => {
            if !bar.memory {
                return Err(
                    PnpError::Malformed(PnpResourceKind::Mmio, "riscv PCI iommu BAR0 is not MMIO"),
                );
            }
            if bar.size > usize::MAX as u64 {
                return Err(
                    PnpError::Malformed(
                        PnpResourceKind::Mmio,
                        "riscv PCI iommu BAR0 is not representable",
                    ),
                );
            }
            Ok((handle, bar.size as usize))
        },
    }
}

/// Why a handler of a wired interrupt was refused.
#[derive(Clone, Copy, PartialEq, Eq, Structural, Debug)]
pub enum WsiHandlerError {
    NoResource,
    /// Its controller, or the default one, is not there yet.
    Unresolved(Option<u32>),
    OutOfMemory,
    NotFound,
    AlreadyRegistered,
}

pub fn map_wsi_error(error: WsiHandlerError) -> (mapped: PnpError)
    ensures
        mapped == match error {
            WsiHandlerError::NoResource => PnpError::Malformed(
                PnpResourceKind::Irq,
                "riscv iommu WSI resources changed during probe",
            ),
            WsiHandlerError::Unresolved(controller) => PnpError::NeedsIrqDomain(controller),
            WsiHandlerError::OutOfMemory => PnpError::OutOfMemory,
            WsiHandlerError::NotFound => PnpError::RegistrationFailed(
                PnpResourceKind::Irq,
                "riscv iommu IRQ line not found",
            ),
            WsiHandlerError::AlreadyRegistered => PnpError::RegistrationFailed(
                PnpResourceKind::Irq,
                "riscv iommu IRQ line conflicts with an exclusive handler",
            ),
        },
{
    match error {
        WsiHandlerError::NoResource => PnpError::Malformed(
            PnpResourceKind::Irq,
            "riscv iommu WSI resources changed during probe",
        ),
        WsiHandlerError::Unresolved(controller) => PnpError::NeedsIrqDomain(controller),
        WsiHandlerError::OutOfMemory => PnpError::OutOfMemory,
        WsiHandlerError::NotFound => PnpError::RegistrationFailed(
            PnpResourceKind::Irq,
            "riscv iommu IRQ line not found",
        ),
        WsiHandlerError::AlreadyRegistered => PnpError::RegistrationFailed(
            PnpResourceKind::Irq,
            "riscv iommu IRQ line conflicts with an exclusive handler",
        ),
    }
}

/// The next step of starting a unit on a PCI bus. A function whose unit does not
/// start is switched off again.
#[derive(Clone, Copy, PartialEq, Eq, Debug)]
pub enum FunctionStep {
    EnableMmio,
    EnableBusMaster,
    StartUnit,
    DisableBusMaster(PnpError),
    DisableMmio(PnpError),
    Finished(Result<(), PnpError>),
}

/// The step after another one.
pub open spec fn function_step_after(step: FunctionStep, event: UnitEvent) -> FunctionStep {
    match (step, event) {
        (FunctionStep::EnableMmio, UnitEvent::Done) => FunctionStep::EnableBusMaster,
        (FunctionStep::EnableMmio, UnitEvent::Refused(_)) => FunctionStep::Finished(
            Err(PnpError::HardwareFailure("riscv PCI iommu failed to enable MMIO decode")),
        ),
        (FunctionStep::EnableBusMaster, UnitEvent::Done) => FunctionStep::StartUnit,
        (FunctionStep::EnableBusMaster, UnitEvent::Refused(_)) => FunctionStep::DisableBusMaster(
            PnpError::HardwareFailure("riscv PCI iommu failed to enable bus master"),
        ),
        (FunctionStep::StartUnit, UnitEvent::Done) => FunctionStep::Finished(Ok(())),
        (FunctionStep::StartUnit, UnitEvent::Refused(fault)) => FunctionStep::DisableBusMaster(
            fault,
        ),
        (FunctionStep::DisableBusMaster(fault), _) => FunctionStep::DisableMmio(fault),
        (FunctionStep::DisableMmio(fault), _) => FunctionStep::Finished(Err(fault)),
        (FunctionStep::Finished(result), _) => FunctionStep::Finished(result),
    }
}

pub fn advance_function(step: FunctionStep, event: UnitEvent) -> (next: FunctionStep)
    ensures
        next == function_step_after(step, event),
{
    match (step, event) {
        (FunctionStep::EnableMmio, UnitEvent::Done) => FunctionStep::EnableBusMaster,
        (FunctionStep::EnableMmio, UnitEvent::Refused(_)) => FunctionStep::Finished(
            Err(PnpError::HardwareFailure("riscv PCI iommu failed to enable MMIO decode")),
        ),
        (FunctionStep::EnableBusMaster, UnitEvent::Done) => FunctionStep::StartUnit,
        (FunctionStep::EnableBusMaster, UnitEvent::Refused(_)) => FunctionStep::DisableBusMaster(
            PnpError::HardwareFailure("riscv PCI iommu failed to enable bus master"),
        ),
        (FunctionStep::StartUnit, UnitEvent::Done) => FunctionStep::Finished(Ok(())),
        (FunctionStep::StartUnit, UnitEvent::Refused(fault)) => FunctionStep::DisableBusMaster(
            fault,
        ),
        (FunctionStep::DisableBusMaster(fault), _) => FunctionStep::DisableMmio(fault),
        (FunctionStep::DisableMmio(fault), _) => FunctionStep::Finished(Err(fault)),
        (FunctionStep::Finished(result), _) => FunctionStep::Finished(result),
    }
}

/// What came of a step of binding the unit.
#[derive(Clone, Copy, PartialEq, Eq, Debug)]
pub enum UnitEvent {
    Done,
    Refused(PnpError),
}

/// The next step of binding a unit that is up. A unit that cannot be bound is
/// stopped.
#[derive(Clone, Copy, PartialEq, Eq, Debug)]
pub enum UnitStep {
    /// Reserve room for the handlers and the controller.
    ReserveVectors { count: usize },
    ConfigureVectors { count: usize },
    RegisterHandler { index: usize, count: usize },
    OwnHandler { index: usize, count: usize },
    UnregisterHandler(PnpError),
    EnableEvents,
    ReserveController,
    RegisterController,
    OwnController,
    UnregisterController(PnpError),
    Quiesce(PnpError),
    Finished(Result<(), PnpError>),
}

/// The first step for a unit whose wired interrupts were counted: without any, or
/// where it can only send messages, it is polled.
pub open spec fn first_step(
    interrupt_generation: u8,
    counted: Result<usize, PnpError>,
) -> UnitStep {
    if interrupt_generation != 1 && interrupt_generation != 2 {
        UnitStep::ReserveController
    } else {
        match counted {
            Err(fault) => UnitStep::Quiesce(fault),
            Ok(count) => if count == 0 {
                UnitStep::ReserveController
            } else {
                UnitStep::ReserveVectors { count }
            },
        }
    }
}

pub fn start_binding(interrupt_generation: u8, counted: Result<usize, PnpError>) -> (step: UnitStep)
    ensures
        step == first_step(interrupt_generation, counted),
{
    if interrupt_generation != 1 && interrupt_generation != 2 {
        return UnitStep::ReserveController;
    }
    match counted {
        Err(fault) => UnitStep::Quiesce(fault),
        Ok(count) => if count == 0 {
            UnitStep::ReserveController
        } else {
            UnitStep::ReserveVectors { count }
        },
    }
}

/// A unit that is not bound is stopped first, and a handler or a controller that the
/// device cannot own is withdrawn before that.
pub proof fn unbound_unit_is_stopped(step: UnitStep, event: UnitEvent)
    ensures
        step_after(step, event) matches UnitStep::Finished(result) ==> result is Ok
            || step is Quiesce || step is Finished,
        step is OwnHandler && event is Refused ==> step_after(step, event) is UnregisterHandler,
        step is OwnController && event is Refused ==> step_after(
            step,
            event,
        ) is UnregisterController,
        step_after(step, event) is RegisterController ==> step is ReserveController,
{
}

/// The step after another one.
pub open spec fn step_after(step: UnitStep, event: UnitEvent) -> UnitStep {
    match (step, event) {
        (UnitStep::Finished(result), _) => UnitStep::Finished(result),
        (UnitStep::Quiesce(fault), _) => UnitStep::Finished(Err(fault)),
        (UnitStep::UnregisterHandler(fault), _) => UnitStep::Quiesce(fault),
        (UnitStep::UnregisterController(fault), _) => UnitStep::Quiesce(fault),
        (UnitStep::ReserveVectors { count }, UnitEvent::Done) => UnitStep::ConfigureVectors {
            count,
        },
        (UnitStep::ConfigureVectors { count }, UnitEvent::Done) => UnitStep::RegisterHandler {
            index: 0,
            count,
        },
        (UnitStep::RegisterHandler { index, count }, UnitEvent::Done) => UnitStep::OwnHandler {
            index,
            count,
        },
        (UnitStep::OwnHandler { index, count }, UnitEvent::Done) => if index + 1 < count {
            UnitStep::RegisterHandler { index: (index + 1) as usize, count }
        } else {
            UnitStep::EnableEvents
        },
        (UnitStep::OwnHandler { .. }, UnitEvent::Refused(fault)) => UnitStep::UnregisterHandler(
            fault,
        ),
        (UnitStep::EnableEvents, _) => UnitStep::ReserveController,
        (UnitStep::ReserveController, UnitEvent::Done) => UnitStep::RegisterController,
        (UnitStep::RegisterController, UnitEvent::Done) => UnitStep::OwnController,
        (UnitStep::OwnController, UnitEvent::Done) => UnitStep::Finished(Ok(())),
        (UnitStep::OwnController, UnitEvent::Refused(fault)) => UnitStep::UnregisterController(
            fault,
        ),
        (_, UnitEvent::Refused(fault)) => UnitStep::Quiesce(fault),
    }
}

pub fn advance_binding(step: UnitStep, event: UnitEvent) -> (next: UnitStep)
    ensures
        next == step_after(step, event),
{
    match (step, event) {
        (UnitStep::Finished(result), _) => UnitStep::Finished(result),
        (UnitStep::Quiesce(fault), _) => UnitStep::Finished(Err(fault)),
        (UnitStep::UnregisterHandler(fault), _) => UnitStep::Quiesce(fault),
        (UnitStep::UnregisterController(fault), _) => UnitStep::Quiesce(fault),
        (UnitStep::ReserveVectors { count }, UnitEvent::Done) => UnitStep::ConfigureVectors {
            count,
        },
        (UnitStep::ConfigureVectors { count }, UnitEvent::Done) => UnitStep::RegisterHandler {
            index: 0,
            count,
        },
        (UnitStep::RegisterHandler { index, count }, UnitEvent::Done) => UnitStep::OwnHandler {
            index,
            count,
        },
        (UnitStep::OwnHandler { index, count }, UnitEvent::Done) => if count > 0 && index < count
            - 1 {
            UnitStep::RegisterHandler { index: index + 1, count }
        } else {
            UnitStep::EnableEvents
        },
        (UnitStep::OwnHandler { .. }, UnitEvent::Refused(fault)) => UnitStep::UnregisterHandler(
            fault,
        ),
        (UnitStep::EnableEvents, _) => UnitStep::ReserveController,
        (UnitStep::ReserveController, UnitEvent::Done) => UnitStep::RegisterController,
        (UnitStep::RegisterController, UnitEvent::Done) => UnitStep::OwnController,
        (UnitStep::OwnController, UnitEvent::Done) => UnitStep::Finished(Ok(())),
        (UnitStep::OwnController, UnitEvent::Refused(fault)) => UnitStep::UnregisterController(
            fault,
        ),
        (_, UnitEvent::Refused(fault)) => UnitStep::Quiesce(fault),
    }
}

} // verus!
