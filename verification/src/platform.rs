//! How drivers find the devices that they are for.

use vstd::prelude::*;

verus! {

/// What a device lacks or has wrong.
#[derive(Clone, Copy, PartialEq, Eq, Structural, Debug)]
pub enum PnpResourceKind {
    Dma,
    FirmwareBus,
    Irq,
    IrqDomain,
    Mmio,
    Msi,
    MsiController,
    PciHostBridge,
}

/// Why a driver refuses a device.
#[derive(Clone, Copy, PartialEq, Eq, Debug)]
pub enum PnpError {
    Missing(PnpResourceKind, &'static str),
    Malformed(PnpResourceKind, &'static str),
    RegistrationFailed(PnpResourceKind, &'static str),
    OutOfMemory,
    InvalidState,
    NameConflict,
    /// The message interrupt controller with this handle is not there yet.
    NeedsMsiController(u32),
    /// The interrupt controller with this handle, or the default one, is not there
    /// yet.
    NeedsIrqDomain(Option<u32>),
    ResourceBusy(PnpResourceKind, &'static str),
    HardwareFailure(&'static str),
    /// No driver knows the device.
    NoDriver,
    /// Something that the device needs is not there yet.
    ProbeDeferred,
}

/// What is known of the CPU of an interrupt controller.
pub ghost struct CpuAnswer {
    pub hart_id: Option<u64>,
    pub logical_cpu: Option<usize>,
}

/// What is known of a CPU that was not asked about.
pub open spec fn unasked() -> CpuAnswer {
    CpuAnswer { hart_id: None, logical_cpu: None }
}

/// Whether a device names `wanted` among the things that it is compatible with.
pub open spec fn compatible(ids: Seq<String>, wanted: Seq<char>) -> bool {
    exists|i: int| 0 <= i < ids.len() && (#[trigger] ids[i])@ == wanted
}

/// Whether a device names `wanted` among the things that it is compatible with.
pub fn has_id(ids: &Vec<String>, wanted: &str) -> (found: bool)
    ensures
        found == compatible(ids@, wanted@),
{
    let name = wanted.to_owned();
    let mut i: usize = 0;
    while i < ids.len()
        invariant
            i <= ids@.len(),
            name@ == wanted@,
            forall|k: int| 0 <= k < i ==> (#[trigger] ids@[k])@ != wanted@,
        decreases ids@.len() - i,
    {
        if ids[i] == name {
            return true;
        }
        i += 1;
    }
    false
}

} // verus!
