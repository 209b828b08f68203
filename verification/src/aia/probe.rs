//! Building the controllers that firmware describes.

use vstd::prelude::*;
use crate::aia::aplic;
use crate::aia::aplic::{Aplic, AplicDelivery, AplicMsiParent, AplicSourceState};
use crate::aia::config;
use crate::aia::config::{
    AiaConfigError, ImsicInterruptContext, ImsicSupervisorContext, aplic_service_hart_index,
    parse_aplic_hart_indexes, parse_msi_parent, parse_num_ids, parse_num_sources,
    parse_optional_u32, select_supervisor_contexts,
};
use crate::aia::imsic::ImsicCpuFile;
use crate::aia::layout;
use crate::aia::layout::{
    AplicDirectLayout, AplicLayout, AplicSourceMode, ImsicAddressScheme, ImsicLayout, MmioRange,
};
use crate::platform;
use crate::platform::{CpuAnswer, PnpError, PnpResourceKind, has_id};

verus! {

pub const COMPAT_IMSICS: &'static str = "riscv,imsics";

pub const COMPAT_QEMU_IMSICS: &'static str = "qemu,imsics";

pub const COMPAT_APLIC: &'static str = "riscv,aplic";

pub const COMPAT_QEMU_APLIC: &'static str = "qemu,aplic";

/// Whether one of the contexts is a supervisor context.
pub open spec fn has_supervisor(contexts: Seq<ImsicInterruptContext>) -> bool {
    exists|i: int|
        0 <= i < contexts.len() && (#[trigger] contexts[i]).cells@.len() == 1
            && contexts[i].cells@[0] == config::RISCV_SUPERVISOR_EXTERNAL_IRQ
}

fn any_supervisor(contexts: &[ImsicInterruptContext]) -> (found: bool)
    ensures
        found == has_supervisor(contexts@),
{
    let mut i: usize = 0;
    while i < contexts.len()
        invariant
            i <= contexts@.len(),
            forall|k: int|
                0 <= k < i ==> !((#[trigger] contexts@[k]).cells@.len() == 1
                    && contexts@[k].cells@[0] == config::RISCV_SUPERVISOR_EXTERNAL_IRQ),
        decreases contexts@.len() - i,
    {
        let context = contexts[i];
        if context.cells.len() == 1 && context.cells[0] == config::RISCV_SUPERVISOR_EXTERNAL_IRQ {
            assert(contexts@[i as int].cells@.len() == 1);
            return true;
        }
        i += 1;
    }
    false
}

/// Whether a device is a message interrupt controller for supervisors.
pub fn matches_imsic(
    interrupt_controller: bool,
    msi_controller: bool,
    ids: &Vec<String>,
    contexts: &[ImsicInterruptContext],
) -> (matched: bool)
    ensures
        matched == (interrupt_controller && msi_controller && (platform::compatible(
            ids@,
            COMPAT_IMSICS@,
        ) || platform::compatible(ids@, COMPAT_QEMU_IMSICS@)) && has_supervisor(contexts@)),
{
    interrupt_controller && msi_controller && (has_id(ids, COMPAT_IMSICS) || has_id(
        ids,
        COMPAT_QEMU_IMSICS,
    )) && any_supervisor(contexts)
}

/// Whether a device is a controller of wired interrupts for supervisors. One
/// that hands its sources to a child belongs to the firmware.
pub fn matches_aplic(
    interrupt_controller: bool,
    ids: &Vec<String>,
    has_children: bool,
    delegates: bool,
    has_msi_parent: bool,
    contexts: &[ImsicInterruptContext],
) -> (matched: bool)
    ensures
        matched == (interrupt_controller && (platform::compatible(ids@, COMPAT_APLIC@)
            || platform::compatible(ids@, COMPAT_QEMU_APLIC@)) && !has_children && !delegates && (
        has_msi_parent || has_supervisor(contexts@))),
{
    interrupt_controller && (has_id(ids, COMPAT_APLIC) || has_id(ids, COMPAT_QEMU_APLIC))
        && !has_children && !delegates && (has_msi_parent || any_supervisor(contexts))
}

/// How a wrong description of a message interrupt controller is reported.
pub open spec fn imsic_fault(error: AiaConfigError) -> PnpError {
    match error {
        AiaConfigError::MissingNumIds => PnpError::Missing(
            PnpResourceKind::FirmwareBus,
            "imsic riscv,num-ids missing",
        ),
        AiaConfigError::MissingInterruptContexts => PnpError::Missing(
            PnpResourceKind::Irq,
            "imsic interrupts-extended missing",
        ),
        AiaConfigError::MissingMmio => PnpError::Missing(
            PnpResourceKind::Mmio,
            "imsic reg missing",
        ),
        AiaConfigError::OutOfMemory => PnpError::OutOfMemory,
        _ => PnpError::Malformed(PnpResourceKind::IrqDomain, "invalid IMSIC DT binding"),
    }
}

pub fn map_imsic_config_error(error: AiaConfigError) -> (fault: PnpError)
    ensures
        fault == imsic_fault(error),
{
    match error {
        AiaConfigError::MissingNumIds => PnpError::Missing(
            PnpResourceKind::FirmwareBus,
            "imsic riscv,num-ids missing",
        ),
        AiaConfigError::MissingInterruptContexts => PnpError::Missing(
            PnpResourceKind::Irq,
            "imsic interrupts-extended missing",
        ),
        AiaConfigError::MissingMmio => PnpError::Missing(
            PnpResourceKind::Mmio,
            "imsic reg missing",
        ),
        AiaConfigError::OutOfMemory => PnpError::OutOfMemory,
        _ => PnpError::Malformed(PnpResourceKind::IrqDomain, "invalid IMSIC DT binding"),
    }
}

/// How a wrong description of a controller of wired interrupts is reported.
pub open spec fn aplic_fault(error: AiaConfigError) -> PnpError {
    match error {
        AiaConfigError::MissingNumSources => PnpError::Missing(
            PnpResourceKind::FirmwareBus,
            "aplic riscv,num-sources missing",
        ),
        AiaConfigError::MissingMsiParent => PnpError::Missing(
            PnpResourceKind::MsiController,
            "aplic msi-parent missing",
        ),
        AiaConfigError::MissingInterruptContexts => PnpError::Missing(
            PnpResourceKind::Irq,
            "aplic interrupts-extended missing",
        ),
        AiaConfigError::OutOfMemory => PnpError::OutOfMemory,
        _ => PnpError::Malformed(PnpResourceKind::IrqDomain, "invalid APLIC DT binding"),
    }
}

pub fn map_aplic_config_error(error: AiaConfigError) -> (fault: PnpError)
    ensures
        fault == aplic_fault(error),
{
    match error {
        AiaConfigError::MissingNumSources => PnpError::Missing(
            PnpResourceKind::FirmwareBus,
            "aplic riscv,num-sources missing",
        ),
        AiaConfigError::MissingMsiParent => PnpError::Missing(
            PnpResourceKind::MsiController,
            "aplic msi-parent missing",
        ),
        AiaConfigError::MissingInterruptContexts => PnpError::Missing(
            PnpResourceKind::Irq,
            "aplic interrupts-extended missing",
        ),
        AiaConfigError::OutOfMemory => PnpError::OutOfMemory,
        _ => PnpError::Malformed(PnpResourceKind::IrqDomain, "invalid APLIC DT binding"),
    }
}

/// The properties that describe the interrupt files.
#[derive(Clone, Copy)]
pub struct ImsicProperties<'a> {
    pub num_ids: Option<&'a [u8]>,
    pub guest_index_bits: Option<&'a [u8]>,
    pub hart_index_bits: Option<&'a [u8]>,
    pub group_index_bits: Option<&'a [u8]>,
    pub group_index_shift: Option<&'a [u8]>,
}

/// A message interrupt controller that is to be built.
pub struct ImsicPlan {
    pub controller: u32,
    pub num_ids: u32,
    pub files: Vec<ImsicCpuFile>,
    /// A bit for each CPU with a file.
    pub cpu_mask: u64,
    pub scheme: ImsicAddressScheme,
}

/// A bit for each of the first `count` CPUs.
pub open spec fn mask_of(contexts: Seq<ImsicSupervisorContext>, count: int) -> u64
    decreases count,
{
    if count <= 0 {
        0
    } else {
        mask_of(contexts, count - 1) | (1u64 << (contexts[count - 1].logical_cpu as u64))
    }
}

/// Whether a CPU is out of reach.
pub open spec fn cpu_too_high(context: ImsicSupervisorContext, nr_cpus: usize) -> bool {
    context.logical_cpu >= nr_cpus || context.logical_cpu >= 64
}

/// The layout that the properties describe.
pub open spec fn layout_of(
    properties: ImsicProperties,
    ranges: Seq<MmioRange>,
    count: usize,
) -> Result<(ImsicAddressScheme, Seq<u64>), AiaConfigError> {
    match config::optional_of(properties.guest_index_bits) {
        Err(error) => Err(error),
        Ok(guest) => match config::optional_of(properties.hart_index_bits) {
            Err(error) => Err(error),
            Ok(hart) => match config::optional_of(properties.group_index_bits) {
                Err(error) => Err(error),
                Ok(group) => match config::optional_of(properties.group_index_shift) {
                    Err(error) => Err(error),
                    Ok(shift) => layout::described_layout(ranges, count, guest, hart, group, shift),
                },
            },
        },
    }
}

/// The layout that the properties describe.
pub fn read_layout(properties: ImsicProperties, ranges: &[MmioRange], count: usize) -> (result: Result<
    ImsicLayout,
    AiaConfigError,
>)
    ensures
        match result {
            Ok(found) => layout_of(properties, ranges@, count) == Ok::<
                (ImsicAddressScheme, Seq<u64>),
                AiaConfigError,
            >((found.scheme, found.interrupt_files@)) && found.interrupt_files@.len() == count,
            Err(error) => layout_of(properties, ranges@, count) == Err::<
                (ImsicAddressScheme, Seq<u64>),
                AiaConfigError,
            >(error),
        },
{
    let guest = match parse_optional_u32(properties.guest_index_bits) {
        Ok(guest) => guest,
        Err(error) => {
            return Err(error);
        },
    };
    let hart = match parse_optional_u32(properties.hart_index_bits) {
        Ok(hart) => hart,
        Err(error) => {
            return Err(error);
        },
    };
    let group = match parse_optional_u32(properties.group_index_bits) {
        Ok(group) => group,
        Err(error) => {
            return Err(error);
        },
    };
    let shift = match parse_optional_u32(properties.group_index_shift) {
        Ok(shift) => shift,
        Err(error) => {
            return Err(error);
        },
    };
    ImsicLayout::new(ranges, count, guest, hart, group, shift)
}

/// Whether `files` are the files of the contexts.
pub open spec fn files_for(
    contexts: Seq<ImsicSupervisorContext>,
    addresses: Seq<u64>,
    files: Seq<ImsicCpuFile>,
) -> bool {
    &&& files.len() == contexts.len()
    &&& forall|i: int|
        0 <= i < files.len() ==> #[trigger] files[i] == (ImsicCpuFile {
            logical_cpu: contexts[i].logical_cpu,
            hart_id: contexts[i].hart_id,
            msi_address: addresses[contexts[i].file_index as int],
        })
}

/// Whether the plan, or the fault, is what the layout and the contexts come to.
pub open spec fn planned(
    controller: u32,
    num_ids: u32,
    contexts: Seq<ImsicSupervisorContext>,
    found: Result<(ImsicAddressScheme, Seq<u64>), AiaConfigError>,
    nr_cpus: usize,
    result: Result<ImsicPlan, PnpError>,
) -> bool {
    match found {
        Err(error) => result == Err::<ImsicPlan, PnpError>(imsic_fault(error)),
        Ok((scheme, addresses)) => if exists|i: int|
            0 <= i < contexts.len() && cpu_too_high(#[trigger] contexts[i], nr_cpus) {
            result == Err::<ImsicPlan, PnpError>(
                PnpError::Malformed(
                    PnpResourceKind::Irq,
                    "imsic logical CPU exceeds CSR bridge mask",
                ),
            )
        } else {
            result matches Ok(plan) && plan.controller == controller && plan.num_ids == num_ids
                && plan.scheme == scheme && files_for(contexts, addresses, plan.files@)
                && plan.cpu_mask == mask_of(contexts, contexts.len() as int)
        },
    }
}

fn plan_files(
    controller: u32,
    num_ids: u32,
    contexts: &Vec<ImsicSupervisorContext>,
    found: ImsicLayout,
    nr_cpus: usize,
) -> (result: Result<ImsicPlan, PnpError>)
    requires
        found.interrupt_files@.len() == contexts@.len(),
        forall|i: int| 0 <= i < contexts@.len() ==> (#[trigger] contexts@[i]).file_index == i,
    ensures
        planned(
            controller,
            num_ids,
            contexts@,
            Ok((found.scheme, found.interrupt_files@)),
            nr_cpus,
            result,
        ),
{
    let mut files: Vec<ImsicCpuFile> = Vec::new();
    let mut cpu_mask: u64 = 0;
    let mut i: usize = 0;
    while i < contexts.len()
        invariant
            i <= contexts@.len(),
            found.interrupt_files@.len() == contexts@.len(),
            forall|k: int| 0 <= k < contexts@.len() ==> (#[trigger] contexts@[k]).file_index == k,
            files@.len() == i,
            cpu_mask == mask_of(contexts@, i as int),
            forall|k: int| 0 <= k < i ==> !cpu_too_high(#[trigger] contexts@[k], nr_cpus),
            forall|k: int|
                0 <= k < i ==> #[trigger] files@[k] == (ImsicCpuFile {
                    logical_cpu: contexts@[k].logical_cpu,
                    hart_id: contexts@[k].hart_id,
                    msi_address: found.interrupt_files@[contexts@[k].file_index as int],
                }),
        decreases contexts@.len() - i,
    {
        let context = contexts[i];
        if context.logical_cpu >= nr_cpus || context.logical_cpu >= 64 {
            assert(cpu_too_high(contexts@[i as int], nr_cpus));
            return Err(
                PnpError::Malformed(
                    PnpResourceKind::Irq,
                    "imsic logical CPU exceeds CSR bridge mask",
                ),
            );
        }
        assert(contexts@[i as int].file_index == i);
        let msi_address: u64 = found.interrupt_files[context.file_index];
        cpu_mask = cpu_mask | (1u64 << (context.logical_cpu as u64));
        files.push(
            ImsicCpuFile {
                logical_cpu: context.logical_cpu,
                hart_id: context.hart_id,
                msi_address,
            },
        );
        i += 1;
    }
    Ok(ImsicPlan { controller, num_ids, files, cpu_mask, scheme: found.scheme })
}

/// The message interrupt controller that firmware describes: its handle, the
/// number of identities, the contexts, the layout of the files and the CPUs are
/// checked in this order.
pub fn plan_imsic<F: FnMut(u32) -> Option<u64>, G: FnMut(u32) -> Option<usize>>(
    phandle: Option<u32>,
    properties: ImsicProperties,
    contexts: &[ImsicInterruptContext],
    ranges: &[MmioRange],
    nr_cpus: usize,
    cpu_reg_for_controller: F,
    cpu_logical_id_for_controller: G,
) -> (result: Result<ImsicPlan, PnpError>)
    requires
        forall|controller: u32| #[trigger] call_requires(cpu_reg_for_controller, (controller,)),
        forall|controller: u32| #[trigger]
            call_requires(cpu_logical_id_for_controller, (controller,)),
    ensures
        match phandle {
            None => result == Err::<ImsicPlan, PnpError>(
                PnpError::Missing(PnpResourceKind::FirmwareBus, "imsic phandle missing"),
            ),
            Some(controller) => match config::num_ids_of(properties.num_ids) {
                Err(error) => result == Err::<ImsicPlan, PnpError>(imsic_fault(error)),
                Ok(num_ids) => exists|
                    answers: Seq<CpuAnswer>,
                    selected: Result<Vec<ImsicSupervisorContext>, AiaConfigError>,
                | #[trigger]
                    config::answered(
                        contexts@,
                        answers,
                        cpu_reg_for_controller,
                        cpu_logical_id_for_controller,
                    ) && #[trigger] config::selection(
                        contexts@,
                        answers,
                        selected,
                    ) && match selected {
                        Err(error) => result == Err::<ImsicPlan, PnpError>(imsic_fault(error)),
                        Ok(list) => planned(
                            controller,
                            num_ids,
                            list@,
                            layout_of(properties, ranges@, list.len()),
                            nr_cpus,
                            result,
                        ),
                    },
            },
        },
{
    let controller: u32 = match phandle {
        Some(controller) => controller,
        None => {
            return Err(PnpError::Missing(PnpResourceKind::FirmwareBus, "imsic phandle missing"));
        },
    };
    let num_ids: u32 = match parse_num_ids(properties.num_ids) {
        Ok(num_ids) => num_ids,
        Err(error) => {
            return Err(map_imsic_config_error(error));
        },
    };
    let selected = select_supervisor_contexts(
        contexts,
        cpu_reg_for_controller,
        cpu_logical_id_for_controller,
    );
    let ghost answers = choose|answers: Seq<CpuAnswer>| #[trigger]
        config::answered(
            contexts@,
            answers,
            cpu_reg_for_controller,
            cpu_logical_id_for_controller,
        ) && config::selection(
            contexts@,
            answers,
            selected,
        );
    assert(config::selection(contexts@, answers, selected));
    let list = match selected {
        Ok(list) => list,
        Err(error) => {
            return Err(map_imsic_config_error(error));
        },
    };
    let count: usize = contexts.len();
    proof {
        assert(contexts@.len() == count);
        config::selected_contexts_are_numbered(
            contexts@,
            answers,
            contexts@.len() as int,
            list@,
        );
    }
    match read_layout(properties, ranges, list.len()) {
        Ok(found) => plan_files(controller, num_ids, &list, found, nr_cpus),
        Err(error) => Err(map_imsic_config_error(error)),
    }
}

/// How the files of each message interrupt controller are addressed.
pub struct ImsicSchemes {
    entries: Vec<(u32, ImsicAddressScheme)>,
}

impl View for ImsicSchemes {
    type V = Seq<(u32, ImsicAddressScheme)>;

    closed spec fn view(&self) -> Seq<(u32, ImsicAddressScheme)> {
        self.entries@
    }
}

/// Whether a controller is listed.
pub open spec fn listed(entries: Seq<(u32, ImsicAddressScheme)>, controller: u32) -> bool {
    exists|i: int| 0 <= i < entries.len() && (#[trigger] entries[i]).0 == controller
}

/// The entries of all controllers but one.
pub open spec fn others(entries: Seq<(u32, ImsicAddressScheme)>, controller: u32) -> Seq<
    (u32, ImsicAddressScheme),
>
    decreases entries.len(),
{
    if entries.len() == 0 {
        entries
    } else if entries.last().0 == controller {
        others(entries.drop_last(), controller)
    } else {
        others(entries.drop_last(), controller).push(entries.last())
    }
}

impl ImsicSchemes {
    /// No controller is listed twice.
    pub open spec fn wf(&self) -> bool {
        forall|i: int, j: int|
            0 <= i < j < self@.len() ==> (#[trigger] self@[i]).0 != (#[trigger] self@[j]).0
    }

    pub fn new() -> (schemes: Self)
        ensures
            schemes.wf(),
            schemes@.len() == 0,
    {
        ImsicSchemes { entries: Vec::new() }
    }

    fn position(&self, controller: u32) -> (result: Option<usize>)
        ensures
            match result {
                Some(at) => at < self@.len() && self@[at as int].0 == controller,
                None => !listed(self@, controller),
            },
    {
        let mut i: usize = 0;
        while i < self.entries.len()
            invariant
                i <= self.entries@.len(),
                forall|k: int| 0 <= k < i ==> (#[trigger] self.entries@[k]).0 != controller,
            decreases self.entries@.len() - i,
        {
            if self.entries[i].0 == controller {
                return Some(i);
            }
            i += 1;
        }
        None
    }

    pub fn publish(&mut self, controller: u32, scheme: ImsicAddressScheme) -> (result: Result<
        (),
        PnpError,
    >)
        requires
            old(self).wf(),
        ensures
            final(self).wf(),
            if listed(old(self)@, controller) {
                result == Err::<(), PnpError>(PnpError::NameConflict) && final(self)@ == old(self)@
            } else {
                result is Ok && final(self)@ == old(self)@.push((controller, scheme))
            },
    {
        match self.position(controller) {
            Some(at) => {
                assert(self@[at as int].0 == controller);
                Err(PnpError::NameConflict)
            },
            None => {
                self.entries.push((controller, scheme));
                Ok(())
            },
        }
    }

    pub fn remove(&mut self, controller: u32)
        requires
            old(self).wf(),
        ensures
            final(self).wf(),
            final(self)@ == others(old(self)@, controller),
            !listed(final(self)@, controller),
    {
        let ghost before = self@;
        match self.position(controller) {
            Some(at) => {
                let _ = self.entries.remove(at);
                proof {
                    lemma_others_removed(before, controller, at as int);
                    assert(self@ =~= before.remove(at as int));
                    assert forall|i: int, j: int| 0 <= i < j < self@.len() implies (
                    #[trigger] self@[i]).0 != (#[trigger] self@[j]).0 by {
                        let x = if i < at {
                            i
                        } else {
                            i + 1
                        };
                        let y = if j < at {
                            j
                        } else {
                            j + 1
                        };
                        assert(self@[i] == before[x] && self@[j] == before[y]);
                    }
                    assert forall|i: int| 0 <= i < self@.len() implies (#[trigger] self@[i]).0
                        != controller by {
                        let x = if i < at {
                            i
                        } else {
                            i + 1
                        };
                        assert(self@[i] == before[x]);
                        if x < at {
                            assert(before[x].0 != before[at as int].0);
                        } else {
                            assert(before[at as int].0 != before[x].0);
                        }
                    }
                }
            },
            None => {
                proof {
                    lemma_others_absent(before, controller);
                }
            },
        }
    }

    pub fn get(&self, controller: u32) -> (result: Option<ImsicAddressScheme>)
        requires
            self.wf(),
        ensures
            match result {
                Some(scheme) => self@.contains((controller, scheme)),
                None => !listed(self@, controller),
            },
    {
        match self.position(controller) {
            Some(at) => {
                assert(self@[at as int] == (controller, self@[at as int].1));
                Some(self.entries[at].1)
            },
            None => None,
        }
    }
}

proof fn lemma_others_absent(entries: Seq<(u32, ImsicAddressScheme)>, controller: u32)
    requires
        !listed(entries, controller),
    ensures
        others(entries, controller) == entries,
    decreases entries.len(),
{
    if entries.len() > 0 {
        let front = entries.drop_last();
        assert forall|i: int| 0 <= i < front.len() implies (#[trigger] front[i]).0
            != controller by {
            assert(entries[i] == front[i]);
        }
        lemma_others_absent(front, controller);
        assert(entries[entries.len() - 1].0 != controller);
        assert(front.push(entries.last()) =~= entries);
    }
}

proof fn lemma_others_removed(
    entries: Seq<(u32, ImsicAddressScheme)>,
    controller: u32,
    at: int,
)
    requires
        0 <= at < entries.len(),
        entries[at].0 == controller,
        forall|i: int|
            0 <= i < entries.len() && i != at ==> (#[trigger] entries[i]).0 != controller,
    ensures
        others(entries, controller) == entries.remove(at),
    decreases entries.len(),
{
    let front = entries.drop_last();
    let last = entries.len() - 1;
    if at == last {
        assert forall|i: int| 0 <= i < front.len() implies (#[trigger] front[i]).0
            != controller by {
            assert(entries[i] == front[i]);
        }
        lemma_others_absent(front, controller);
        assert(entries.remove(at) =~= front);
    } else {
        assert forall|i: int|
            0 <= i < front.len() && i != at implies (#[trigger] front[i]).0 != controller by {
            assert(entries[i] == front[i]);
        }
        assert(front[at] == entries[at]);
        lemma_others_removed(front, controller, at);
        assert(entries[last].0 != controller);
        assert(front.remove(at).push(entries.last()) =~= entries.remove(at));
    }
}

/// A controller of wired interrupts that is to be built.
pub struct AplicPlan {
    pub controller: u32,
    pub num_sources: u32,
    pub layout: AplicLayout,
    pub delivery: AplicDelivery,
    /// How many things the controller will own: itself, and for each source its
    /// message interrupt, or the interrupt of the serving CPU.
    pub owned_resources: usize,
}

/// Whether a CPU serves the sources of a controller that is planned: it delivers
/// straight to one.
pub fn is_cascaded(plan: &AplicPlan) -> (cascaded: bool)
    ensures
        cascaded == (plan.delivery matches AplicDelivery::Direct(direct)
            && direct.service() is Some),
{
    match plan.delivery {
        AplicDelivery::Msi(_) => false,
        AplicDelivery::Direct(direct) => direct.service_hart_index().is_some(),
    }
}

/// Whether delivery straight to a CPU is what the contexts and the property of
/// their numbers come to.
pub open spec fn direct_delivery(
    contexts: Seq<ImsicSupervisorContext>,
    hart_indexes: Option<&[u8]>,
    boot_hart_id: u64,
    size: usize,
    virt: usize,
    result: Result<AplicDirectLayout, AiaConfigError>,
) -> bool {
    match config::listed_error(hart_indexes, contexts.len() as usize) {
        Some(error) => result == Err::<AplicDirectLayout, AiaConfigError>(error),
        None => {
            let indexes = config::listed_indexes(hart_indexes, contexts.len() as usize);
            exists|at: int| #[trigger]
                config::serves(contexts, boot_hart_id, at) && {
                    let service = if contexts[at].file_index < indexes.len() {
                        Some(indexes[contexts[at].file_index as int])
                    } else {
                        None
                    };
                    match result {
                        Ok(direct) => layout::direct_error(indexes, service, size, virt) is None
                            && direct.wf() && direct.service() == service,
                        Err(error) => layout::direct_error(indexes, service, size, virt) == Some(
                            error,
                        ),
                    }
                }
        },
    }
}

/// Delivery straight to a CPU.
pub fn plan_direct(
    contexts: &Vec<ImsicSupervisorContext>,
    hart_indexes: Option<&[u8]>,
    boot_hart_id: u64,
    size: usize,
    virt: usize,
) -> (result: Result<AplicDirectLayout, AiaConfigError>)
    ensures
        direct_delivery(contexts@, hart_indexes, boot_hart_id, size, virt, result),
{
    let indexes = match parse_aplic_hart_indexes(hart_indexes, contexts.len()) {
        Ok(indexes) => indexes,
        Err(error) => {
            return Err(error);
        },
    };
    let service = match aplic_service_hart_index(
        contexts.as_slice(),
        indexes.as_slice(),
        boot_hart_id,
    ) {
        Ok(service) => service,
        Err(error) => {
            return Err(error);
        },
    };
    AplicDirectLayout::new(indexes.as_slice(), service, size, virt)
}

/// What firmware says of a controller of wired interrupts.
#[derive(Clone, Copy)]
pub struct AplicProperties<'a> {
    pub num_sources: Option<&'a [u8]>,
    pub msi_parent: Option<&'a [u8]>,
    pub hart_indexes: Option<&'a [u8]>,
}

/// Whether the plan, or the fault, is what a way of delivery comes to.
pub open spec fn delivered<F: FnMut(u32) -> Option<u64>, G: FnMut(u32) -> Option<usize>>(
    properties: AplicProperties,
    contexts: Seq<ImsicInterruptContext>,
    schemes: Seq<(u32, ImsicAddressScheme)>,
    num_sources: u32,
    size: usize,
    virt: usize,
    boot_hart_id: u64,
    result: Result<(AplicDelivery, usize), PnpError>,
    hart_of: F,
    cpu_of: G,
) -> bool {
    match properties.msi_parent {
        Some(_) => match config::msi_parent_of(properties.msi_parent) {
            Err(error) => result == Err::<(AplicDelivery, usize), PnpError>(aplic_fault(error)),
            Ok(parent) => match result {
                Ok((delivery, resources)) => delivery matches AplicDelivery::Msi(found)
                    && found.controller == parent && schemes.contains((parent, found.scheme))
                    && resources == num_sources + 1,
                Err(fault) => !listed(schemes, parent) && fault == PnpError::NeedsMsiController(
                    parent,
                ),
            },
        },
        None => exists|
            answers: Seq<CpuAnswer>,
            selected: Result<Vec<ImsicSupervisorContext>, AiaConfigError>,
        | #[trigger]
            config::answered(contexts, answers, hart_of, cpu_of) && #[trigger] config::selection(
                contexts,
                answers,
                selected,
            ) && match selected {
                Err(error) => result == Err::<(AplicDelivery, usize), PnpError>(
                    aplic_fault(error),
                ),
                Ok(list) => exists|direct: Result<AplicDirectLayout, AiaConfigError>| #[trigger]
                    direct_delivery(
                        list@,
                        properties.hart_indexes,
                        boot_hart_id,
                        size,
                        virt,
                        direct,
                    ) && match direct {
                        Err(error) => result == Err::<(AplicDelivery, usize), PnpError>(
                            aplic_fault(error),
                        ),
                        Ok(direct) => result == Ok::<(AplicDelivery, usize), PnpError>(
                            (
                                AplicDelivery::Direct(direct),
                                if direct.service() is Some {
                                    2
                                } else {
                                    1
                                },
                            ),
                        ),
                    },
            },
    }
}

fn plan_delivery<F: FnMut(u32) -> Option<u64>, G: FnMut(u32) -> Option<usize>>(
    properties: AplicProperties,
    contexts: &[ImsicInterruptContext],
    schemes: &ImsicSchemes,
    num_sources: u32,
    size: usize,
    virt: usize,
    boot_hart_id: u64,
    cpu_reg_for_controller: F,
    cpu_logical_id_for_controller: G,
) -> (result: Result<(AplicDelivery, usize), PnpError>)
    requires
        schemes.wf(),
        num_sources <= config::APLIC_MAX_SOURCE,
        forall|controller: u32| #[trigger] call_requires(cpu_reg_for_controller, (controller,)),
        forall|controller: u32| #[trigger]
            call_requires(cpu_logical_id_for_controller, (controller,)),
    ensures
        delivered(
            properties,
            contexts@,
            schemes@,
            num_sources,
            size,
            virt,
            boot_hart_id,
            result,
            cpu_reg_for_controller,
            cpu_logical_id_for_controller,
        ),
        result matches Ok((AplicDelivery::Direct(direct), _)) ==> direct.wf(),
{
    if properties.msi_parent.is_some() {
        let parent: u32 = match parse_msi_parent(properties.msi_parent) {
            Ok(parent) => parent,
            Err(error) => {
                return Err(map_aplic_config_error(error));
            },
        };
        return match schemes.get(parent) {
            Some(scheme) => Ok(
                (
                    AplicDelivery::Msi(AplicMsiParent { controller: parent, scheme }),
                    num_sources as usize + 1,
                ),
            ),
            None => Err(PnpError::NeedsMsiController(parent)),
        };
    }
    let selected = select_supervisor_contexts(
        contexts,
        cpu_reg_for_controller,
        cpu_logical_id_for_controller,
    );
    let ghost answers = choose|answers: Seq<CpuAnswer>| #[trigger]
        config::answered(
            contexts@,
            answers,
            cpu_reg_for_controller,
            cpu_logical_id_for_controller,
        ) && config::selection(
            contexts@,
            answers,
            selected,
        );
    assert(config::selection(contexts@, answers, selected));
    let list = match selected {
        Ok(list) => list,
        Err(error) => {
            return Err(map_aplic_config_error(error));
        },
    };
    let direct = plan_direct(&list, properties.hart_indexes, boot_hart_id, size, virt);
    assert(direct_delivery(
        list@,
        properties.hart_indexes,
        boot_hart_id,
        size,
        virt,
        direct,
    ));
    match direct {
        Ok(direct) => {
            let resources: usize = if direct.service_hart_index().is_some() {
                2
            } else {
                1
            };
            Ok((AplicDelivery::Direct(direct), resources))
        },
        Err(error) => Err(map_aplic_config_error(error)),
    }
}

/// The controller of wired interrupts that firmware describes: its handle, the
/// number of its sources, its registers and its way of delivery are checked in
/// this order. `virt` is where the registers are mapped.
pub fn plan_aplic<F: FnMut(u32) -> Option<u64>, G: FnMut(u32) -> Option<usize>>(
    phandle: Option<u32>,
    properties: AplicProperties,
    mmio: Option<(usize, usize)>,
    virt: usize,
    contexts: &[ImsicInterruptContext],
    schemes: &ImsicSchemes,
    boot_hart_id: u64,
    cpu_reg_for_controller: F,
    cpu_logical_id_for_controller: G,
) -> (result: Result<AplicPlan, PnpError>)
    requires
        schemes.wf(),
        forall|controller: u32| #[trigger] call_requires(cpu_reg_for_controller, (controller,)),
        forall|controller: u32| #[trigger]
            call_requires(cpu_logical_id_for_controller, (controller,)),
    ensures
        match phandle {
            None => result == Err::<AplicPlan, PnpError>(
                PnpError::Missing(PnpResourceKind::FirmwareBus, "aplic phandle missing"),
            ),
            Some(controller) => match config::num_sources_of(properties.num_sources) {
                Err(error) => result == Err::<AplicPlan, PnpError>(aplic_fault(error)),
                Ok(num_sources) => match mmio {
                    None => result == Err::<AplicPlan, PnpError>(
                        PnpError::Missing(PnpResourceKind::Mmio, "aplic reg missing"),
                    ),
                    Some((phys, size)) => match layout::aplic_error(
                        num_sources,
                        phys,
                        size,
                        virt,
                    ) {
                        Some(error) => result == Err::<AplicPlan, PnpError>(aplic_fault(error)),
                        None => exists|delivery: Result<(AplicDelivery, usize), PnpError>| #[trigger]
                            delivered(
                                properties,
                                contexts@,
                                schemes@,
                                num_sources,
                                size,
                                virt,
                                boot_hart_id,
                                delivery,
                                cpu_reg_for_controller,
                                cpu_logical_id_for_controller,
                            ) && match delivery {
                                Err(fault) => result == Err::<AplicPlan, PnpError>(fault),
                                Ok((way, resources)) => result matches Ok(plan) && plan.controller
                                    == controller && plan.num_sources == num_sources
                                    && plan.layout.wf() && plan.layout.sources() == num_sources
                                    && plan.delivery == way && plan.owned_resources == resources
                                    && (way matches AplicDelivery::Direct(direct) ==> direct.wf()),
                            },
                    },
                },
            },
        },
{
    let controller: u32 = match phandle {
        Some(controller) => controller,
        None => {
            return Err(PnpError::Missing(PnpResourceKind::FirmwareBus, "aplic phandle missing"));
        },
    };
    let num_sources: u32 = match parse_num_sources(properties.num_sources) {
        Ok(num_sources) => num_sources,
        Err(error) => {
            return Err(map_aplic_config_error(error));
        },
    };
    let (phys, size): (usize, usize) = match mmio {
        Some(window) => window,
        None => {
            return Err(PnpError::Missing(PnpResourceKind::Mmio, "aplic reg missing"));
        },
    };
    let layout = match AplicLayout::new(num_sources, phys, size, virt) {
        Ok(layout) => layout,
        Err(error) => {
            return Err(map_aplic_config_error(error));
        },
    };
    let delivery = plan_delivery(
        properties,
        contexts,
        schemes,
        num_sources,
        size,
        virt,
        boot_hart_id,
        cpu_reg_for_controller,
        cpu_logical_id_for_controller,
    );
    assert(delivered(
        properties,
        contexts@,
        schemes@,
        num_sources,
        size,
        virt,
        boot_hart_id,
        delivery,
        cpu_reg_for_controller,
        cpu_logical_id_for_controller,
    ));
    match delivery {
        Ok((way, owned_resources)) => Ok(
            AplicPlan { controller, num_sources, layout, delivery: way, owned_resources },
        ),
        Err(fault) => Err(fault),
    }
}

/// The controller of a plan.
pub fn build_aplic(plan: &AplicPlan) -> (built: Aplic)
    requires
        plan.layout.wf(),
        plan.layout.sources() == plan.num_sources,
        plan.delivery matches AplicDelivery::Direct(direct) ==> direct.wf(),
    ensures
        built.wf(),
        built.controller == plan.controller,
        built.num_sources == plan.num_sources,
        built.layout == plan.layout,
        built.delivery == plan.delivery,
        !built.quiesced,
        built.sources@[0] == (AplicSourceState { mode: AplicSourceMode::Inactive, target: 0 }),
        forall|i: int|
            1 <= i <= plan.num_sources ==> #[trigger] built.sources@[i] == (AplicSourceState {
                mode: AplicSourceMode::Inactive,
                target: aplic::first_target(plan.delivery),
            }),
{
    Aplic::new(plan.controller, plan.layout, plan.num_sources, plan.delivery)
}

/// Why an interrupt handler or domain was not registered.
#[derive(Clone, Copy, PartialEq, Eq, Structural, Debug)]
pub enum IrqError {
    OutOfMemory,
    AlreadyRegistered,
    NotFound,
}

/// Why a message interrupt controller was not registered.
#[derive(Clone, Copy, PartialEq, Eq, Structural, Debug)]
pub enum MsiError {
    OutOfMemory,
    NotFound,
    Other,
}

pub open spec fn irq_fault(error: IrqError) -> PnpError {
    match error {
        IrqError::OutOfMemory => PnpError::OutOfMemory,
        _ => PnpError::RegistrationFailed(PnpResourceKind::Irq, "AIA IRQ registration failed"),
    }
}

pub fn map_irq_registration_error(error: IrqError) -> (fault: PnpError)
    ensures
        fault == irq_fault(error),
{
    match error {
        IrqError::OutOfMemory => PnpError::OutOfMemory,
        _ => PnpError::RegistrationFailed(PnpResourceKind::Irq, "AIA IRQ registration failed"),
    }
}

pub open spec fn msi_fault(error: MsiError, controller: u32) -> PnpError {
    match error {
        MsiError::OutOfMemory => PnpError::OutOfMemory,
        MsiError::NotFound => PnpError::NeedsMsiController(controller),
        MsiError::Other => PnpError::RegistrationFailed(
            PnpResourceKind::MsiController,
            "IMSIC MSI controller registration failed",
        ),
    }
}

pub fn map_msi_registration_error(error: MsiError, controller: u32) -> (fault: PnpError)
    ensures
        fault == msi_fault(error, controller),
{
    match error {
        MsiError::OutOfMemory => PnpError::OutOfMemory,
        MsiError::NotFound => PnpError::NeedsMsiController(controller),
        MsiError::Other => PnpError::RegistrationFailed(
            PnpResourceKind::MsiController,
            "IMSIC MSI controller registration failed",
        ),
    }
}

/// What came of a step of a binding.
#[derive(Clone, Copy, PartialEq, Eq, Debug)]
pub enum BindEvent {
    Done,
    Refused(PnpError),
}

/// The next step of binding a message interrupt controller. Each thing that is
/// registered is handed over to the device right after; what cannot be handed
/// over is undone.
#[derive(Clone, Copy, PartialEq, Eq, Debug)]
pub enum ImsicStep {
    /// Room for all four things is reserved before anything is visible to others.
    Reserve(usize),
    Install,
    OwnInstalled,
    Uninstall(PnpError),
    RegisterCascade,
    OwnCascade,
    UnregisterCascade(PnpError),
    RegisterDomain,
    OwnDomain,
    UnregisterDomain(PnpError),
    Publish,
    RegisterController,
    Unpublish(PnpError),
    OwnController,
    UnpublishAndUnregister(PnpError),
    Finished(Result<(), PnpError>),
}

/// The step after another one. What was handed over is released by its owner.
pub open spec fn imsic_after(step: ImsicStep, event: BindEvent) -> ImsicStep {
    match (step, event) {
        (ImsicStep::Finished(result), _) => ImsicStep::Finished(result),
        (ImsicStep::Uninstall(fault), _) => ImsicStep::Finished(Err(fault)),
        (ImsicStep::UnregisterCascade(fault), _) => ImsicStep::Finished(Err(fault)),
        (ImsicStep::UnregisterDomain(fault), _) => ImsicStep::Finished(Err(fault)),
        (ImsicStep::Unpublish(fault), _) => ImsicStep::Finished(Err(fault)),
        (ImsicStep::UnpublishAndUnregister(fault), _) => ImsicStep::Finished(Err(fault)),
        (ImsicStep::Reserve(_), BindEvent::Done) => ImsicStep::Install,
        (ImsicStep::Install, BindEvent::Done) => ImsicStep::OwnInstalled,
        (ImsicStep::Install, BindEvent::Refused(_)) => ImsicStep::Finished(
            Err(PnpError::RegistrationFailed(PnpResourceKind::IrqDomain, "imsic CSR bridge busy")),
        ),
        (ImsicStep::OwnInstalled, BindEvent::Done) => ImsicStep::RegisterCascade,
        (ImsicStep::OwnInstalled, BindEvent::Refused(fault)) => ImsicStep::Uninstall(fault),
        (ImsicStep::RegisterCascade, BindEvent::Done) => ImsicStep::OwnCascade,
        (ImsicStep::OwnCascade, BindEvent::Done) => ImsicStep::RegisterDomain,
        (ImsicStep::OwnCascade, BindEvent::Refused(fault)) => ImsicStep::UnregisterCascade(fault),
        (ImsicStep::RegisterDomain, BindEvent::Done) => ImsicStep::OwnDomain,
        (ImsicStep::OwnDomain, BindEvent::Done) => ImsicStep::Publish,
        (ImsicStep::OwnDomain, BindEvent::Refused(fault)) => ImsicStep::UnregisterDomain(fault),
        (ImsicStep::Publish, BindEvent::Done) => ImsicStep::RegisterController,
        (ImsicStep::RegisterController, BindEvent::Done) => ImsicStep::OwnController,
        (ImsicStep::RegisterController, BindEvent::Refused(fault)) => ImsicStep::Unpublish(fault),
        (ImsicStep::OwnController, BindEvent::Done) => ImsicStep::Finished(Ok(())),
        (ImsicStep::OwnController, BindEvent::Refused(fault)) => ImsicStep::UnpublishAndUnregister(
            fault,
        ),
        (_, BindEvent::Refused(fault)) => ImsicStep::Finished(Err(fault)),
    }
}

/// The first step of binding a message interrupt controller.
pub fn start_imsic_binding() -> (step: ImsicStep)
    ensures
        step == ImsicStep::Reserve(4),
{
    ImsicStep::Reserve(4)
}

/// The step after another one.
pub fn advance_imsic_binding(step: ImsicStep, event: BindEvent) -> (next: ImsicStep)
    ensures
        next == imsic_after(step, event),
{
    match (step, event) {
        (ImsicStep::Finished(result), _) => ImsicStep::Finished(result),
        (ImsicStep::Uninstall(fault), _) => ImsicStep::Finished(Err(fault)),
        (ImsicStep::UnregisterCascade(fault), _) => ImsicStep::Finished(Err(fault)),
        (ImsicStep::UnregisterDomain(fault), _) => ImsicStep::Finished(Err(fault)),
        (ImsicStep::Unpublish(fault), _) => ImsicStep::Finished(Err(fault)),
        (ImsicStep::UnpublishAndUnregister(fault), _) => ImsicStep::Finished(Err(fault)),
        (ImsicStep::Reserve(_), BindEvent::Done) => ImsicStep::Install,
        (ImsicStep::Install, BindEvent::Done) => ImsicStep::OwnInstalled,
        (ImsicStep::Install, BindEvent::Refused(_)) => ImsicStep::Finished(
            Err(PnpError::RegistrationFailed(PnpResourceKind::IrqDomain, "imsic CSR bridge busy")),
        ),
        (ImsicStep::OwnInstalled, BindEvent::Done) => ImsicStep::RegisterCascade,
        (ImsicStep::OwnInstalled, BindEvent::Refused(fault)) => ImsicStep::Uninstall(fault),
        (ImsicStep::RegisterCascade, BindEvent::Done) => ImsicStep::OwnCascade,
        (ImsicStep::OwnCascade, BindEvent::Done) => ImsicStep::RegisterDomain,
        (ImsicStep::OwnCascade, BindEvent::Refused(fault)) => ImsicStep::UnregisterCascade(fault),
        (ImsicStep::RegisterDomain, BindEvent::Done) => ImsicStep::OwnDomain,
        (ImsicStep::OwnDomain, BindEvent::Done) => ImsicStep::Publish,
        (ImsicStep::OwnDomain, BindEvent::Refused(fault)) => ImsicStep::UnregisterDomain(fault),
        (ImsicStep::Publish, BindEvent::Done) => ImsicStep::RegisterController,
        (ImsicStep::RegisterController, BindEvent::Done) => ImsicStep::OwnController,
        (ImsicStep::RegisterController, BindEvent::Refused(fault)) => ImsicStep::Unpublish(fault),
        (ImsicStep::OwnController, BindEvent::Done) => ImsicStep::Finished(Ok(())),
        (ImsicStep::OwnController, BindEvent::Refused(fault)) => ImsicStep::UnpublishAndUnregister(
            fault,
        ),
        (_, BindEvent::Refused(fault)) => ImsicStep::Finished(Err(fault)),
    }
}

/// The next step of binding a controller of wired interrupts.
#[derive(Clone, Copy, PartialEq, Eq, Debug)]
pub enum AplicStep {
    Reserve(usize),
    Initialize,
    RegisterCascade,
    OwnCascade,
    UnregisterCascade(PnpError),
    BringUp,
    RegisterDomain,
    Quiesce(PnpError),
    OwnDomain,
    UnregisterAndQuiesce(PnpError),
    Finished(Result<(), PnpError>),
}

/// The step after another one. `cascaded` is whether a CPU serves the sources
/// straight. Once the controller is up, a refusal shuts it.
pub open spec fn aplic_after(step: AplicStep, event: BindEvent, cascaded: bool) -> AplicStep {
    match (step, event) {
        (AplicStep::Finished(result), _) => AplicStep::Finished(result),
        (AplicStep::UnregisterCascade(fault), _) => AplicStep::Finished(Err(fault)),
        (AplicStep::Quiesce(fault), _) => AplicStep::Finished(Err(fault)),
        (AplicStep::UnregisterAndQuiesce(fault), _) => AplicStep::Finished(Err(fault)),
        (AplicStep::Reserve(_), BindEvent::Done) => AplicStep::Initialize,
        (AplicStep::Initialize, BindEvent::Done) => if cascaded {
            AplicStep::RegisterCascade
        } else {
            AplicStep::BringUp
        },
        (AplicStep::RegisterCascade, BindEvent::Done) => AplicStep::OwnCascade,
        (AplicStep::OwnCascade, BindEvent::Done) => AplicStep::BringUp,
        (AplicStep::OwnCascade, BindEvent::Refused(fault)) => AplicStep::UnregisterCascade(fault),
        (AplicStep::BringUp, BindEvent::Done) => AplicStep::RegisterDomain,
        (AplicStep::RegisterDomain, BindEvent::Done) => AplicStep::OwnDomain,
        (AplicStep::RegisterDomain, BindEvent::Refused(fault)) => AplicStep::Quiesce(fault),
        (AplicStep::OwnDomain, BindEvent::Done) => AplicStep::Finished(Ok(())),
        (AplicStep::OwnDomain, BindEvent::Refused(fault)) => AplicStep::UnregisterAndQuiesce(
            fault,
        ),
        (_, BindEvent::Refused(fault)) => AplicStep::Finished(Err(fault)),
    }
}

/// The first step of binding the controller of a plan.
pub fn start_aplic_binding(plan: &AplicPlan) -> (step: AplicStep)
    ensures
        step == AplicStep::Reserve(plan.owned_resources),
{
    AplicStep::Reserve(plan.owned_resources)
}

/// The step after another one.
pub fn advance_aplic_binding(step: AplicStep, event: BindEvent, cascaded: bool) -> (next: AplicStep)
    ensures
        next == aplic_after(step, event, cascaded),
{
    match (step, event) {
        (AplicStep::Finished(result), _) => AplicStep::Finished(result),
        (AplicStep::UnregisterCascade(fault), _) => AplicStep::Finished(Err(fault)),
        (AplicStep::Quiesce(fault), _) => AplicStep::Finished(Err(fault)),
        (AplicStep::UnregisterAndQuiesce(fault), _) => AplicStep::Finished(Err(fault)),
        (AplicStep::Reserve(_), BindEvent::Done) => AplicStep::Initialize,
        (AplicStep::Initialize, BindEvent::Done) => if cascaded {
            AplicStep::RegisterCascade
        } else {
            AplicStep::BringUp
        },
        (AplicStep::RegisterCascade, BindEvent::Done) => AplicStep::OwnCascade,
        (AplicStep::OwnCascade, BindEvent::Done) => AplicStep::BringUp,
        (AplicStep::OwnCascade, BindEvent::Refused(fault)) => AplicStep::UnregisterCascade(fault),
        (AplicStep::BringUp, BindEvent::Done) => AplicStep::RegisterDomain,
        (AplicStep::RegisterDomain, BindEvent::Done) => AplicStep::OwnDomain,
        (AplicStep::RegisterDomain, BindEvent::Refused(fault)) => AplicStep::Quiesce(fault),
        (AplicStep::OwnDomain, BindEvent::Done) => AplicStep::Finished(Ok(())),
        (AplicStep::OwnDomain, BindEvent::Refused(fault)) => AplicStep::UnregisterAndQuiesce(
            fault,
        ),
        (_, BindEvent::Refused(fault)) => AplicStep::Finished(Err(fault)),
    }
}

} // verus!
