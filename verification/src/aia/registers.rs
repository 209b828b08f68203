//! What the registers of the controllers make of what is written to them.

use vstd::prelude::*;
use crate::aia::aplic;
use crate::aia::aplic::{Aplic, AplicDelivery, IrqPolarity, IrqTrigger, LineRequest};
use crate::aia::imsic;
use crate::aia::imsic::{Imsic, ImsicCpuFile};
use crate::aia::layout;
use crate::aia::layout::{AplicDirectLayout, AplicLayout, AplicSourceMode, ImsicAddressScheme};
use crate::port::{Access, Exchange};

verus! {

/// The registers of a source are counted from zero, of which there is none; the delivery
/// registers of a CPU are 32 bytes.
pub proof fn registers_are_at_their_places(
    registers: AplicLayout,
    source: int,
    direct: AplicDirectLayout,
    index: u32,
)
    requires
        direct.service() == Some(index),
        index < 0x4000,
    ensures
        registers.sourcecfg_at(source) == 4 * source,
        registers.target_at(source) == 0x3000 + 4 * source,
        layout::APLIC_DOMAINCFG == 0,
        layout::APLIC_SETIENUM == 0x1edc,
        layout::APLIC_CLRIENUM == 0x1fdc,
        layout::APLIC_SETIPNUM_LE == 0x2000,
        direct.idc_at(0) == Some((0x4000 + 32 * index) as usize),
        direct.idc_at(8) == Some((0x4008 + 32 * index) as usize),
        direct.idc_at(0x1c) == Some((0x401c + 32 * index) as usize),
{
}

/// The mode of a source says in bit 1 whether it is one of a level, and in bit 0 whether it
/// is active when the line is low or falls.
pub proof fn modes_say_trigger_and_polarity(trigger: IrqTrigger, polarity: IrqPolarity)
    ensures
        aplic::requested(Some(trigger), Some(polarity)) matches LineRequest::Mode(mode) && {
            &&& mode.value() / 4 == 1
            &&& (mode.value() / 2 % 2 == 1) == (trigger is Level)
            &&& (mode.value() % 2 == 1) == (polarity is Low)
        },
{
}

/// Firmware has a bit for each mode: a rising and a falling edge, a high and a low level.
pub proof fn flags_say_trigger_and_polarity(flags: u32)
    ensures
        layout::mode_of(flags) is Ok <==> flags == 1 || flags == 2 || flags == 4 || flags == 8,
        layout::mode_of(flags) matches Ok(mode) ==> {
            &&& mode.value() / 4 == 1
            &&& (mode.value() / 2 % 2 == 1) == (flags >= 4)
            &&& (mode.value() % 2 == 1) == (flags == 2 || flags == 8)
        },
        AplicSourceMode::Inactive.value() == 0,
{
}

/// A source that is set up has its mode and its target in its own registers, and no other
/// source changes.
pub proof fn source_is_set_up(
    before: Aplic,
    after: Aplic,
    source: u32,
    mode: AplicSourceMode,
    target: u32,
    log: Seq<Exchange>,
    now: Seq<Exchange>,
    other: int,
)
    requires
        before.wf(),
        1 <= source <= before.num_sources,
        before.source_set(&after, source, mode, target, log, now),
        1 <= other <= before.num_sources,
        other != source,
    ensures
        now.len() == log.len() + 3,
        now.take(log.len() as int) == log,
        now[log.len() as int].access == Access::Write32((4 * source) as usize, mode.value()),
        now[log.len() as int + 1].access == Access::Write32((0x3000 + 4 * source) as usize, target),
        now[log.len() as int + 2].access is Barrier,
        after.sources@[source as int].mode == mode,
        after.sources@[source as int].target == target,
        after.sources@[other] == before.sources@[other],
{
    assert(now.take(log.len() as int) =~= log);
}

/// Switching off reaches every source: it is disabled by its number, and its registers are
/// cleared.
pub proof fn clearing_reaches_every_source(registers: AplicLayout, count: int, source: int)
    requires
        registers.wf(),
        1 <= source <= count <= registers.sources(),
    ensures
        ({
            let trace = aplic::sources_cleared(registers, count);
            &&& trace.len() == 3 * count
            &&& trace[3 * source - 3].access == Access::Write32(0x1fdc, source as u32)
            &&& trace[3 * source - 2].access == Access::Write32((4 * source) as usize, 0)
            &&& trace[3 * source - 1].access == Access::Write32((0x3000 + 4 * source) as usize, 0)
        }),
    decreases count,
{
    lemma_cleared_len(registers, count - 1);
    let front = aplic::sources_cleared(registers, count - 1);
    let trace = aplic::sources_cleared(registers, count);
    if source < count {
        clearing_reaches_every_source(registers, count - 1, source);
        assert(trace[3 * source - 3] == front[3 * source - 3]);
        assert(trace[3 * source - 2] == front[3 * source - 2]);
        assert(trace[3 * source - 1] == front[3 * source - 1]);
    }
}

proof fn lemma_cleared_len(registers: AplicLayout, count: int)
    requires
        0 <= count,
    ensures
        aplic::sources_cleared(registers, count).len() == 3 * count,
    decreases count,
{
    if count > 0 {
        lemma_cleared_len(registers, count - 1);
    }
}

/// A claim has the number of the source above its priority; a source at any priority is
/// found again.
pub proof fn claim_names_its_source(source: u32, priority: u32)
    requires
        1 <= source < 0x400,
        priority < 0x100,
    ensures
        AplicDirectLayout::claimed((source * 0x1_0000 + priority) as u32) == Some(source),
        AplicDirectLayout::claimed(priority) is None,
{
}

/// A source that goes straight to a CPU has that CPU's number above its priority, which is
/// the highest there is.
pub proof fn direct_target_names_its_cpu(direct: AplicDirectLayout, index: u32)
    requires
        direct.service() == Some(index),
        index < 0x4000,
    ensures
        direct.target_value() matches Some(target) && target / 0x4_0000 == index && target
            % 0x4_0000 == 1,
{
}

/// Interrupts are delivered only if somebody is served, and as messages only if there is a
/// parent for them.
pub proof fn domain_is_on_for_its_delivery(delivery: AplicDelivery)
    ensures
        ({
            let value = aplic::domain_value(delivery);
            &&& (value / 0x100 % 2 == 1) == (delivery matches AplicDelivery::Direct(direct)
                ==> direct.service() is Some)
            &&& (value / 4 % 2 == 1) == (delivery is Msi)
        }),
{
}

/// Delivery straight to a CPU is opened with a threshold that lets everything pass, and
/// closed before it is reset.
pub proof fn delivery_opens_and_closes(delivery: AplicDelivery, index: u32)
    requires
        delivery matches AplicDelivery::Direct(direct) && direct.service() == Some(index),
        index < 0x4000,
    ensures
        ({
            let opened = aplic::delivery_opened(delivery);
            let stopped = aplic::delivery_stopped(delivery);
            let reset = aplic::delivery_reset(delivery);
            &&& opened.len() == 2
            &&& opened[0].access == Access::Write32((0x4008 + 32 * index) as usize, 0)
            &&& opened[1].access == Access::Write32((0x4000 + 32 * index) as usize, 1)
            &&& stopped.len() == 1
            &&& stopped[0].access == Access::Write32((0x4000 + 32 * index) as usize, 0)
            &&& reset.len() == 2
            &&& reset[0].access == Access::Write32((0x4000 + 32 * index) as usize, 0)
        }),
{
}

/// The address that a controller makes of the numbers of a file.
pub open spec fn composed(scheme: ImsicAddressScheme, guest: u64, hart: u64) -> u64 {
    let low = hart & (((1u64 << (scheme.hart_index_bits as u64)) - 1) as u64);
    let group = hart >> (scheme.hart_index_bits as u64);
    scheme.base_addr | (group << (scheme.group_index_shift as u64)) | (low << ((12
        + scheme.guest_index_bits) as u64)) | (guest << 12u64)
}

proof fn lemma_composed(
    address: u64,
    g: u64,
    h: u64,
    r: u64,
    s: u64,
    gm: u64,
    hm: u64,
    rm: u64,
    lm: u64,
)
    by (bit_vector)
    requires
        g <= 7,
        h <= 15,
        r <= 7,
        24 <= s <= 55,
        12 + g + h <= s,
        gm == (1u64 << g) - 1,
        hm == (1u64 << h) - 1,
        rm == (1u64 << r) - 1,
        lm == (1u64 << ((12 + g + h) as u64)) - 1,
        address & 0xfff == 0,
    ensures
        ({
            let low = ((address >> 12u64) >> g) & hm;
            let group = (address >> s) & rm;
            let hart = low | (group << h);
            let guest = (address >> 12u64) & gm;
            ((address & !lm) & !(rm << s)) | ((hart >> h) << s) | ((hart & hm) << ((12 + g)
                as u64)) | (guest << 12u64)
        }) == address,
{
}

/// The numbers of a file are those by which a controller reaches it: the address that it
/// makes of them is the file's.
pub proof fn numbers_lead_to_their_file(scheme: ImsicAddressScheme, address: u64, eiid: u32)
    requires
        scheme.can_target(address, eiid),
        12 + scheme.guest_index_bits + scheme.hart_index_bits <= scheme.group_index_shift,
    ensures
        composed(scheme, scheme.guest_of(address), scheme.hart_of(address)) == address,
{
    let g = scheme.guest_index_bits as u64;
    let h = scheme.hart_index_bits as u64;
    let r = scheme.group_index_bits as u64;
    let s = scheme.group_index_shift as u64;
    assert((1u64 << 0u64) == 1) by (bit_vector);
    assert(address & 0xfff == address % 0x1000) by (bit_vector);
    assert(forall|n: u64| n < 64 ==> #[trigger] (1u64 << n) >= 1) by (bit_vector);
    lemma_composed(
        address,
        g,
        h,
        r,
        s,
        layout::low_mask(g as int),
        layout::low_mask(h as int),
        layout::low_mask(r as int),
        layout::low_mask(scheme.low_bits()),
    );
}

/// The file of a CPU is the CPU's own.
pub proof fn file_is_the_cpus_own(files: Seq<ImsicCpuFile>, logical_cpu: usize, from: int)
    requires
        0 <= from <= files.len(),
    ensures
        ({
            let file = imsic::file_of_cpu(files, logical_cpu, from);
            &&& from <= file <= files.len()
            &&& file < files.len() ==> files[file].logical_cpu == logical_cpu
            &&& forall|i: int|
                from <= i < file ==> (#[trigger] files[i]).logical_cpu != logical_cpu
        }),
    decreases files.len() - from,
{
    if from < files.len() && files[from].logical_cpu != logical_cpu {
        file_is_the_cpus_own(files, logical_cpu, from + 1);
    }
}

/// An identity that a CPU claims is delivered under the number that stands for the CPU's
/// file and the identity, if it was handed out.
pub proof fn claimed_identity_is_its_own(interrupts: Imsic, logical_cpu: usize, id: u32)
    requires
        interrupts.wf(),
    ensures
        interrupts.number_claimed(logical_cpu, id) matches Some(hwirq) ==> {
            &&& interrupts.layout().decoded(hwirq) matches Some((file, named, _))
            &&& named == id
            &&& file < interrupts.cpu_files().len()
            &&& interrupts.cpu_files()[file as int].logical_cpu == logical_cpu
            &&& interrupts.in_use(hwirq)
        },
{
    file_is_the_cpus_own(interrupts.cpu_files(), logical_cpu, 0);
    let files = interrupts.cpu_files();
    let file = imsic::file_of_cpu(files, logical_cpu, 0);
    let stride = interrupts.ids() + 1;
    if file < files.len() && 1 <= id <= interrupts.ids() {
        let number = file * stride + id;
        assert(number / stride == file && number % stride == id) by (nonlinear_arith)
            requires
                number == file * stride + id,
                0 <= file,
                0 < id < stride,
        ;
        assert(0 <= number < files.len() * stride) by (nonlinear_arith)
            requires
                number == file * stride + id,
                0 <= file < files.len(),
                0 < id < stride,
        ;
    }
}

} // verus!
