//! What firmware says of the controllers.

use vstd::prelude::*;
use crate::bytes;
use crate::bytes::be32;
use crate::platform;
use crate::platform::CpuAnswer;

verus! {

pub const IMSIC_PAGE_SIZE: u64 = 0x1000;

pub const IMSIC_MIN_ID: u32 = 63;

pub const IMSIC_MAX_ID: u32 = 2047;

pub const APLIC_MAX_SOURCE: u32 = 1023;

pub const RISCV_SUPERVISOR_EXTERNAL_IRQ: u32 = 9;

/// The highest number of a CPU in a target register.
pub const APLIC_TARGET_HART_MASK: u32 = 0x3fff;

#[derive(Clone, Copy, Debug, PartialEq, Eq, Structural)]
pub enum AiaConfigError {
    MissingNumIds,
    MalformedNumIds,
    InvalidNumIds,
    MalformedOptionalProperty,
    MissingInterruptContexts,
    MissingSupervisorContext,
    MalformedInterruptContext,
    UnsupportedInterruptContext,
    UnknownSupervisorContextCpu,
    DuplicateSupervisorContext,
    MalformedHartIndexes,
    InvalidHartIndex,
    DuplicateHartIndex,
    MissingMmio,
    UnalignedMmio,
    MmioWindowTooSmall,
    AddressOverflow,
    InvalidAddressScheme,
    DuplicateInterruptFile,
    MissingNumSources,
    MalformedNumSources,
    InvalidNumSources,
    MissingMsiParent,
    MalformedMsiParent,
    UnsupportedIrqType,
    OutOfMemory,
}

/// The error for a property of the wrong length, by the one for its absence.
pub open spec fn malformed_of(missing: AiaConfigError) -> AiaConfigError {
    match missing {
        AiaConfigError::MissingNumIds => AiaConfigError::MalformedNumIds,
        AiaConfigError::MissingNumSources => AiaConfigError::MalformedNumSources,
        AiaConfigError::MissingMsiParent => AiaConfigError::MalformedMsiParent,
        _ => AiaConfigError::MalformedOptionalProperty,
    }
}

/// A property of one big-endian cell.
pub open spec fn cell_of(raw: Option<&[u8]>, missing: AiaConfigError) -> Result<
    u32,
    AiaConfigError,
> {
    match raw {
        None => Err(missing),
        Some(bytes) => if bytes@.len() != 4 {
            Err(malformed_of(missing))
        } else {
            Ok(bytes::be32_at(bytes@, 0))
        },
    }
}

/// A property of one big-endian cell.
pub fn parse_be_u32(raw: Option<&[u8]>, missing: AiaConfigError) -> (result: Result<
    u32,
    AiaConfigError,
>)
    ensures
        result == cell_of(raw, missing),
{
    match raw {
        None => Err(missing),
        Some(bytes) => {
            if bytes.len() != 4 {
                return Err(
                    match missing {
                        AiaConfigError::MissingNumIds => AiaConfigError::MalformedNumIds,
                        AiaConfigError::MissingNumSources => AiaConfigError::MalformedNumSources,
                        AiaConfigError::MissingMsiParent => AiaConfigError::MalformedMsiParent,
                        _ => AiaConfigError::MalformedOptionalProperty,
                    },
                );
            }
            Ok(be32(bytes, 0))
        },
    }
}

/// A cell that must meet a condition.
pub open spec fn checked_cell(
    raw: Option<&[u8]>,
    missing: AiaConfigError,
    valid: spec_fn(u32) -> bool,
    invalid: AiaConfigError,
) -> Result<u32, AiaConfigError> {
    match cell_of(raw, missing) {
        Err(error) => Err(error),
        Ok(value) => if valid(value) {
            Ok(value)
        } else {
            Err(invalid)
        },
    }
}

/// Whether a number of identities is possible: one less than a multiple of 64.
pub open spec fn num_ids_valid(num_ids: u32) -> bool {
    IMSIC_MIN_ID <= num_ids <= IMSIC_MAX_ID && num_ids % 64 == 63
}

/// The number of identities of an interrupt file.
pub open spec fn num_ids_of(raw: Option<&[u8]>) -> Result<u32, AiaConfigError> {
    checked_cell(
        raw,
        AiaConfigError::MissingNumIds,
        |value: u32| num_ids_valid(value),
        AiaConfigError::InvalidNumIds,
    )
}

pub fn parse_num_ids(raw: Option<&[u8]>) -> (result: Result<u32, AiaConfigError>)
    ensures
        result == num_ids_of(raw),
{
    let num_ids: u32 = match parse_be_u32(raw, AiaConfigError::MissingNumIds) {
        Ok(num_ids) => num_ids,
        Err(error) => {
            return Err(error);
        },
    };
    if num_ids < IMSIC_MIN_ID || num_ids > IMSIC_MAX_ID || num_ids % 64 != 63 {
        return Err(AiaConfigError::InvalidNumIds);
    }
    Ok(num_ids)
}

/// The number of wired interrupts.
pub open spec fn num_sources_of(raw: Option<&[u8]>) -> Result<u32, AiaConfigError> {
    checked_cell(
        raw,
        AiaConfigError::MissingNumSources,
        |value: u32| 1 <= value <= APLIC_MAX_SOURCE,
        AiaConfigError::InvalidNumSources,
    )
}

pub fn parse_num_sources(raw: Option<&[u8]>) -> (result: Result<u32, AiaConfigError>)
    ensures
        result == num_sources_of(raw),
{
    let num_sources: u32 = match parse_be_u32(raw, AiaConfigError::MissingNumSources) {
        Ok(num_sources) => num_sources,
        Err(error) => {
            return Err(error);
        },
    };
    if num_sources == 0 || num_sources > APLIC_MAX_SOURCE {
        return Err(AiaConfigError::InvalidNumSources);
    }
    Ok(num_sources)
}

/// The message interrupt controller that is written to.
pub open spec fn msi_parent_of(raw: Option<&[u8]>) -> Result<u32, AiaConfigError> {
    checked_cell(
        raw,
        AiaConfigError::MissingMsiParent,
        |value: u32| value != 0,
        AiaConfigError::MalformedMsiParent,
    )
}

pub fn parse_msi_parent(raw: Option<&[u8]>) -> (result: Result<u32, AiaConfigError>)
    ensures
        result == msi_parent_of(raw),
{
    let parent: u32 = match parse_be_u32(raw, AiaConfigError::MissingMsiParent) {
        Ok(parent) => parent,
        Err(error) => {
            return Err(error);
        },
    };
    if parent == 0 {
        return Err(AiaConfigError::MalformedMsiParent);
    }
    Ok(parent)
}

/// A property that may be absent.
pub open spec fn optional_of(raw: Option<&[u8]>) -> Result<Option<u32>, AiaConfigError> {
    match raw {
        None => Ok(None),
        Some(bytes) => if bytes@.len() != 4 {
            Err(AiaConfigError::MalformedOptionalProperty)
        } else {
            Ok(Some(bytes::be32_at(bytes@, 0)))
        },
    }
}

pub fn parse_optional_u32(raw: Option<&[u8]>) -> (result: Result<Option<u32>, AiaConfigError>)
    ensures
        result == optional_of(raw),
{
    match raw {
        None => Ok(None),
        Some(bytes) => match parse_be_u32(Some(bytes), AiaConfigError::MalformedOptionalProperty) {
            Ok(value) => Ok(Some(value)),
            Err(error) => Err(error),
        },
    }
}

/// An interrupt that a controller raises at a CPU.
#[derive(Clone, Copy)]
pub struct ImsicInterruptContext<'a> {
    pub controller: Option<u32>,
    pub cells: &'a [u32],
}

/// The interrupt file, or delivery register, of a CPU.
#[derive(Clone, Copy, Debug, PartialEq, Eq, Structural)]
pub struct ImsicSupervisorContext {
    pub logical_cpu: usize,
    pub hart_id: u64,
    pub file_index: usize,
}

/// Whether a CPU has a context already.
pub open spec fn has_cpu(selected: Seq<ImsicSupervisorContext>, logical_cpu: usize) -> bool {
    exists|i: int| 0 <= i < selected.len() && (#[trigger] selected[i]).logical_cpu == logical_cpu
}

/// Whether a context is asked about.
pub open spec fn is_supervisor(context: ImsicInterruptContext) -> bool {
    context.controller is Some && context.cells@.len() == 1 && context.cells@[0]
        == RISCV_SUPERVISOR_EXTERNAL_IRQ
}

/// What the context with number `index` adds.
pub open spec fn select_step(
    selected: Seq<ImsicSupervisorContext>,
    context: ImsicInterruptContext,
    answer: CpuAnswer,
    index: usize,
) -> Result<Seq<ImsicSupervisorContext>, AiaConfigError> {
    if context.controller is None || context.cells@.len() != 1 {
        Err(AiaConfigError::MalformedInterruptContext)
    } else if context.cells@[0] != RISCV_SUPERVISOR_EXTERNAL_IRQ {
        Err(AiaConfigError::UnsupportedInterruptContext)
    } else if answer.hart_id is None || answer.logical_cpu is None {
        Err(AiaConfigError::UnknownSupervisorContextCpu)
    } else if has_cpu(selected, answer.logical_cpu->0) {
        Err(AiaConfigError::DuplicateSupervisorContext)
    } else {
        Ok(
            selected.push(
                ImsicSupervisorContext {
                    logical_cpu: answer.logical_cpu->0,
                    hart_id: answer.hart_id->0,
                    file_index: index,
                },
            ),
        )
    }
}

/// What the first `count` contexts come to, or the first thing that is wrong.
pub open spec fn selected(
    contexts: Seq<ImsicInterruptContext>,
    answers: Seq<CpuAnswer>,
    count: int,
) -> Result<Seq<ImsicSupervisorContext>, AiaConfigError>
    decreases count,
{
    if count <= 0 {
        Ok(Seq::empty())
    } else {
        match selected(contexts, answers, count - 1) {
            Err(error) => Err(error),
            Ok(list) => select_step(
                list,
                contexts[count - 1],
                answers[count - 1],
                (count - 1) as usize,
            ),
        }
    }
}

/// Whether the answers are what the lookups may have given, as far as they were
/// asked: not behind a context that is wrong.
pub open spec fn answered<F: FnMut(u32) -> Option<u64>, G: FnMut(u32) -> Option<usize>>(
    contexts: Seq<ImsicInterruptContext>,
    answers: Seq<CpuAnswer>,
    hart_of: F,
    cpu_of: G,
) -> bool {
    &&& answers.len() == contexts.len()
    &&& forall|i: int|
        0 <= i < contexts.len() && is_supervisor(#[trigger] contexts[i]) && selected(
            contexts,
            answers,
            i,
        ) is Ok ==> {
            let controller = contexts[i].controller->0;
            &&& call_ensures(hart_of, (controller,), answers[i].hart_id)
            &&& call_ensures(cpu_of, (controller,), answers[i].logical_cpu)
                || answers[i].hart_id is None
        }
}

/// What selecting the contexts comes to: all of them, in order.
pub open spec fn selection(
    contexts: Seq<ImsicInterruptContext>,
    answers: Seq<CpuAnswer>,
    result: Result<Vec<ImsicSupervisorContext>, AiaConfigError>,
) -> bool {
    match selected(contexts, answers, contexts.len() as int) {
        Err(error) => result == Err::<Vec<ImsicSupervisorContext>, AiaConfigError>(error),
        Ok(list) => if contexts.len() == 0 {
            result == Err::<Vec<ImsicSupervisorContext>, AiaConfigError>(
                AiaConfigError::MissingInterruptContexts,
            )
        } else {
            result matches Ok(found) && found@ == list
        },
    }
}

proof fn lemma_selected_error(
    contexts: Seq<ImsicInterruptContext>,
    answers: Seq<CpuAnswer>,
    count: int,
    total: int,
)
    requires
        0 <= count <= total,
        selected(contexts, answers, count) is Err,
    ensures
        selected(contexts, answers, total) == selected(contexts, answers, count),
    decreases total - count,
{
    if count < total {
        lemma_selected_error(contexts, answers, count, total - 1);
    }
}

proof fn lemma_selected_local(
    contexts: Seq<ImsicInterruptContext>,
    first: Seq<CpuAnswer>,
    second: Seq<CpuAnswer>,
    count: int,
)
    requires
        forall|i: int| 0 <= i < count ==> #[trigger] first[i] == second[i],
    ensures
        selected(contexts, first, count) == selected(contexts, second, count),
    decreases count,
{
    if count > 0 {
        lemma_selected_local(contexts, first, second, count - 1);
        assert(first[count - 1] == second[count - 1]);
    }
}

/// Every context that was selected is the one of its number, and no CPU has two.
pub proof fn selected_contexts_are_numbered(
    contexts: Seq<ImsicInterruptContext>,
    answers: Seq<CpuAnswer>,
    count: int,
    list: Seq<ImsicSupervisorContext>,
)
    requires
        0 <= count <= contexts.len() <= usize::MAX,
        selected(contexts, answers, count) == Ok::<Seq<ImsicSupervisorContext>, AiaConfigError>(
            list,
        ),
    ensures
        list.len() == count,
        forall|i: int| 0 <= i < count ==> (#[trigger] list[i]).file_index == i,
        forall|i: int, j: int|
            0 <= i < j < count ==> (#[trigger] list[i]).logical_cpu != (
            #[trigger] list[j]).logical_cpu,
    decreases count,
{
    if count > 0 {
        let front = selected(contexts, answers, count - 1)->Ok_0;
        selected_contexts_are_numbered(contexts, answers, count - 1, front);
        let last = list[count - 1];
        assert(list == front.push(last));
        assert forall|i: int, j: int| 0 <= i < j < count implies (#[trigger] list[i]).logical_cpu
            != (#[trigger] list[j]).logical_cpu by {
            assert(list[i] == front[i]);
            if j < count - 1 {
                assert(list[j] == front[j]);
            } else {
                assert(!has_cpu(front, last.logical_cpu));
            }
        }
    }
}

spec fn answered_so_far<F: FnMut(u32) -> Option<u64>, G: FnMut(u32) -> Option<usize>>(
    contexts: Seq<ImsicInterruptContext>,
    answers: Seq<CpuAnswer>,
    hart_of: F,
    cpu_of: G,
) -> bool {
    &&& answers.len() <= contexts.len()
    &&& forall|i: int|
        0 <= i < answers.len() && is_supervisor(#[trigger] contexts[i]) ==> {
            let controller = contexts[i].controller->0;
            &&& call_ensures(hart_of, (controller,), answers[i].hart_id)
            &&& call_ensures(cpu_of, (controller,), answers[i].logical_cpu)
                || answers[i].hart_id is None
        }
}

proof fn lemma_answered_push<F: FnMut(u32) -> Option<u64>, G: FnMut(u32) -> Option<usize>>(
    contexts: Seq<ImsicInterruptContext>,
    answers: Seq<CpuAnswer>,
    answer: CpuAnswer,
    hart_of: F,
    cpu_of: G,
)
    requires
        answered_so_far(contexts, answers, hart_of, cpu_of),
        answers.len() < contexts.len(),
        is_supervisor(contexts[answers.len() as int]) ==> {
            let controller = contexts[answers.len() as int].controller->0;
            &&& call_ensures(hart_of, (controller,), answer.hart_id)
            &&& call_ensures(cpu_of, (controller,), answer.logical_cpu)
                || answer.hart_id is None
        },
    ensures
        answered_so_far(contexts, answers.push(answer), hart_of, cpu_of),
{
    let all = answers.push(answer);
    assert forall|i: int| 0 <= i < all.len() && is_supervisor(#[trigger] contexts[i]) implies {
        let controller = contexts[i].controller->0;
        &&& call_ensures(hart_of, (controller,), all[i].hart_id)
        &&& call_ensures(cpu_of, (controller,), all[i].logical_cpu)
            || all[i].hart_id is None
    } by {
        if i < answers.len() {
            assert(all[i] == answers[i]);
        }
    }
}

/// Stopping at a context with an error answers for all contexts behind it.
proof fn lemma_stop<F: FnMut(u32) -> Option<u64>, G: FnMut(u32) -> Option<usize>>(
    contexts: Seq<ImsicInterruptContext>,
    answers: Seq<CpuAnswer>,
    answer: CpuAnswer,
    list: Seq<ImsicSupervisorContext>,
    error: AiaConfigError,
    hart_of: F,
    cpu_of: G,
)
    requires
        answered_so_far(contexts, answers, hart_of, cpu_of),
        answers.len() < contexts.len() <= usize::MAX,
        is_supervisor(contexts[answers.len() as int]) ==> {
            let controller = contexts[answers.len() as int].controller->0;
            &&& call_ensures(hart_of, (controller,), answer.hart_id)
            &&& call_ensures(cpu_of, (controller,), answer.logical_cpu)
                || answer.hart_id is None
        },
        selected(contexts, answers, answers.len() as int) == Ok::<
            Seq<ImsicSupervisorContext>,
            AiaConfigError,
        >(list),
        select_step(list, contexts[answers.len() as int], answer, answers.len() as usize) == Err::<
            Seq<ImsicSupervisorContext>,
            AiaConfigError,
        >(error),
    ensures
        exists|all: Seq<CpuAnswer>| #[trigger]
            answered(contexts, all, hart_of, cpu_of) && selected(contexts, all, contexts.len() as int)
                == Err::<Seq<ImsicSupervisorContext>, AiaConfigError>(error),
{
    let n = answers.len() as int;
    let some = answers.push(answer);
    let all = Seq::new(
        contexts.len(),
        |i: int|
            if i < some.len() {
                some[i]
            } else {
                platform::unasked()
            },
    );
    lemma_answered_push(contexts, answers, answer, hart_of, cpu_of);
    assert forall|i: int| 0 <= i < n implies #[trigger] all[i] == answers[i] by {}
    lemma_selected_local(contexts, answers, all, n);
    assert(all[n] == answer);
    assert(selected(contexts, all, n + 1) == Err::<Seq<ImsicSupervisorContext>, AiaConfigError>(
        error,
    ));
    lemma_selected_error(contexts, all, n + 1, contexts.len() as int);
    assert forall|i: int|
        0 <= i < contexts.len() && is_supervisor(#[trigger] contexts[i]) && selected(
            contexts,
            all,
            i,
        ) is Ok implies {
        let controller = contexts[i].controller->0;
        &&& call_ensures(hart_of, (controller,), all[i].hart_id)
        &&& call_ensures(cpu_of, (controller,), all[i].logical_cpu)
            || all[i].hart_id is None
    } by {
        if i <= n {
            assert(all[i] == some[i]);
        } else {
            lemma_selected_error(contexts, all, n + 1, i);
        }
    }
    assert(answered(contexts, all, hart_of, cpu_of));
}

fn cpu_listed(selected: &Vec<ImsicSupervisorContext>, logical_cpu: usize) -> (listed: bool)
    ensures
        listed == has_cpu(selected@, logical_cpu),
{
    let mut i: usize = 0;
    while i < selected.len()
        invariant
            i <= selected@.len(),
            forall|k: int|
                0 <= k < i ==> (#[trigger] selected@[k]).logical_cpu != logical_cpu,
        decreases selected@.len() - i,
    {
        if selected[i].logical_cpu == logical_cpu {
            return true;
        }
        i += 1;
    }
    false
}

/// Collects the contexts of all CPUs, by the interrupt controller of the CPU that
/// each one names. Each must be a supervisor context, and no CPU may have two.
pub fn select_supervisor_contexts<F: FnMut(u32) -> Option<u64>, G: FnMut(u32) -> Option<usize>>(
    contexts: &[ImsicInterruptContext],
    cpu_reg_for_controller: F,
    cpu_logical_id_for_controller: G,
) -> (result: Result<Vec<ImsicSupervisorContext>, AiaConfigError>)
    requires
        forall|controller: u32| #[trigger] call_requires(cpu_reg_for_controller, (controller,)),
        forall|controller: u32| #[trigger]
            call_requires(cpu_logical_id_for_controller, (controller,)),
    ensures
        exists|answers: Seq<CpuAnswer>| #[trigger]
            answered(
                contexts@,
                answers,
                cpu_reg_for_controller,
                cpu_logical_id_for_controller,
            ) && selection(contexts@, answers, result),
{
    let ghost hart_of = cpu_reg_for_controller;
    let ghost cpu_of = cpu_logical_id_for_controller;
    let mut find_hart = cpu_reg_for_controller;
    let mut find_cpu = cpu_logical_id_for_controller;
    let ghost n = contexts@.len() as int;
    let ghost mut answers: Seq<CpuAnswer> = Seq::empty();
    let mut list: Vec<ImsicSupervisorContext> = Vec::new();
    let mut index: usize = 0;
    assert(list@ =~= Seq::empty());
    while index < contexts.len()
        invariant
            index <= n,
            n == contexts@.len(),
            answers.len() == index,
            hart_of == cpu_reg_for_controller,
            cpu_of == cpu_logical_id_for_controller,
            find_hart == hart_of,
            find_cpu == cpu_of,
            answered_so_far(contexts@, answers, hart_of, cpu_of),
            selected(contexts@, answers, index as int) == Ok::<
                Seq<ImsicSupervisorContext>,
                AiaConfigError,
            >(list@),
            forall|controller: u32| #[trigger] call_requires(hart_of, (controller,)),
            forall|controller: u32| #[trigger]
            call_requires(cpu_of, (controller,)),
        decreases n - index,
    {
        let context = contexts[index];
        let ghost before = answers;
        let ghost mut answer = platform::unasked();
        let controller: u32 = match context.controller {
            Some(controller) => controller,
            None => {
                proof {
                    lemma_stop(
                        contexts@,
                        before,
                        answer,
                        list@,
                        AiaConfigError::MalformedInterruptContext,
                        hart_of,
                        cpu_of,
                    );
                }
                return Err(AiaConfigError::MalformedInterruptContext);
            },
        };
        if context.cells.len() != 1 {
            proof {
                lemma_stop(
                    contexts@,
                    before,
                    answer,
                    list@,
                    AiaConfigError::MalformedInterruptContext,
                    hart_of,
                    cpu_of,
                );
            }
            return Err(AiaConfigError::MalformedInterruptContext);
        }
        if context.cells[0] != RISCV_SUPERVISOR_EXTERNAL_IRQ {
            proof {
                lemma_stop(
                    contexts@,
                    before,
                    answer,
                    list@,
                    AiaConfigError::UnsupportedInterruptContext,
                    hart_of,
                    cpu_of,
                );
            }
            return Err(AiaConfigError::UnsupportedInterruptContext);
        }
        let hart = find_hart(controller);
        assert(call_ensures(hart_of, (controller,), hart));
        proof {
            answer = CpuAnswer { hart_id: hart, logical_cpu: None };
        }
        let hart_id: u64 = match hart {
            Some(hart_id) => hart_id,
            None => {
                proof {
                    lemma_stop(
                        contexts@,
                        before,
                        answer,
                        list@,
                        AiaConfigError::UnknownSupervisorContextCpu,
                        hart_of,
                        cpu_of,
                    );
                }
                return Err(AiaConfigError::UnknownSupervisorContextCpu);
            },
        };
        let cpu = find_cpu(controller);
        assert(call_ensures(cpu_of, (controller,), cpu));
        proof {
            answer = CpuAnswer { hart_id: hart, logical_cpu: cpu };
        }
        let logical_cpu: usize = match cpu {
            Some(logical_cpu) => logical_cpu,
            None => {
                proof {
                    lemma_stop(
                        contexts@,
                        before,
                        answer,
                        list@,
                        AiaConfigError::UnknownSupervisorContextCpu,
                        hart_of,
                        cpu_of,
                    );
                }
                return Err(AiaConfigError::UnknownSupervisorContextCpu);
            },
        };
        if cpu_listed(&list, logical_cpu) {
            proof {
                lemma_stop(
                    contexts@,
                    before,
                    answer,
                    list@,
                    AiaConfigError::DuplicateSupervisorContext,
                    hart_of,
                    cpu_of,
                );
            }
            return Err(AiaConfigError::DuplicateSupervisorContext);
        }
        list.push(ImsicSupervisorContext { logical_cpu, hart_id, file_index: index });
        proof {
            answers = answers.push(answer);
            lemma_selected_local(contexts@, before, answers, index as int);
            lemma_answered_push(contexts@, before, answer, hart_of, cpu_of);
        }
        index += 1;
    }
    assert(answered(contexts@, answers, hart_of, cpu_of));
    if contexts.len() == 0 {
        return Err(AiaConfigError::MissingInterruptContexts);
    }
    Ok(list)
}

/// What is wrong with the CPU numbers from `from` on, if anything: one that is
/// too high, or one that came before.
pub open spec fn indexes_error(indexes: Seq<u32>, from: int) -> Option<AiaConfigError>
    decreases indexes.len() - from,
{
    if from >= indexes.len() {
        None
    } else if indexes[from] > APLIC_TARGET_HART_MASK {
        Some(AiaConfigError::InvalidHartIndex)
    } else if indexes.take(from).contains(indexes[from]) {
        Some(AiaConfigError::DuplicateHartIndex)
    } else {
        indexes_error(indexes, from + 1)
    }
}

/// What is wrong with the CPU numbers of a controller, if anything.
pub open spec fn hart_indexes_error(indexes: Seq<u32>) -> Option<AiaConfigError> {
    if indexes.len() == 0 || indexes.len() > APLIC_TARGET_HART_MASK + 1 {
        Some(AiaConfigError::InvalidHartIndex)
    } else {
        indexes_error(indexes, 0)
    }
}

/// Whether the CPU numbers of a controller can be used.
pub fn validate_aplic_hart_indexes(indexes: &[u32]) -> (result: Result<(), AiaConfigError>)
    ensures
        match result {
            Ok(()) => hart_indexes_error(indexes@) is None,
            Err(error) => hart_indexes_error(indexes@) == Some(error),
        },
{
    if indexes.len() == 0 || indexes.len() > APLIC_TARGET_HART_MASK as usize + 1 {
        return Err(AiaConfigError::InvalidHartIndex);
    }
    let mut seen: Vec<bool> = Vec::new();
    seen.resize(APLIC_TARGET_HART_MASK as usize + 1, false);
    let mut i: usize = 0;
    while i < indexes.len()
        invariant
            i <= indexes@.len(),
            seen@.len() == APLIC_TARGET_HART_MASK + 1,
            forall|v: u32|
                v <= APLIC_TARGET_HART_MASK ==> #[trigger] seen@[v as int] == indexes@.take(
                    i as int,
                ).contains(v),
            indexes_error(indexes@, 0) == indexes_error(indexes@, i as int),
            0 < indexes@.len() <= APLIC_TARGET_HART_MASK + 1,
        decreases indexes@.len() - i,
    {
        let hart_index: u32 = indexes[i];
        if hart_index > APLIC_TARGET_HART_MASK {
            return Err(AiaConfigError::InvalidHartIndex);
        }
        let ghost before = seen@;
        assert(seen@[hart_index as int] == indexes@.take(i as int).contains(hart_index));
        if seen[hart_index as usize] {
            return Err(AiaConfigError::DuplicateHartIndex);
        }
        seen.set(hart_index as usize, true);
        proof {
            let now = indexes@.take(i + 1);
            let past = indexes@.take(i as int);
            assert(now =~= past.push(hart_index));
            assert forall|v: u32| v <= APLIC_TARGET_HART_MASK implies #[trigger] seen@[v as int]
                == now.contains(v) by {
                if v == hart_index {
                    assert(now[i as int] == v);
                } else {
                    assert(seen@[v as int] == before[v as int]);
                    if past.contains(v) {
                        let k = choose|k: int| 0 <= k < past.len() && past[k] == v;
                        assert(now[k] == v);
                    }
                    if now.contains(v) {
                        let k = choose|k: int| 0 <= k < now.len() && now[k] == v;
                        assert(past[k] == v);
                    }
                }
            }
        }
        i += 1;
    }
    Ok(())
}

/// CPU numbers that were accepted are in range and distinct.
pub proof fn accepted_indexes_are_distinct(indexes: Seq<u32>, i: int, j: int)
    requires
        hart_indexes_error(indexes) is None,
        0 <= i < j < indexes.len(),
    ensures
        indexes[i] != indexes[j],
        indexes[j] <= APLIC_TARGET_HART_MASK,
{
    lemma_indexes_ok(indexes, 0, j);
    assert(indexes.take(j)[i] == indexes[i]);
}

proof fn lemma_indexes_ok(indexes: Seq<u32>, from: int, at: int)
    requires
        indexes_error(indexes, from) is None,
        0 <= from <= at < indexes.len(),
    ensures
        indexes[at] <= APLIC_TARGET_HART_MASK,
        !indexes.take(at).contains(indexes[at]),
    decreases at - from,
{
    if from < at {
        lemma_indexes_ok(indexes, from + 1, at);
    }
}

/// The CPU numbers that a property lists, or the contexts counted up.
pub open spec fn listed_indexes(raw: Option<&[u8]>, context_count: usize) -> Seq<u32> {
    Seq::new(
        context_count as nat,
        |i: int|
            match raw {
                Some(bytes) => bytes::be32_at(bytes@, 4 * i),
                None => i as u32,
            },
    )
}

/// What is wrong with the CPU numbers that firmware lists, if anything.
pub open spec fn listed_error(raw: Option<&[u8]>, context_count: usize) -> Option<AiaConfigError> {
    if context_count == 0 || context_count > APLIC_TARGET_HART_MASK + 1 {
        Some(AiaConfigError::InvalidHartIndex)
    } else if raw is Some && raw->0@.len() != 4 * context_count {
        Some(AiaConfigError::MalformedHartIndexes)
    } else {
        hart_indexes_error(listed_indexes(raw, context_count))
    }
}

/// The CPU numbers by which a controller names its contexts.
pub fn parse_aplic_hart_indexes(raw: Option<&[u8]>, context_count: usize) -> (result: Result<
    Vec<u32>,
    AiaConfigError,
>)
    ensures
        match result {
            Ok(indexes) => listed_error(raw, context_count) is None && indexes@ == listed_indexes(
                raw,
                context_count,
            ),
            Err(error) => listed_error(raw, context_count) == Some(error),
        },
{
    if context_count == 0 || context_count > APLIC_TARGET_HART_MASK as usize + 1 {
        return Err(AiaConfigError::InvalidHartIndex);
    }
    let expected: usize = context_count * 4;
    if let Some(bytes) = raw {
        if bytes.len() != expected {
            return Err(AiaConfigError::MalformedHartIndexes);
        }
    }
    let mut indexes: Vec<u32> = Vec::new();
    let mut i: usize = 0;
    while i < context_count
        invariant
            i <= context_count <= APLIC_TARGET_HART_MASK + 1,
            raw is Some ==> raw->0@.len() == 4 * context_count,
            indexes@ == listed_indexes(raw, context_count).take(i as int),
        decreases context_count - i,
    {
        let index: u32 = match raw {
            Some(bytes) => be32(bytes, 4 * i),
            None => i as u32,
        };
        indexes.push(index);
        i += 1;
        assert(indexes@ =~= listed_indexes(raw, context_count).take(i as int));
    }
    assert(listed_indexes(raw, context_count).take(i as int) =~= listed_indexes(
        raw,
        context_count,
    ));
    match validate_aplic_hart_indexes(indexes.as_slice()) {
        Ok(()) => Ok(indexes),
        Err(error) => Err(error),
    }
}

/// Whether context `at` is the one that serves interrupts: the first of the boot
/// CPU, else the first of all.
pub open spec fn serves(contexts: Seq<ImsicSupervisorContext>, boot_hart_id: u64, at: int) -> bool {
    &&& 0 <= at < contexts.len()
    &&& if exists|i: int| 0 <= i < contexts.len() && (#[trigger] contexts[i]).hart_id == boot_hart_id {
        contexts[at].hart_id == boot_hart_id && forall|i: int|
            0 <= i < at ==> (#[trigger] contexts[i]).hart_id != boot_hart_id
    } else {
        at == 0
    }
}

/// The number of the CPU that serves interrupts.
pub fn aplic_service_hart_index(
    contexts: &[ImsicSupervisorContext],
    hart_indexes: &[u32],
    boot_hart_id: u64,
) -> (result: Result<Option<u32>, AiaConfigError>)
    ensures
        match result {
            Err(error) => if contexts@.len() != hart_indexes@.len() {
                error == AiaConfigError::MalformedHartIndexes
            } else {
                hart_indexes_error(hart_indexes@) == Some(error)
            },
            Ok(index) => {
                &&& contexts@.len() == hart_indexes@.len()
                &&& hart_indexes_error(hart_indexes@) is None
                &&& exists|at: int| #[trigger]
                    serves(contexts@, boot_hart_id, at) && index == (if contexts@[at].file_index
                        < hart_indexes@.len() {
                        Some(hart_indexes@[contexts@[at].file_index as int])
                    } else {
                        None
                    })
            },
        },
{
    if contexts.len() != hart_indexes.len() {
        return Err(AiaConfigError::MalformedHartIndexes);
    }
    match validate_aplic_hart_indexes(hart_indexes) {
        Ok(()) => {},
        Err(error) => {
            return Err(error);
        },
    }
    let mut at: usize = 0;
    while at < contexts.len() && contexts[at].hart_id != boot_hart_id
        invariant
            at <= contexts@.len(),
            forall|i: int| 0 <= i < at ==> (#[trigger] contexts@[i]).hart_id != boot_hart_id,
        decreases contexts@.len() - at,
    {
        at += 1;
    }
    let chosen: usize = if at < contexts.len() {
        at
    } else {
        0
    };
    proof {
        if at < contexts@.len() {
            assert(contexts@[at as int].hart_id == boot_hart_id);
        }
        assert(serves(contexts@, boot_hart_id, chosen as int));
    }
    let file_index: usize = contexts[chosen].file_index;
    if file_index < hart_indexes.len() {
        Ok(Some(hart_indexes[file_index]))
    } else {
        Ok(None)
    }
}

} // verus!
