//! What firmware says of the controller, and where its registers are.

use vstd::prelude::*;
use crate::bytes;
use crate::bytes::be32;
use crate::platform;
use crate::platform::CpuAnswer;

verus! {

pub const PLIC_PRIORITY_BASE: usize = 0x000000;

pub const PLIC_PENDING_BASE: usize = 0x001000;

pub const PLIC_ENABLE_BASE: usize = 0x002000;

pub const PLIC_ENABLE_STRIDE: usize = 0x80;

pub const PLIC_THRESHOLD_BASE: usize = 0x200000;

pub const PLIC_CLAIM_BASE: usize = 0x200004;

pub const PLIC_CONTEXT_STRIDE: usize = 0x1000;

/// The highest source number: one bit less than the enable bits of a context.
pub const MAX_NDEV: u32 = 1023;

pub const RISCV_SUPERVISOR_EXTERNAL_IRQ: u32 = 9;

#[derive(Clone, Copy, Debug, PartialEq, Eq, Structural)]
pub enum PlicConfigError {
    MissingNdev,
    MalformedNdev,
    InvalidNdev,
    MissingInterruptContexts,
    MalformedInterruptContext,
    UnknownSupervisorContextCpu,
    MissingBootSupervisorContext,
    DuplicateSupervisorContext,
    OutOfMemory,
    UnalignedMmio,
    AddressOverflow,
    MmioWindowTooSmall,
}

/// Whether a number of sources is possible.
pub open spec fn ndev_valid(ndev: u32) -> bool {
    1 <= ndev <= MAX_NDEV
}

/// The number of sources, from a property of one big-endian cell.
pub open spec fn ndev_of(raw: Option<&[u8]>) -> Result<u32, PlicConfigError> {
    match raw {
        None => Err(PlicConfigError::MissingNdev),
        Some(bytes) => if bytes@.len() != 4 {
            Err(PlicConfigError::MalformedNdev)
        } else if !ndev_valid(bytes::be32_at(bytes@, 0)) {
            Err(PlicConfigError::InvalidNdev)
        } else {
            Ok(bytes::be32_at(bytes@, 0))
        },
    }
}

/// The number of sources, from a property of one big-endian cell.
pub fn parse_ndev(raw: Option<&[u8]>) -> (result: Result<u32, PlicConfigError>)
    ensures
        result == ndev_of(raw),
{
    match raw {
        None => Err(PlicConfigError::MissingNdev),
        Some(bytes) => {
            if bytes.len() != 4 {
                return Err(PlicConfigError::MalformedNdev);
            }
            let ndev: u32 = be32(bytes, 0);
            if ndev == 0 || ndev > MAX_NDEV {
                return Err(PlicConfigError::InvalidNdev);
            }
            Ok(ndev)
        },
    }
}

/// An interrupt that the controller raises at a CPU.
#[derive(Clone, Copy)]
pub struct PlicInterruptContext<'a> {
    pub controller: Option<u32>,
    pub cells: &'a [u32],
}

/// A context that raises the supervisor interrupt of a CPU.
#[derive(Clone, Copy, Debug, PartialEq, Eq, Structural)]
pub struct PlicSupervisorContext {
    pub logical_cpu: usize,
    pub hart_id: u64,
    pub context: usize,
}

/// Whether a CPU has a context already.
pub open spec fn has_cpu(selected: Seq<PlicSupervisorContext>, logical_cpu: usize) -> bool {
    exists|i: int| 0 <= i < selected.len() && (#[trigger] selected[i]).logical_cpu == logical_cpu
}

/// Whether a context is asked about.
pub open spec fn is_supervisor(context: PlicInterruptContext) -> bool {
    context.controller is Some && context.cells@.len() == 1 && context.cells@[0]
        == RISCV_SUPERVISOR_EXTERNAL_IRQ
}

/// What the context with number `index` adds.
pub open spec fn select_step(
    selected: Seq<PlicSupervisorContext>,
    context: PlicInterruptContext,
    answer: CpuAnswer,
    index: usize,
) -> Result<Seq<PlicSupervisorContext>, PlicConfigError> {
    if context.controller is None || context.cells@.len() != 1 {
        Err(PlicConfigError::MalformedInterruptContext)
    } else if context.cells@[0] != RISCV_SUPERVISOR_EXTERNAL_IRQ {
        Ok(selected)
    } else if answer.hart_id is None || answer.logical_cpu is None {
        Err(PlicConfigError::UnknownSupervisorContextCpu)
    } else if has_cpu(selected, answer.logical_cpu->0) {
        Err(PlicConfigError::DuplicateSupervisorContext)
    } else {
        Ok(
            selected.push(
                PlicSupervisorContext {
                    logical_cpu: answer.logical_cpu->0,
                    hart_id: answer.hart_id->0,
                    context: index,
                },
            ),
        )
    }
}

/// What the first `count` contexts come to: the supervisor contexts in order, or
/// the first thing that is wrong.
pub open spec fn selected(
    contexts: Seq<PlicInterruptContext>,
    answers: Seq<CpuAnswer>,
    count: int,
) -> Result<Seq<PlicSupervisorContext>, PlicConfigError>
    decreases count,
{
    if count <= 0 {
        Ok(Seq::empty())
    } else {
        match selected(contexts, answers, count - 1) {
            Err(error) => Err(error),
            Ok(list) => select_step(
                list,
                contexts[count - 1],
                answers[count - 1],
                (count - 1) as usize,
            ),
        }
    }
}

/// Whether one of the contexts is of the boot CPU.
pub open spec fn has_hart(selected: Seq<PlicSupervisorContext>, hart_id: u64) -> bool {
    exists|i: int| 0 <= i < selected.len() && (#[trigger] selected[i]).hart_id == hart_id
}

/// Whether `sorted` holds exactly the contexts of `list`, by CPU.
pub open spec fn sorted_by_cpu(
    list: Seq<PlicSupervisorContext>,
    sorted: Seq<PlicSupervisorContext>,
) -> bool {
    &&& sorted.len() == list.len()
    &&& forall|i: int, j: int|
        0 <= i < j < sorted.len() ==> (#[trigger] sorted[i]).logical_cpu < (
        #[trigger] sorted[j]).logical_cpu
    &&& forall|i: int| 0 <= i < list.len() ==> sorted.contains(#[trigger] list[i])
    &&& forall|i: int| 0 <= i < sorted.len() ==> list.contains(#[trigger] sorted[i])
}

/// Whether the answers are what the lookups may have given, as far as they were
/// asked: not behind a context that is wrong.
pub open spec fn answered<F: FnMut(u32) -> Option<u64>, G: FnMut(u32) -> Option<usize>>(
    contexts: Seq<PlicInterruptContext>,
    answers: Seq<CpuAnswer>,
    hart_of: F,
    cpu_of: G,
) -> bool {
    &&& answers.len() == contexts.len()
    &&& forall|i: int|
        0 <= i < contexts.len() && is_supervisor(#[trigger] contexts[i]) && selected(
            contexts,
            answers,
            i,
        ) is Ok ==> {
            let controller = contexts[i].controller->0;
            &&& call_ensures(hart_of, (controller,), answers[i].hart_id)
            &&& call_ensures(cpu_of, (controller,), answers[i].logical_cpu)
                || answers[i].hart_id is None
        }
}

/// What selecting the contexts comes to.
pub open spec fn selection(
    contexts: Seq<PlicInterruptContext>,
    answers: Seq<CpuAnswer>,
    boot_hart_id: u64,
    result: Result<Vec<PlicSupervisorContext>, PlicConfigError>,
) -> bool {
    match selected(contexts, answers, contexts.len() as int) {
        Err(error) => result == Err::<Vec<PlicSupervisorContext>, PlicConfigError>(error),
        Ok(list) => if contexts.len() == 0 {
            result == Err::<Vec<PlicSupervisorContext>, PlicConfigError>(
                PlicConfigError::MissingInterruptContexts,
            )
        } else if !has_hart(list, boot_hart_id) {
            result == Err::<Vec<PlicSupervisorContext>, PlicConfigError>(
                PlicConfigError::MissingBootSupervisorContext,
            )
        } else {
            result matches Ok(sorted) && sorted_by_cpu(list, sorted@)
        },
    }
}

/// Puts a context in its place by CPU.
fn insert_context(sorted: &mut Vec<PlicSupervisorContext>, entry: PlicSupervisorContext) -> (fresh:
    bool)
    requires
        forall|i: int, j: int|
            0 <= i < j < old(sorted)@.len() ==> (#[trigger] old(sorted)@[i]).logical_cpu < (
            #[trigger] old(sorted)@[j]).logical_cpu,
    ensures
        fresh == !has_cpu(old(sorted)@, entry.logical_cpu),
        !fresh ==> final(sorted)@ == old(sorted)@,
        fresh ==> exists|at: int|
            0 <= at <= old(sorted)@.len() && final(sorted)@ == #[trigger] old(sorted)@.insert(
                at,
                entry,
            ),
        forall|i: int, j: int|
            0 <= i < j < final(sorted)@.len() ==> (#[trigger] final(sorted)@[i]).logical_cpu < (
            #[trigger] final(sorted)@[j]).logical_cpu,
{
    let ghost before = sorted@;
    let mut at: usize = 0;
    while at < sorted.len() && sorted[at].logical_cpu < entry.logical_cpu
        invariant
            at <= sorted@.len(),
            sorted@ == before,
            forall|i: int|
                0 <= i < at ==> (#[trigger] sorted@[i]).logical_cpu < entry.logical_cpu,
        decreases sorted@.len() - at,
    {
        at += 1;
    }
    if at < sorted.len() && sorted[at].logical_cpu == entry.logical_cpu {
        assert(sorted@[at as int].logical_cpu == entry.logical_cpu);
        return false;
    }
    proof {
        assert forall|i: int| 0 <= i < before.len() implies (#[trigger] before[i]).logical_cpu
            != entry.logical_cpu by {
            if i > at {
                assert(before[at as int].logical_cpu < before[i].logical_cpu);
            }
        }
    }
    sorted.insert(at, entry);
    proof {
        let after = sorted@;
        assert(after == before.insert(at as int, entry));
        assert forall|i: int, j: int| 0 <= i < j < after.len() implies (
        #[trigger] after[i]).logical_cpu < (#[trigger] after[j]).logical_cpu by {
            let x = if i < at {
                i
            } else {
                i - 1
            };
            let y = if j < at {
                j
            } else {
                j - 1
            };
            if i != at && j != at {
                assert(after[i] == before[x] && after[j] == before[y]);
            } else if i == at {
                assert(after[j] == before[y]);
                if y > at {
                    assert(before[at as int].logical_cpu < before[y].logical_cpu);
                }
            } else {
                assert(after[i] == before[x]);
            }
        }
    }
    true
}

proof fn lemma_inserted(
    list: Seq<PlicSupervisorContext>,
    sorted: Seq<PlicSupervisorContext>,
    entry: PlicSupervisorContext,
    at: int,
)
    requires
        sorted_by_cpu(list, sorted),
        0 <= at <= sorted.len(),
        ({
            let after = sorted.insert(at, entry);
            forall|i: int, j: int|
                0 <= i < j < after.len() ==> (#[trigger] after[i]).logical_cpu < (
                #[trigger] after[j]).logical_cpu
        }),
    ensures
        sorted_by_cpu(list.push(entry), sorted.insert(at, entry)),
{
    let all = list.push(entry);
    let after = sorted.insert(at, entry);
    assert(after[at] == entry);
    assert forall|i: int| 0 <= i < all.len() implies after.contains(#[trigger] all[i]) by {
        if i < list.len() {
            assert(sorted.contains(list[i]));
            let k = choose|k: int| 0 <= k < sorted.len() && sorted[k] == list[i];
            let moved = if k < at {
                k
            } else {
                k + 1
            };
            assert(after[moved] == list[i]);
        }
    }
    assert forall|i: int| 0 <= i < after.len() implies all.contains(#[trigger] after[i]) by {
        if i == at {
            assert(all[list.len() as int] == entry);
        } else {
            let k = if i < at {
                i
            } else {
                i - 1
            };
            assert(after[i] == sorted[k]);
            assert(list.contains(sorted[k]));
            let l = choose|l: int| 0 <= l < list.len() && list[l] == sorted[k];
            assert(all[l] == after[i]);
        }
    }
}

proof fn lemma_same_cpus(list: Seq<PlicSupervisorContext>, sorted: Seq<PlicSupervisorContext>)
    requires
        sorted_by_cpu(list, sorted),
    ensures
        forall|cpu: usize| #[trigger] has_cpu(list, cpu) == has_cpu(sorted, cpu),
        forall|hart: u64| #[trigger] has_hart(list, hart) == has_hart(sorted, hart),
{
    assert forall|cpu: usize| #[trigger] has_cpu(list, cpu) == has_cpu(sorted, cpu) by {
        if has_cpu(list, cpu) {
            let i = choose|i: int| 0 <= i < list.len() && (#[trigger] list[i]).logical_cpu == cpu;
            assert(sorted.contains(list[i]));
            let k = choose|k: int| 0 <= k < sorted.len() && sorted[k] == list[i];
            assert(sorted[k].logical_cpu == cpu);
        }
        if has_cpu(sorted, cpu) {
            let i = choose|i: int|
                0 <= i < sorted.len() && (#[trigger] sorted[i]).logical_cpu == cpu;
            assert(list.contains(sorted[i]));
            let k = choose|k: int| 0 <= k < list.len() && list[k] == sorted[i];
            assert(list[k].logical_cpu == cpu);
        }
    }
    assert forall|hart: u64| #[trigger] has_hart(list, hart) == has_hart(sorted, hart) by {
        if has_hart(list, hart) {
            let i = choose|i: int| 0 <= i < list.len() && (#[trigger] list[i]).hart_id == hart;
            assert(sorted.contains(list[i]));
            let k = choose|k: int| 0 <= k < sorted.len() && sorted[k] == list[i];
            assert(sorted[k].hart_id == hart);
        }
        if has_hart(sorted, hart) {
            let i = choose|i: int| 0 <= i < sorted.len() && (#[trigger] sorted[i]).hart_id == hart;
            assert(list.contains(sorted[i]));
            let k = choose|k: int| 0 <= k < list.len() && list[k] == sorted[i];
            assert(list[k].hart_id == hart);
        }
    }
}

proof fn lemma_selected_error(
    contexts: Seq<PlicInterruptContext>,
    answers: Seq<CpuAnswer>,
    count: int,
    total: int,
)
    requires
        0 <= count <= total,
        selected(contexts, answers, count) is Err,
    ensures
        selected(contexts, answers, total) == selected(contexts, answers, count),
    decreases total - count,
{
    if count < total {
        lemma_selected_error(contexts, answers, count, total - 1);
    }
}

proof fn lemma_selected_local(
    contexts: Seq<PlicInterruptContext>,
    first: Seq<CpuAnswer>,
    second: Seq<CpuAnswer>,
    count: int,
)
    requires
        forall|i: int| 0 <= i < count ==> #[trigger] first[i] == second[i],
    ensures
        selected(contexts, first, count) == selected(contexts, second, count),
    decreases count,
{
    if count > 0 {
        lemma_selected_local(contexts, first, second, count - 1);
        assert(first[count - 1] == second[count - 1]);
    }
}

/// The answers so far, and nothing known of the rest.
spec fn padded(answers: Seq<CpuAnswer>, len: int) -> Seq<CpuAnswer> {
    Seq::new(
        len as nat,
        |i: int|
            if i < answers.len() {
                answers[i]
            } else {
                platform::unasked()
            },
    )
}

/// Collects the supervisor contexts of all CPUs, by the interrupt controller of
/// the CPU that each one names. The lookups give the hardware and the logical
/// number of that CPU. The boot CPU must have a context, and no CPU two.
pub fn select_supervisor_contexts<F: FnMut(u32) -> Option<u64>, G: FnMut(u32) -> Option<usize>>(
    contexts: &[PlicInterruptContext],
    boot_hart_id: u64,
    cpu_reg_for_controller: F,
    cpu_logical_id_for_controller: G,
) -> (result: Result<Vec<PlicSupervisorContext>, PlicConfigError>)
    requires
        forall|controller: u32| #[trigger] call_requires(cpu_reg_for_controller, (controller,)),
        forall|controller: u32| #[trigger]
            call_requires(cpu_logical_id_for_controller, (controller,)),
    ensures
        exists|answers: Seq<CpuAnswer>| #[trigger]
            answered(
                contexts@,
                answers,
                cpu_reg_for_controller,
                cpu_logical_id_for_controller,
            ) && selection(
                contexts@,
                answers,
                boot_hart_id,
                result,
            ),
{
    let ghost hart_of = cpu_reg_for_controller;
    let ghost cpu_of = cpu_logical_id_for_controller;
    let mut find_hart = cpu_reg_for_controller;
    let mut find_cpu = cpu_logical_id_for_controller;
    let ghost n = contexts@.len() as int;
    let ghost mut answers: Seq<CpuAnswer> = Seq::empty();
    let ghost mut list: Seq<PlicSupervisorContext> = Seq::empty();
    let mut found_boot = false;
    let mut sorted: Vec<PlicSupervisorContext> = Vec::new();
    let mut index: usize = 0;
    while index < contexts.len()
        invariant
            index <= n,
            n == contexts@.len(),
            answers.len() == index,
            hart_of == cpu_reg_for_controller,
            cpu_of == cpu_logical_id_for_controller,
            find_hart == hart_of,
            find_cpu == cpu_of,
            answered_so_far(contexts@, answers, hart_of, cpu_of),
            selected(contexts@, answers, index as int) == Ok::<
                Seq<PlicSupervisorContext>,
                PlicConfigError,
            >(list),
            sorted_by_cpu(list, sorted@),
            found_boot == has_hart(list, boot_hart_id),
            forall|controller: u32| #[trigger] call_requires(hart_of, (controller,)),
            forall|controller: u32| #[trigger]
            call_requires(cpu_of, (controller,)),
        decreases n - index,
    {
        let context = contexts[index];
        let ghost before = answers;
        let ghost list_before = list;
        let ghost mut answer = platform::unasked();
        let controller: u32 = match context.controller {
            Some(controller) => controller,
            None => {
                proof {
                    lemma_stop(
                        contexts@,
                        before,
                        answer,
                        list,
                        PlicConfigError::MalformedInterruptContext,
                        hart_of,
                        cpu_of,
                    );
                }
                return Err(PlicConfigError::MalformedInterruptContext);
            },
        };
        if context.cells.len() != 1 {
            proof {
                lemma_stop(
                    contexts@,
                    before,
                    answer,
                    list,
                    PlicConfigError::MalformedInterruptContext,
                    hart_of,
                    cpu_of,
                );
            }
            return Err(PlicConfigError::MalformedInterruptContext);
        }
        if context.cells[0] == RISCV_SUPERVISOR_EXTERNAL_IRQ {
            let hart = find_hart(controller);
            assert(call_ensures(hart_of, (controller,), hart));
            proof {
                answer = CpuAnswer { hart_id: hart, logical_cpu: None };
            }
            let hart_id: u64 = match hart {
                Some(hart_id) => hart_id,
                None => {
                    proof {
                        lemma_stop(
                            contexts@,
                            before,
                            answer,
                            list,
                            PlicConfigError::UnknownSupervisorContextCpu,
                            hart_of,
                            cpu_of,
                        );
                    }
                    return Err(PlicConfigError::UnknownSupervisorContextCpu);
                },
            };
            let cpu = find_cpu(controller);
            assert(call_ensures(cpu_of, (controller,), cpu));
            proof {
                answer = CpuAnswer { hart_id: hart, logical_cpu: cpu };
            }
            let logical_cpu: usize = match cpu {
                Some(logical_cpu) => logical_cpu,
                None => {
                    proof {
                        lemma_stop(
                            contexts@,
                            before,
                            answer,
                            list,
                            PlicConfigError::UnknownSupervisorContextCpu,
                            hart_of,
                            cpu_of,
                        );
                    }
                    return Err(PlicConfigError::UnknownSupervisorContextCpu);
                },
            };
            let entry = PlicSupervisorContext { logical_cpu, hart_id, context: index };
            let ghost sorted_before = sorted@;
            proof {
                lemma_same_cpus(list, sorted@);
            }
            if !insert_context(&mut sorted, entry) {
                proof {
                    assert(has_cpu(list, logical_cpu));
                    lemma_stop(
                        contexts@,
                        before,
                        answer,
                        list,
                        PlicConfigError::DuplicateSupervisorContext,
                        hart_of,
                        cpu_of,
                    );
                }
                return Err(PlicConfigError::DuplicateSupervisorContext);
            }
            proof {
                let at = choose|at: int|
                    0 <= at <= sorted_before.len() && sorted@ == #[trigger] sorted_before.insert(
                        at,
                        entry,
                    );
                lemma_inserted(list, sorted_before, entry, at);
                assert(!has_cpu(list, logical_cpu));
                list = list.push(entry);
                assert(list[list.len() - 1] == entry);
                if has_hart(list_before, boot_hart_id) {
                    let i = choose|i: int|
                        0 <= i < list_before.len() && (#[trigger] list_before[i]).hart_id
                            == boot_hart_id;
                    assert(list[i].hart_id == boot_hart_id);
                }
                if has_hart(list, boot_hart_id) && hart_id != boot_hart_id {
                    let i = choose|i: int|
                        0 <= i < list.len() && (#[trigger] list[i]).hart_id == boot_hart_id;
                    assert(list_before[i].hart_id == boot_hart_id);
                }
            }
            if hart_id == boot_hart_id {
                found_boot = true;
            }
        }
        proof {
            answers = answers.push(answer);
            lemma_selected_local(contexts@, before, answers, index as int);
            lemma_answered_push(contexts@, before, answer, hart_of, cpu_of);
        }
        index += 1;
    }
    proof {
        lemma_answered_all(contexts@, answers, hart_of, cpu_of);
        lemma_same_cpus(list, sorted@);
    }
    if contexts.len() == 0 {
        return Err(PlicConfigError::MissingInterruptContexts);
    }
    if !found_boot {
        return Err(PlicConfigError::MissingBootSupervisorContext);
    }
    Ok(sorted)
}

spec fn answered_so_far<F: FnMut(u32) -> Option<u64>, G: FnMut(u32) -> Option<usize>>(
    contexts: Seq<PlicInterruptContext>,
    answers: Seq<CpuAnswer>,
    hart_of: F,
    cpu_of: G,
) -> bool {
    &&& answers.len() <= contexts.len()
    &&& forall|i: int|
        0 <= i < answers.len() && is_supervisor(#[trigger] contexts[i]) ==> {
            let controller = contexts[i].controller->0;
            &&& call_ensures(hart_of, (controller,), answers[i].hart_id)
            &&& call_ensures(cpu_of, (controller,), answers[i].logical_cpu)
                || answers[i].hart_id is None
        }
}

proof fn lemma_answered_push<F: FnMut(u32) -> Option<u64>, G: FnMut(u32) -> Option<usize>>(
    contexts: Seq<PlicInterruptContext>,
    answers: Seq<CpuAnswer>,
    answer: CpuAnswer,
    hart_of: F,
    cpu_of: G,
)
    requires
        answered_so_far(contexts, answers, hart_of, cpu_of),
        answers.len() < contexts.len(),
        is_supervisor(contexts[answers.len() as int]) ==> {
            let controller = contexts[answers.len() as int].controller->0;
            &&& call_ensures(hart_of, (controller,), answer.hart_id)
            &&& call_ensures(cpu_of, (controller,), answer.logical_cpu)
                || answer.hart_id is None
        },
    ensures
        answered_so_far(contexts, answers.push(answer), hart_of, cpu_of),
{
    let all = answers.push(answer);
    assert forall|i: int| 0 <= i < all.len() && is_supervisor(#[trigger] contexts[i]) implies {
        let controller = contexts[i].controller->0;
        &&& call_ensures(hart_of, (controller,), all[i].hart_id)
        &&& call_ensures(cpu_of, (controller,), all[i].logical_cpu)
            || all[i].hart_id is None
    } by {
        if i < answers.len() {
            assert(all[i] == answers[i]);
        }
    }
}

proof fn lemma_answered_all<F: FnMut(u32) -> Option<u64>, G: FnMut(u32) -> Option<usize>>(
    contexts: Seq<PlicInterruptContext>,
    answers: Seq<CpuAnswer>,
    hart_of: F,
    cpu_of: G,
)
    requires
        answered_so_far(contexts, answers, hart_of, cpu_of),
        answers.len() == contexts.len(),
    ensures
        answered(contexts, answers, hart_of, cpu_of),
{
}

/// Stopping at a context with an error answers for all contexts behind it.
proof fn lemma_stop<F: FnMut(u32) -> Option<u64>, G: FnMut(u32) -> Option<usize>>(
    contexts: Seq<PlicInterruptContext>,
    answers: Seq<CpuAnswer>,
    answer: CpuAnswer,
    list: Seq<PlicSupervisorContext>,
    error: PlicConfigError,
    hart_of: F,
    cpu_of: G,
)
    requires
        answered_so_far(contexts, answers, hart_of, cpu_of),
        answers.len() < contexts.len(),
        is_supervisor(contexts[answers.len() as int]) ==> {
            let controller = contexts[answers.len() as int].controller->0;
            &&& call_ensures(hart_of, (controller,), answer.hart_id)
            &&& call_ensures(cpu_of, (controller,), answer.logical_cpu)
                || answer.hart_id is None
        },
        selected(contexts, answers, answers.len() as int) == Ok::<
            Seq<PlicSupervisorContext>,
            PlicConfigError,
        >(list),
        select_step(list, contexts[answers.len() as int], answer, answers.len() as usize) == Err::<
            Seq<PlicSupervisorContext>,
            PlicConfigError,
        >(error),
        contexts.len() <= usize::MAX,
    ensures
        exists|all: Seq<CpuAnswer>| #[trigger]
            answered(contexts, all, hart_of, cpu_of) && selected(contexts, all, contexts.len() as int)
                == Err::<Seq<PlicSupervisorContext>, PlicConfigError>(error),
{
    let n = answers.len() as int;
    let all = padded(answers.push(answer), contexts.len() as int);
    lemma_answered_push(contexts, answers, answer, hart_of, cpu_of);
    assert forall|i: int| 0 <= i < n implies #[trigger] all[i] == answers[i] by {}
    lemma_selected_local(contexts, answers, all, n);
    assert(all[n] == answer);
    assert(selected(contexts, all, n + 1) == Err::<Seq<PlicSupervisorContext>, PlicConfigError>(
        error,
    ));
    lemma_selected_error(contexts, all, n + 1, contexts.len() as int);
    assert forall|i: int|
        0 <= i < contexts.len() && is_supervisor(#[trigger] contexts[i]) && selected(
            contexts,
            all,
            i,
        ) is Ok implies {
        let controller = contexts[i].controller->0;
        &&& call_ensures(hart_of, (controller,), all[i].hart_id)
        &&& call_ensures(cpu_of, (controller,), all[i].logical_cpu)
            || all[i].hart_id is None
    } by {
        if i <= n {
            assert(all[i] == answers.push(answer)[i]);
        } else {
            lemma_selected_error(contexts, all, n + 1, i);
        }
    }
    assert(answered(contexts, all, hart_of, cpu_of));
}

/// Where the registers of a context are.
#[derive(Clone, Copy, Debug, PartialEq, Eq, Structural)]
pub struct PlicLayout {
    ndev: u32,
    context: usize,
    source_words: usize,
    required_window_size: usize,
}

/// Number of words that a bit for each source and for source zero takes.
pub open spec fn words_of(ndev: u32) -> int {
    ndev / 32 + 1
}

/// The end of the last register: the claim register of the context.
pub open spec fn window_end(context: usize) -> int {
    PLIC_CLAIM_BASE + context * PLIC_CONTEXT_STRIDE + 4
}

impl PlicLayout {
    pub closed spec fn sources(&self) -> u32 {
        self.ndev
    }

    pub closed spec fn number(&self) -> usize {
        self.context
    }

    pub closed spec fn fits(&self) -> bool {
        &&& ndev_valid(self.ndev)
        &&& self.source_words == words_of(self.ndev)
        &&& self.required_window_size == window_end(self.context)
    }

    /// The layout is of a possible number of sources, and all its registers have
    /// an offset.
    pub open spec fn wf(&self) -> bool {
        &&& self.fits()
        &&& ndev_valid(self.sources())
        &&& window_end(self.number()) <= usize::MAX
    }

    pub fn new(ndev: u32, context: usize) -> (result: Result<Self, PlicConfigError>)
        ensures
            match result {
                Ok(layout) => layout.wf() && layout.sources() == ndev && layout.number()
                    == context,
                Err(error) => error == (if !ndev_valid(ndev) {
                    PlicConfigError::InvalidNdev
                } else {
                    PlicConfigError::AddressOverflow
                }) && (ndev_valid(ndev) ==> window_end(context) > usize::MAX),
            },
    {
        if ndev == 0 || ndev > MAX_NDEV {
            return Err(PlicConfigError::InvalidNdev);
        }
        let source_words: usize = ndev as usize / 32 + 1;
        let registers: usize = match context.checked_mul(PLIC_CONTEXT_STRIDE) {
            Some(registers) => registers,
            None => {
                return Err(PlicConfigError::AddressOverflow);
            },
        };
        let required_window_size: usize = match registers.checked_add(PLIC_CLAIM_BASE + 4) {
            Some(end) => end,
            None => {
                return Err(PlicConfigError::AddressOverflow);
            },
        };
        Ok(PlicLayout { ndev, context, source_words, required_window_size })
    }

    /// Whether a window of registers can be used.
    pub fn validate_window(self, phys: usize, size: usize, virt: usize) -> (result: Result<
        (),
        PlicConfigError,
    >)
        requires
            self.wf(),
        ensures
            result == (if phys % 4 != 0 || virt % 4 != 0 {
                Err::<(), PlicConfigError>(PlicConfigError::UnalignedMmio)
            } else if phys + size > usize::MAX {
                Err(PlicConfigError::AddressOverflow)
            } else if size < window_end(self.number()) {
                Err(PlicConfigError::MmioWindowTooSmall)
            } else if virt + window_end(self.number()) > usize::MAX {
                Err(PlicConfigError::AddressOverflow)
            } else {
                Ok(())
            }),
    {
        if phys % 4 != 0 || virt % 4 != 0 {
            return Err(PlicConfigError::UnalignedMmio);
        }
        if phys.checked_add(size).is_none() {
            return Err(PlicConfigError::AddressOverflow);
        }
        if size < self.required_window_size {
            return Err(PlicConfigError::MmioWindowTooSmall);
        }
        if virt.checked_add(self.required_window_size).is_none() {
            return Err(PlicConfigError::AddressOverflow);
        }
        Ok(())
    }

    pub fn source_words(self) -> (words: usize)
        requires
            self.wf(),
        ensures
            words == words_of(self.sources()),
    {
        self.source_words
    }

    /// Where the priority of a source is.
    pub open spec fn priority_at(self, hwirq: int) -> int {
        PLIC_PRIORITY_BASE + hwirq * 4
    }

    /// Where a word of enable bits is.
    pub open spec fn enable_at(self, word: int) -> int {
        PLIC_ENABLE_BASE + self.number() * PLIC_ENABLE_STRIDE + word * 4
    }

    pub open spec fn threshold_at(self) -> int {
        PLIC_THRESHOLD_BASE + self.number() * PLIC_CONTEXT_STRIDE
    }

    pub open spec fn claim_at(self) -> int {
        PLIC_CLAIM_BASE + self.number() * PLIC_CONTEXT_STRIDE
    }

    pub fn priority_offset(self, hwirq: u32) -> (result: Option<usize>)
        requires
            self.wf(),
        ensures
            result == (if hwirq <= self.sources() {
                Some(self.priority_at(hwirq as int) as usize)
            } else {
                None
            }),
    {
        if hwirq <= self.ndev {
            Some(PLIC_PRIORITY_BASE + hwirq as usize * 4)
        } else {
            None
        }
    }

    pub fn enable_word_offset(self, word: usize) -> (result: Option<usize>)
        requires
            self.wf(),
        ensures
            result == (if word < words_of(self.sources()) {
                Some(self.enable_at(word as int) as usize)
            } else {
                None
            }),
    {
        if word < self.source_words {
            Some(PLIC_ENABLE_BASE + self.context * PLIC_ENABLE_STRIDE + word * 4)
        } else {
            None
        }
    }

    /// The word and the bit that enable a source.
    pub fn enable_offset(self, hwirq: u32) -> (result: Option<(usize, u32)>)
        requires
            self.wf(),
        ensures
            result == (if 1 <= hwirq <= self.sources() {
                Some((self.enable_at(hwirq as int / 32) as usize, hwirq % 32))
            } else {
                None
            }),
    {
        if hwirq == 0 || hwirq > self.ndev {
            return None;
        }
        let word: usize = hwirq as usize / 32;
        match self.enable_word_offset(word) {
            Some(offset) => Some((offset, hwirq % 32)),
            None => None,
        }
    }

    pub fn threshold_offset(self) -> (offset: usize)
        requires
            self.wf(),
        ensures
            offset == self.threshold_at(),
    {
        PLIC_THRESHOLD_BASE + self.context * PLIC_CONTEXT_STRIDE
    }

    pub fn claim_offset(self) -> (offset: usize)
        requires
            self.wf(),
        ensures
            offset == self.claim_at(),
    {
        PLIC_CLAIM_BASE + self.context * PLIC_CONTEXT_STRIDE
    }
}

/// Every register of a layout lies in a window that was accepted for it.
pub proof fn registers_lie_in_window(layout: PlicLayout, hwirq: int, word: int)
    requires
        layout.wf(),
        0 <= hwirq <= layout.sources(),
        0 <= word < words_of(layout.sources()),
    ensures
        0 <= layout.priority_at(hwirq) && layout.priority_at(hwirq) + 4 <= window_end(
            layout.number(),
        ),
        0 <= layout.enable_at(word) && layout.enable_at(word) + 4 <= window_end(layout.number()),
        0 <= layout.threshold_at() && layout.threshold_at() + 4 <= window_end(layout.number()),
        0 <= layout.claim_at() && layout.claim_at() + 4 <= window_end(layout.number()),
{
}

/// Registers of different kinds, sources or contexts have different offsets, as
/// long as the enable bits of a context stay below the context registers.
pub proof fn registers_are_distinct(
    left: PlicLayout,
    right: PlicLayout,
    hwirq: int,
    word: int,
    other_word: int,
)
    requires
        left.wf(),
        right.wf(),
        left.number() < 0x3fc0,
        right.number() < 0x3fc0,
        0 <= hwirq <= left.sources(),
        0 <= word < words_of(left.sources()),
        0 <= other_word < words_of(right.sources()),
    ensures
        left.priority_at(hwirq) < left.enable_at(word) < left.threshold_at() < left.claim_at(),
        left.enable_at(word) == right.enable_at(other_word) ==> left.number() == right.number()
            && word == other_word,
        left.enable_at(word) < right.threshold_at(),
        left.threshold_at() != right.claim_at(),
        left.claim_at() == right.claim_at() ==> left.number() == right.number(),
{
}

/// Each source of a layout has an enable bit of its own.
pub proof fn sources_have_own_bits(layout: PlicLayout, hwirq: u32, other: u32)
    requires
        layout.wf(),
        1 <= hwirq <= layout.sources(),
        1 <= other <= layout.sources(),
        layout.enable_at(hwirq as int / 32) == layout.enable_at(other as int / 32),
        hwirq % 32 == other % 32,
    ensures
        hwirq == other,
{
}

} // verus!
