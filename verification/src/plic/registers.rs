//! What the registers of the controller make of what is written to them.

use vstd::prelude::*;
use crate::platform::CpuAnswer;
use crate::plic::config;
use crate::plic::config::{PlicInterruptContext, PlicLayout, PlicSupervisorContext};
use crate::plic::controller;
use crate::plic::controller::PlicCpuLayout;
use crate::port::Access;

verus! {

/// Whether a bit of a word is set.
pub open spec fn bit_of(word: u32, bit: u32) -> bool {
    (word >> bit) & 1 == 1
}

/// Each source has a word for its priority, and each context 128 bytes of enable bits and a
/// page with its threshold and, behind it, its claims.
pub proof fn registers_are_at_their_places(layout: PlicLayout, hwirq: int, word: int)
    requires
        layout.wf(),
    ensures
        layout.priority_at(hwirq) == 4 * hwirq,
        layout.enable_at(word) == 0x2000 + 0x80 * layout.number() + 4 * word,
        layout.threshold_at() == 0x20_0000 + 0x1000 * layout.number(),
        layout.claim_at() == 0x20_0004 + 0x1000 * layout.number(),
{
}

proof fn lemma_with_bit(word: u32, bit: u32, other: u32)
    by (bit_vector)
    requires
        bit < 32,
        other < 32,
    ensures
        ((word | (1u32 << bit)) >> other) & 1 == (if other == bit {
            1
        } else {
            (word >> other) & 1
        }),
        ((word & !(1u32 << bit)) >> other) & 1 == (if other == bit {
            0
        } else {
            (word >> other) & 1
        }),
{
}

/// A source is switched in every context: the word of its bit is read and written with
/// that bit on or off, and every other bit of it as it was.
pub proof fn source_is_switched_everywhere(
    contexts: Seq<PlicCpuLayout>,
    words: Seq<u32>,
    hwirq: u32,
    on: bool,
    count: int,
    i: int,
    other: u32,
)
    requires
        0 <= i < count <= contexts.len(),
        count <= words.len(),
        hwirq < 1024,
        other < 32,
        contexts[i].layout.wf(),
    ensures
        ({
            let trace = controller::bits_changed(contexts, words, hwirq, on, count);
            let at = 0x2000 + 0x80 * contexts[i].layout.number() + 4 * (hwirq as int / 32);
            &&& trace.len() == 2 * count
            &&& trace[2 * i].access == Access::Read32(at as usize)
            &&& trace[2 * i + 1].access matches Access::Write32(written, value) && {
                &&& written == at
                &&& bit_of(value, other) == (if other == hwirq % 32 {
                    on
                } else {
                    bit_of(trace[2 * i].reply as u32, other)
                })
            }
        }),
    decreases count,
{
    lemma_bits_len(contexts, words, hwirq, on, count - 1);
    lemma_with_bit(words[i], hwirq % 32, other);
    if i < count - 1 {
        source_is_switched_everywhere(contexts, words, hwirq, on, count - 1, i, other);
        let front = controller::bits_changed(contexts, words, hwirq, on, count - 1);
        let trace = controller::bits_changed(contexts, words, hwirq, on, count);
        assert(trace[2 * i] == front[2 * i]);
        assert(trace[2 * i + 1] == front[2 * i + 1]);
    }
}

proof fn lemma_bits_len(
    contexts: Seq<PlicCpuLayout>,
    words: Seq<u32>,
    hwirq: u32,
    on: bool,
    count: int,
)
    requires
        0 <= count,
    ensures
        controller::bits_changed(contexts, words, hwirq, on, count).len() == 2 * count,
    decreases count,
{
    if count > 0 {
        lemma_bits_len(contexts, words, hwirq, on, count - 1);
    }
}

/// Clearing reaches the priority of every source and, of a context, the word of every
/// source; it writes nothing but zeros.
pub proof fn clearing_reaches_every_source(layout: PlicLayout, hwirq: u32)
    requires
        layout.wf(),
        1 <= hwirq <= layout.sources(),
    ensures
        ({
            let priorities = controller::priorities_cleared(layout.sources());
            let enables = controller::enables_cleared(layout);
            let word = hwirq as int / 32;
            &&& hwirq - 1 < priorities.len()
            &&& priorities[hwirq - 1].access == Access::Write32((4 * hwirq) as usize, 0)
            &&& word < enables.len()
            &&& enables[word].access == Access::Write32(
                (0x2000 + 0x80 * layout.number() + 4 * word) as usize,
                0,
            )
            &&& forall|k: int|
                0 <= k < enables.len() ==> ((#[trigger] enables[k]).access matches Access::Write32(
                    _,
                    value,
                ) && value == 0)
        }),
{
}

/// A context is opened with nothing enabled and a threshold that lets everything pass, and
/// shut with one that lets nothing pass.
pub proof fn thresholds_open_and_shut(contexts: Seq<PlicCpuLayout>, count: int)
    requires
        0 < count <= contexts.len(),
        contexts[count - 1].layout.wf(),
    ensures
        ({
            let layout = contexts[count - 1].layout;
            let at = (0x20_0000 + 0x1000 * layout.number()) as usize;
            let words = controller::enables_cleared(layout).len() as int;
            let opened = controller::contexts_opened(contexts, count);
            let shut = controller::contexts_shut(contexts, count);
            &&& opened.last().access == Access::Write32(at, 0)
            &&& words + 1 <= shut.len()
            &&& shut[shut.len() - words - 1].access == Access::Write32(at, 0xffff_ffff)
        }),
{
    let layout = contexts[count - 1].layout;
    let words = controller::enables_cleared(layout);
    let shut = controller::contexts_shut(contexts, count);
    let front = controller::contexts_shut(contexts, count - 1);
    assert(shut[shut.len() - words.len() - 1] == shut[front.len() as int]);
}

/// A claim that names a source is handed on and then completed, under the same number; one
/// that names none is only completed.
pub proof fn claimed_source_is_completed(claim: usize, hwirq: u32, ndev: u32)
    ensures
        ({
            let trace = controller::claim_round(claim, hwirq, ndev);
            let n = trace.len() as int;
            &&& trace[0].access == Access::Read32(claim)
            &&& trace[0].reply == hwirq
            &&& trace[n - 2].access == Access::Write32(claim, hwirq)
            &&& trace[n - 1].access is Barrier
            &&& hwirq <= ndev ==> n == 6 && trace[2].access == Access::Notify(hwirq as u64)
            &&& hwirq > ndev ==> forall|k: int|
                0 <= k < n ==> !((#[trigger] trace[k]).access is Notify)
        }),
{
}

/// A context is taken if it raises the external interrupt of a supervisor, under the
/// number of its place in the list, for the CPU that was found for it.
pub proof fn supervisor_contexts_keep_their_numbers(
    list: Seq<PlicSupervisorContext>,
    context: PlicInterruptContext,
    answer: CpuAnswer,
    index: usize,
)
    requires
        config::select_step(list, context, answer, index) is Ok,
    ensures
        context.cells@.len() == 1,
        ({
            let after = config::select_step(list, context, answer, index)->Ok_0;
            &&& context.cells@[0] != 9 ==> after == list
            &&& context.cells@[0] == 9 ==> {
                &&& after.len() == list.len() + 1
                &&& after.drop_last() == list
                &&& after.last().context == index
                &&& answer.logical_cpu == Some(after.last().logical_cpu)
                &&& answer.hart_id == Some(after.last().hart_id)
            }
        }),
{
    let after = config::select_step(list, context, answer, index)->Ok_0;
    if context.cells@[0] == 9 {
        assert(after.drop_last() =~= list);
    }
}

} // verus!
