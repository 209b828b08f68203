//! Driving the controller.

use vstd::prelude::*;
use crate::platform;
use crate::platform::{CpuAnswer, PnpError, PnpResourceKind, has_id};
use crate::plic::config;
use crate::plic::config::{
    PlicConfigError, PlicInterruptContext, PlicLayout, PlicSupervisorContext, parse_ndev,
    select_supervisor_contexts,
};
use crate::port;
use crate::port::{Access, Exchange, Port};

verus! {

pub const COMPAT_SIFIVE_PLIC: &'static str = "sifive,plic-1.0.0";

pub const COMPAT_RISCV_PLIC0: &'static str = "riscv,plic0";

pub const PLIC_DEFAULT_PRIORITY: u32 = 1;

pub const PLIC_MAX_CLAIMS_PER_ENTRY: u32 = 64;

/// The registers of the context of a CPU.
#[derive(Clone, Copy, PartialEq, Eq, Structural, Debug)]
pub struct PlicCpuLayout {
    pub logical_cpu: usize,
    pub layout: PlicLayout,
}

/// Whether an interrupt was for the controller.
#[derive(Clone, Copy, PartialEq, Eq, Structural, Debug)]
pub enum IrqStatus {
    Handled,
    Unhandled,
}

/// The controller. Offsets are from the start of its registers.
pub struct Plic {
    pub ndev: u32,
    pub contexts: Vec<PlicCpuLayout>,
    pub quiesced: bool,
}

/// The writes that clear the priorities of all sources.
pub open spec fn priorities_cleared(ndev: u32) -> Seq<Exchange> {
    Seq::new(ndev as nat, |i: int| port::w32((config::PLIC_PRIORITY_BASE + (i + 1) * 4) as usize, 0))
}

/// The writes that clear the enable bits of a context.
pub open spec fn enables_cleared(layout: PlicLayout) -> Seq<Exchange> {
    Seq::new(
        config::words_of(layout.sources()) as nat,
        |i: int| port::w32(layout.enable_at(i) as usize, 0),
    )
}

/// The writes that open the first `count` contexts with nothing enabled.
pub open spec fn contexts_opened(contexts: Seq<PlicCpuLayout>, count: int) -> Seq<Exchange>
    decreases count,
{
    if count <= 0 {
        Seq::empty()
    } else {
        let layout = contexts[count - 1].layout;
        contexts_opened(contexts, count - 1) + enables_cleared(layout) + seq![
            port::w32(layout.threshold_at() as usize, 0),
        ]
    }
}

/// The writes that shut the first `count` contexts.
pub open spec fn contexts_shut(contexts: Seq<PlicCpuLayout>, count: int) -> Seq<Exchange>
    decreases count,
{
    if count <= 0 {
        Seq::empty()
    } else {
        let layout = contexts[count - 1].layout;
        contexts_shut(contexts, count - 1) + seq![
            port::w32(layout.threshold_at() as usize, u32::MAX),
        ] + enables_cleared(layout)
    }
}

/// A word of enable bits with one of them set or cleared.
pub open spec fn with_bit(word: u32, bit: u32, on: bool) -> u32 {
    if on {
        word | (1u32 << bit)
    } else {
        word & !(1u32 << bit)
    }
}

/// The accesses that enable or disable a source in the first `count` contexts,
/// where `words` is what was read.
pub open spec fn bits_changed(
    contexts: Seq<PlicCpuLayout>,
    words: Seq<u32>,
    hwirq: u32,
    on: bool,
    count: int,
) -> Seq<Exchange>
    decreases count,
{
    if count <= 0 {
        Seq::empty()
    } else {
        let offset = contexts[count - 1].layout.enable_at(hwirq as int / 32) as usize;
        let word = words[count - 1];
        bits_changed(contexts, words, hwirq, on, count - 1) + seq![
            port::r32(offset, word),
            port::w32(offset, with_bit(word, hwirq % 32, on)),
        ]
    }
}

/// The accesses of one claim: it is read, dispatched if it is valid, and
/// completed, with a barrier behind each step.
pub open spec fn claim_round(claim: usize, hwirq: u32, ndev: u32) -> Seq<Exchange> {
    let head = seq![port::r32(claim, hwirq), port::fence()];
    let tail = seq![port::w32(claim, hwirq), port::fence()];
    if hwirq <= ndev {
        head + seq![port::told(hwirq as u64), port::fence()] + tail
    } else {
        head + tail
    }
}

/// The accesses of several claims.
pub open spec fn claim_rounds(claim: usize, claims: Seq<u32>, ndev: u32) -> Seq<Exchange>
    decreases claims.len(),
{
    if claims.len() == 0 {
        Seq::empty()
    } else {
        claim_rounds(claim, claims.drop_last(), ndev) + claim_round(claim, claims.last(), ndev)
    }
}

/// Whether the claims are what a pass over a context takes: none is zero, and
/// only the last may be invalid.
pub open spec fn claims_taken(claims: Seq<u32>, ndev: u32) -> bool {
    &&& claims.len() <= PLIC_MAX_CLAIMS_PER_ENTRY
    &&& forall|i: int| 0 <= i < claims.len() ==> #[trigger] claims[i] != 0
    &&& forall|i: int| 0 <= i < claims.len() - 1 ==> #[trigger] claims[i] <= ndev
}

/// The accesses of a pass: it ends when nothing is pending, at an invalid claim
/// or at the limit.
pub open spec fn pass_trace(claim: usize, claims: Seq<u32>, ndev: u32) -> Seq<Exchange> {
    let rounds = claim_rounds(claim, claims, ndev);
    if claims.len() == PLIC_MAX_CLAIMS_PER_ENTRY || (claims.len() > 0 && claims.last() > ndev) {
        rounds
    } else {
        rounds + seq![port::r32(claim, 0)]
    }
}

/// Whether `at` is the first context of a CPU.
pub open spec fn context_of(contexts: Seq<PlicCpuLayout>, logical_cpu: usize, at: int) -> bool {
    &&& 0 <= at < contexts.len()
    &&& contexts[at].logical_cpu == logical_cpu
    &&& forall|i: int| 0 <= i < at ==> (#[trigger] contexts[i]).logical_cpu != logical_cpu
}

impl Plic {
    /// There is a context, and every one is of the controller's sources.
    pub open spec fn wf(&self) -> bool {
        &&& self.contexts@.len() > 0
        &&& config::ndev_valid(self.ndev)
        &&& forall|i: int|
            0 <= i < self.contexts@.len() ==> (#[trigger] self.contexts@[i]).layout.wf()
                && self.contexts@[i].layout.sources() == self.ndev
    }

    fn clear_priorities<F: FnMut(Access) -> u64>(&self, port: &mut Port<F>)
        requires
            self.wf(),
            old(port).wf(),
        ensures
            final(port).wf(),
            final(port).performs() == old(port).performs(),
            final(port).log() == old(port).log() + priorities_cleared(self.ndev),
    {
        let layout = self.contexts[0].layout;
        let ghost start = port.log();
        let mut hwirq: u32 = 1;
        assert(start + priorities_cleared(self.ndev).take(0) =~= start);
        while hwirq <= self.ndev
            invariant
                1 <= hwirq <= self.ndev + 1,
                self.wf(),
                layout == self.contexts@[0].layout,
                port.wf(),
                port.performs() == old(port).performs(),
                port.log() == start + priorities_cleared(self.ndev).take(hwirq - 1),
            decreases self.ndev + 1 - hwirq,
        {
            if let Some(offset) = layout.priority_offset(hwirq) {
                port.write32(offset, 0);
            }
            assert(port.log() =~= start + priorities_cleared(self.ndev).take(hwirq as int));
            hwirq += 1;
        }
        assert(priorities_cleared(self.ndev).take(hwirq - 1) =~= priorities_cleared(self.ndev));
    }

    fn clear_enables<F: FnMut(Access) -> u64>(&self, port: &mut Port<F>, layout: PlicLayout)
        requires
            layout.wf(),
            old(port).wf(),
        ensures
            final(port).wf(),
            final(port).performs() == old(port).performs(),
            final(port).log() == old(port).log() + enables_cleared(layout),
    {
        let ghost start = port.log();
        let words: usize = layout.source_words();
        let mut word: usize = 0;
        assert(start + enables_cleared(layout).take(0) =~= start);
        while word < words
            invariant
                word <= words,
                words == config::words_of(layout.sources()),
                layout.wf(),
                port.wf(),
                port.performs() == old(port).performs(),
                port.log() == start + enables_cleared(layout).take(word as int),
            decreases words - word,
        {
            if let Some(offset) = layout.enable_word_offset(word) {
                port.write32(offset, 0);
            }
            assert(port.log() =~= start + enables_cleared(layout).take(word + 1));
            word += 1;
        }
        assert(enables_cleared(layout).take(word as int) =~= enables_cleared(layout));
    }

    /// Switches every source off and opens every context.
    pub fn initialize<F: FnMut(Access) -> u64>(&self, port: &mut Port<F>)
        requires
            self.wf(),
            old(port).wf(),
        ensures
            final(port).wf(),
            final(port).performs() == old(port).performs(),
            final(port).log() == old(port).log() + priorities_cleared(self.ndev) + contexts_opened(
                self.contexts@,
                self.contexts@.len() as int,
            ) + seq![port::fence()],
    {
        self.clear_priorities(port);
        let ghost start = port.log();
        let mut i: usize = 0;
        assert(start + contexts_opened(self.contexts@, 0) =~= start);
        while i < self.contexts.len()
            invariant
                i <= self.contexts@.len(),
                self.wf(),
                port.wf(),
                port.performs() == old(port).performs(),
                port.log() == start + contexts_opened(self.contexts@, i as int),
            decreases self.contexts@.len() - i,
        {
            let layout = self.contexts[i].layout;
            assert(layout.wf());
            self.clear_enables(port, layout);
            port.write32(layout.threshold_offset(), 0);
            i += 1;
            assert(port.log() =~= start + contexts_opened(self.contexts@, i as int));
        }
        port.barrier();
        assert(port.log() =~= start + contexts_opened(self.contexts@, i as int) + seq![
            port::fence(),
        ]);
    }

    /// Sets the priority of a source; refused once the controller is shut.
    pub fn set_priority<F: FnMut(Access) -> u64>(
        &self,
        port: &mut Port<F>,
        hwirq: u32,
        priority: u32,
    ) -> (ok: bool)
        requires
            self.wf(),
            old(port).wf(),
        ensures
            final(port).wf(),
            final(port).performs() == old(port).performs(),
            ok == (!self.quiesced && hwirq <= self.ndev),
            final(port).log() == (if ok {
                old(port).log().push(
                    port::w32((config::PLIC_PRIORITY_BASE + hwirq * 4) as usize, priority),
                )
            } else {
                old(port).log()
            }),
    {
        if self.quiesced {
            return false;
        }
        assert(self.contexts@[0].layout.wf());
        match self.contexts[0].layout.priority_offset(hwirq) {
            Some(offset) => {
                port.write32(offset, priority);
                true
            },
            None => false,
        }
    }

    /// Enables or disables a source in every context. A controller that is shut
    /// has everything disabled.
    pub fn set_enabled<F: FnMut(Access) -> u64>(
        &self,
        port: &mut Port<F>,
        hwirq: u32,
        enabled: bool,
    ) -> (ok: bool)
        requires
            self.wf(),
            old(port).wf(),
        ensures
            final(port).wf(),
            final(port).performs() == old(port).performs(),
            ok == (if self.quiesced {
                !enabled
            } else {
                1 <= hwirq <= self.ndev
            }),
            if !self.quiesced && 1 <= hwirq <= self.ndev {
                exists|words: Seq<u32>|
                    words.len() == self.contexts@.len() && final(port).log() == old(port).log()
                        + #[trigger] bits_changed(
                        self.contexts@,
                        words,
                        hwirq,
                        enabled,
                        self.contexts@.len() as int,
                    ) + seq![port::fence()]
            } else {
                final(port).log() == old(port).log()
            },
    {
        if self.quiesced {
            return !enabled;
        }
        if hwirq == 0 || hwirq > self.ndev {
            return false;
        }
        let ghost start = port.log();
        let ghost mut words: Seq<u32> = Seq::empty();
        let mut i: usize = 0;
        assert(start + bits_changed(self.contexts@, words, hwirq, enabled, 0) =~= start);
        while i < self.contexts.len()
            invariant
                i <= self.contexts@.len(),
                self.wf(),
                1 <= hwirq <= self.ndev,
                port.wf(),
                port.performs() == old(port).performs(),
                words.len() == i,
                port.log() == start + bits_changed(
                    self.contexts@,
                    words,
                    hwirq,
                    enabled,
                    i as int,
                ),
            decreases self.contexts@.len() - i,
        {
            let ghost log_before = port.log();
            let ghost before = words;
            assert(self.contexts@[i as int].layout.wf());
            if let Some((offset, bit)) = self.contexts[i].layout.enable_offset(hwirq) {
                let word: u32 = port.read32(offset);
                let changed: u32 = if enabled {
                    word | (1u32 << bit)
                } else {
                    word & !(1u32 << bit)
                };
                port.write32(offset, changed);
                proof {
                    words = words.push(word);
                    lemma_bits_local(self.contexts@, before, words, hwirq, enabled, i as int);
                    assert(port.log() =~= start + bits_changed(
                        self.contexts@,
                        words,
                        hwirq,
                        enabled,
                        i + 1,
                    ));
                }
            }
            i += 1;
        }
        port.barrier();
        assert(port.log() =~= start + bits_changed(
            self.contexts@,
            words,
            hwirq,
            enabled,
            self.contexts@.len() as int,
        ) + seq![port::fence()]);
        true
    }

    /// Switches a source on, with its priority, or off.
    pub fn set_line_enabled<F: FnMut(Access) -> u64>(
        &self,
        port: &mut Port<F>,
        hwirq: u32,
        enabled: bool,
    ) -> (ok: bool)
        requires
            self.wf(),
            old(port).wf(),
        ensures
            final(port).wf(),
            final(port).performs() == old(port).performs(),
            ok == (if self.quiesced {
                !enabled
            } else {
                1 <= hwirq <= self.ndev
            }),
            ({
                let priority = old(port).log().push(
                    port::w32(
                        (config::PLIC_PRIORITY_BASE + hwirq * 4) as usize,
                        PLIC_DEFAULT_PRIORITY,
                    ),
                );
                let set = if enabled && !self.quiesced && hwirq <= self.ndev {
                    priority
                } else {
                    old(port).log()
                };
                if !self.quiesced && 1 <= hwirq <= self.ndev {
                    exists|words: Seq<u32>|
                        words.len() == self.contexts@.len() && final(port).log() == set
                            + #[trigger] bits_changed(
                            self.contexts@,
                            words,
                            hwirq,
                            enabled,
                            self.contexts@.len() as int,
                        ) + seq![port::fence()]
                } else {
                    final(port).log() == set
                }
            }),
    {
        if enabled && !self.set_priority(port, hwirq, PLIC_DEFAULT_PRIORITY) {
            return false;
        }
        self.set_enabled(port, hwirq, enabled)
    }

    /// Whether a pass over context `at` was made, and whether it claimed anything.
    pub open spec fn passed(
        &self,
        before: Seq<Exchange>,
        after: Seq<Exchange>,
        at: int,
        any: bool,
    ) -> bool {
        exists|claims: Seq<u32>|
            claims_taken(claims, self.ndev) && any == (claims.len() > 0) && after == before
                + #[trigger] pass_trace(
                self.contexts@[at].layout.claim_at() as usize,
                claims,
                self.ndev,
            )
    }

    /// Claims, dispatches and completes the sources that are pending for a CPU. A
    /// CPU without a context shares its interrupt with another controller.
    pub fn dispatch_pending<F: FnMut(Access) -> u64>(
        &self,
        port: &mut Port<F>,
        logical_cpu: usize,
    ) -> (status: IrqStatus)
        requires
            self.wf(),
            old(port).wf(),
        ensures
            final(port).wf(),
            final(port).performs() == old(port).performs(),
            self.quiesced || (forall|at: int| !#[trigger] context_of(
                self.contexts@,
                logical_cpu,
                at,
            )) ==> status == IrqStatus::Unhandled && final(port).log() == old(port).log(),
            forall|at: int|
                !self.quiesced && #[trigger] context_of(self.contexts@, logical_cpu, at)
                    ==> self.passed(
                    old(port).log(),
                    final(port).log(),
                    at,
                    status == IrqStatus::Handled,
                ),
    {
        if self.quiesced {
            return IrqStatus::Unhandled;
        }
        let mut at: usize = 0;
        while at < self.contexts.len() && self.contexts[at].logical_cpu != logical_cpu
            invariant
                at <= self.contexts@.len(),
                forall|i: int|
                    0 <= i < at ==> (#[trigger] self.contexts@[i]).logical_cpu != logical_cpu,
            decreases self.contexts@.len() - at,
        {
            at += 1;
        }
        if at == self.contexts.len() {
            return IrqStatus::Unhandled;
        }
        let layout = self.contexts[at].layout;
        assert(self.contexts@[at as int].layout.wf());
        assert(context_of(self.contexts@, logical_cpu, at as int));
        let claim: usize = layout.claim_offset();
        let ghost start = port.log();
        let ghost mut claims: Seq<u32> = Seq::empty();
        let mut count: u32 = 0;
        assert(start + claim_rounds(claim, claims, self.ndev) =~= start);
        while count < PLIC_MAX_CLAIMS_PER_ENTRY
            invariant
                count <= PLIC_MAX_CLAIMS_PER_ENTRY,
                port.wf(),
                port.performs() == old(port).performs(),
                claims.len() == count,
                claims_taken(claims, self.ndev),
                claims.len() > 0 ==> claims.last() <= self.ndev,
                port.log() == start + claim_rounds(claim, claims, self.ndev),
                start == old(port).log(),
                !self.quiesced,
                at < self.contexts@.len(),
                claim == self.contexts@[at as int].layout.claim_at(),
                context_of(self.contexts@, logical_cpu, at as int),
            decreases PLIC_MAX_CLAIMS_PER_ENTRY - count,
        {
            let hwirq: u32 = port.read32(claim);
            if hwirq == 0 {
                proof {
                    assert(port.log() =~= start + pass_trace(claim, claims, self.ndev));
                    self.lemma_pass(start, port.log(), logical_cpu, at as int, claims);
                }
                return if count != 0 {
                    IrqStatus::Handled
                } else {
                    IrqStatus::Unhandled
                };
            }
            let ghost before = claims;
            count += 1;
            port.barrier();
            let valid = hwirq <= self.ndev;
            if valid {
                port.notify(hwirq as u64);
                port.barrier();
            }
            port.write32(claim, hwirq);
            port.barrier();
            proof {
                claims = claims.push(hwirq);
                assert(claims.drop_last() =~= before);
                assert(port.log() =~= start + claim_rounds(claim, claims, self.ndev));
                assert forall|i: int| 0 <= i < claims.len() implies #[trigger] claims[i] != 0 by {
                    if i < before.len() {
                        assert(claims[i] == before[i]);
                    }
                }
                assert forall|i: int| 0 <= i < claims.len() - 1 implies #[trigger] claims[i]
                    <= self.ndev by {
                    assert(claims[i] == before[i]);
                    if i == before.len() - 1 {
                        assert(before.last() == before[i]);
                    }
                }
            }
            if !valid {
                proof {
                    assert(port.log() =~= start + pass_trace(claim, claims, self.ndev));
                    self.lemma_pass(start, port.log(), logical_cpu, at as int, claims);
                }
                return IrqStatus::Handled;
            }
        }
        proof {
            assert(port.log() =~= start + pass_trace(claim, claims, self.ndev));
            self.lemma_pass(start, port.log(), logical_cpu, at as int, claims);
        }
        IrqStatus::Handled
    }

    proof fn lemma_pass(
        &self,
        start: Seq<Exchange>,
        log: Seq<Exchange>,
        logical_cpu: usize,
        at: int,
        claims: Seq<u32>,
    )
        requires
            context_of(self.contexts@, logical_cpu, at),
            claims_taken(claims, self.ndev),
            log == start + pass_trace(
                self.contexts@[at].layout.claim_at() as usize,
                claims,
                self.ndev,
            ),
        ensures
            forall|other: int| #[trigger]
                context_of(self.contexts@, logical_cpu, other) ==> self.passed(
                    start,
                    log,
                    other,
                    claims.len() > 0,
                ),
    {
        assert forall|other: int| #[trigger]
            context_of(self.contexts@, logical_cpu, other) implies self.passed(
            start,
            log,
            other,
            claims.len() > 0,
        ) by {
            if other < at {
                assert(self.contexts@[other].logical_cpu != logical_cpu);
            } else if at < other {
                assert(self.contexts@[at].logical_cpu != logical_cpu);
            }
        }
    }

    /// Shuts the controller for good: no context accepts anything any more, and
    /// nothing is enabled.
    pub fn quiesce<F: FnMut(Access) -> u64>(&mut self, port: &mut Port<F>)
        requires
            old(self).wf(),
            old(port).wf(),
        ensures
            final(self).wf(),
            final(port).wf(),
            final(port).performs() == old(port).performs(),
            *final(self) == (Plic { quiesced: true, ..*old(self) }),
            final(port).log() == (if old(self).quiesced {
                old(port).log()
            } else {
                old(port).log() + contexts_shut(
                    old(self).contexts@,
                    old(self).contexts@.len() as int,
                ) + priorities_cleared(old(self).ndev) + seq![port::fence()]
            }),
    {
        if self.quiesced {
            return ;
        }
        self.quiesced = true;
        let ghost start = port.log();
        let mut i: usize = 0;
        assert(start + contexts_shut(self.contexts@, 0) =~= start);
        while i < self.contexts.len()
            invariant
                i <= self.contexts@.len(),
                self.wf(),
                *self == (Plic { quiesced: true, ..*old(self) }),
                port.wf(),
                port.performs() == old(port).performs(),
                port.log() == start + contexts_shut(self.contexts@, i as int),
            decreases self.contexts@.len() - i,
        {
            let layout = self.contexts[i].layout;
            assert(layout.wf());
            port.write32(layout.threshold_offset(), u32::MAX);
            self.clear_enables(port, layout);
            i += 1;
            assert(port.log() =~= start + contexts_shut(self.contexts@, i as int));
        }
        self.clear_priorities(port);
        port.barrier();
        assert(port.log() =~= start + contexts_shut(self.contexts@, i as int) + priorities_cleared(
            self.ndev,
        ) + seq![port::fence()]);
    }

    /// The source that firmware means by the cells of an interrupt.
    pub fn translate(&self, cells: &[u32]) -> (hwirq: Option<u32>)
        ensures
            hwirq == (if cells@.len() == 1 && 1 <= cells@[0] <= self.ndev {
                Some(cells@[0])
            } else {
                None
            }),
    {
        if cells.len() != 1 {
            return None;
        }
        let hwirq: u32 = cells[0];
        if hwirq == 0 || hwirq > self.ndev {
            return None;
        }
        Some(hwirq)
    }
}

proof fn lemma_bits_local(
    contexts: Seq<PlicCpuLayout>,
    first: Seq<u32>,
    second: Seq<u32>,
    hwirq: u32,
    on: bool,
    count: int,
)
    requires
        forall|i: int| 0 <= i < count ==> #[trigger] first[i] == second[i],
    ensures
        bits_changed(contexts, first, hwirq, on, count) == bits_changed(
            contexts,
            second,
            hwirq,
            on,
            count,
        ),
    decreases count,
{
    if count > 0 {
        lemma_bits_local(contexts, first, second, hwirq, on, count - 1);
        assert(first[count - 1] == second[count - 1]);
    }
}

/// Whether a device is such a controller.
pub fn matches_platform(interrupt_controller: bool, ids: &Vec<String>) -> (matched: bool)
    ensures
        matched == (interrupt_controller && (platform::compatible(ids@, COMPAT_SIFIVE_PLIC@)
            || platform::compatible(ids@, COMPAT_RISCV_PLIC0@))),
{
    interrupt_controller && (has_id(ids, COMPAT_SIFIVE_PLIC) || has_id(ids, COMPAT_RISCV_PLIC0))
}

/// How a wrong description is reported.
pub open spec fn config_fault(error: PlicConfigError) -> PnpError {
    match error {
        PlicConfigError::MissingNdev => PnpError::Missing(
            PnpResourceKind::FirmwareBus,
            "plic riscv,ndev missing",
        ),
        PlicConfigError::MissingInterruptContexts => PnpError::Missing(
            PnpResourceKind::Irq,
            "plic interrupts-extended missing",
        ),
        PlicConfigError::MalformedNdev => PnpError::Malformed(
            PnpResourceKind::FirmwareBus,
            "invalid plic riscv,ndev",
        ),
        PlicConfigError::InvalidNdev => PnpError::Malformed(
            PnpResourceKind::FirmwareBus,
            "invalid plic riscv,ndev",
        ),
        PlicConfigError::OutOfMemory => PnpError::OutOfMemory,
        PlicConfigError::UnalignedMmio => PnpError::Malformed(
            PnpResourceKind::Mmio,
            "invalid plic MMIO window",
        ),
        PlicConfigError::AddressOverflow => PnpError::Malformed(
            PnpResourceKind::Mmio,
            "invalid plic MMIO window",
        ),
        PlicConfigError::MmioWindowTooSmall => PnpError::Malformed(
            PnpResourceKind::Mmio,
            "invalid plic MMIO window",
        ),
        _ => PnpError::Malformed(
            PnpResourceKind::Irq,
            "invalid plic supervisor interrupt context",
        ),
    }
}

/// How a wrong description is reported.
pub fn map_plic_config_error(error: PlicConfigError) -> (fault: PnpError)
    ensures
        fault == config_fault(error),
{
    match error {
        PlicConfigError::MissingNdev => PnpError::Missing(
            PnpResourceKind::FirmwareBus,
            "plic riscv,ndev missing",
        ),
        PlicConfigError::MissingInterruptContexts => PnpError::Missing(
            PnpResourceKind::Irq,
            "plic interrupts-extended missing",
        ),
        PlicConfigError::MalformedNdev | PlicConfigError::InvalidNdev => PnpError::Malformed(
            PnpResourceKind::FirmwareBus,
            "invalid plic riscv,ndev",
        ),
        PlicConfigError::MalformedInterruptContext
        | PlicConfigError::UnknownSupervisorContextCpu
        | PlicConfigError::MissingBootSupervisorContext
        | PlicConfigError::DuplicateSupervisorContext => PnpError::Malformed(
            PnpResourceKind::Irq,
            "invalid plic supervisor interrupt context",
        ),
        PlicConfigError::OutOfMemory => PnpError::OutOfMemory,
        PlicConfigError::UnalignedMmio
        | PlicConfigError::AddressOverflow
        | PlicConfigError::MmioWindowTooSmall => PnpError::Malformed(
            PnpResourceKind::Mmio,
            "invalid plic MMIO window",
        ),
    }
}

/// What is wrong with the window of registers for a context, if anything.
pub open spec fn context_error(
    ndev: u32,
    context: usize,
    phys: usize,
    size: usize,
    virt: usize,
) -> Option<PlicConfigError> {
    if config::window_end(context) > usize::MAX {
        Some(PlicConfigError::AddressOverflow)
    } else if phys % 4 != 0 || virt % 4 != 0 {
        Some(PlicConfigError::UnalignedMmio)
    } else if phys + size > usize::MAX {
        Some(PlicConfigError::AddressOverflow)
    } else if size < config::window_end(context) {
        Some(PlicConfigError::MmioWindowTooSmall)
    } else if virt + config::window_end(context) > usize::MAX {
        Some(PlicConfigError::AddressOverflow)
    } else {
        None
    }
}

/// The first thing that is wrong with the window for the contexts from `from` on.
pub open spec fn contexts_error(
    ndev: u32,
    contexts: Seq<PlicSupervisorContext>,
    from: int,
    phys: usize,
    size: usize,
    virt: usize,
) -> Option<PlicConfigError>
    decreases contexts.len() - from,
{
    if from >= contexts.len() {
        None
    } else {
        match context_error(ndev, contexts[from].context, phys, size, virt) {
            Some(error) => Some(error),
            None => contexts_error(ndev, contexts, from + 1, phys, size, virt),
        }
    }
}

/// The controller of the given contexts, if its window of registers holds them
/// all.
pub fn build_plic(
    ndev: u32,
    contexts: &Vec<PlicSupervisorContext>,
    phys: usize,
    size: usize,
    virt: usize,
) -> (result: Result<Plic, PlicConfigError>)
    requires
        config::ndev_valid(ndev),
        contexts@.len() > 0,
    ensures
        match result {
            Ok(plic) => {
                &&& contexts_error(ndev, contexts@, 0, phys, size, virt) is None
                &&& plic.wf()
                &&& plic.ndev == ndev
                &&& !plic.quiesced
                &&& plic.contexts@.len() == contexts@.len()
                &&& forall|i: int|
                    0 <= i < contexts@.len() ==> (#[trigger] plic.contexts@[i]).logical_cpu
                        == contexts@[i].logical_cpu && plic.contexts@[i].layout.number()
                        == contexts@[i].context
            },
            Err(error) => contexts_error(ndev, contexts@, 0, phys, size, virt) == Some(error),
        },
{
    let mut layouts: Vec<PlicCpuLayout> = Vec::new();
    let mut i: usize = 0;
    while i < contexts.len()
        invariant
            i <= contexts@.len(),
            config::ndev_valid(ndev),
            layouts@.len() == i,
            contexts_error(ndev, contexts@, 0, phys, size, virt) == contexts_error(
                ndev,
                contexts@,
                i as int,
                phys,
                size,
                virt,
            ),
            forall|k: int|
                0 <= k < i ==> {
                    let layout = #[trigger] layouts@[k];
                    &&& layout.logical_cpu == contexts@[k].logical_cpu
                    &&& layout.layout.number() == contexts@[k].context
                    &&& layout.layout.wf()
                    &&& layout.layout.sources() == ndev
                },
        decreases contexts@.len() - i,
    {
        let context = contexts[i];
        let layout = match PlicLayout::new(ndev, context.context) {
            Ok(layout) => layout,
            Err(error) => {
                return Err(error);
            },
        };
        match layout.validate_window(phys, size, virt) {
            Ok(()) => {},
            Err(error) => {
                return Err(error);
            },
        }
        layouts.push(PlicCpuLayout { logical_cpu: context.logical_cpu, layout });
        i += 1;
    }
    Ok(Plic { ndev, contexts: layouts, quiesced: false })
}

/// Builds the controller that firmware describes: its handle, the number of its
/// sources, its registers and its contexts are checked in this order. `virt` is
/// where the registers are mapped.
pub fn probe<F: FnMut(u32) -> Option<u64>, G: FnMut(u32) -> Option<usize>>(
    phandle: Option<u32>,
    ndev: Option<&[u8]>,
    mmio: Option<(usize, usize)>,
    virt: usize,
    contexts: &[PlicInterruptContext],
    boot_hart_id: u64,
    cpu_reg_for_controller: F,
    cpu_logical_id_for_controller: G,
) -> (result: Result<(u32, Plic), PnpError>)
    requires
        forall|controller: u32| #[trigger] call_requires(cpu_reg_for_controller, (controller,)),
        forall|controller: u32| #[trigger]
            call_requires(cpu_logical_id_for_controller, (controller,)),
    ensures
        phandle is None ==> result == Err::<(u32, Plic), PnpError>(
            PnpError::Missing(PnpResourceKind::FirmwareBus, "plic phandle"),
        ),
        phandle is Some ==> match config::ndev_of(ndev) {
            Err(error) => result == Err::<(u32, Plic), PnpError>(config_fault(error)),
            Ok(sources) => match mmio {
                None => result == Err::<(u32, Plic), PnpError>(
                    PnpError::Missing(PnpResourceKind::Mmio, "plic reg missing"),
                ),
                Some((phys, size)) => exists|
                    answers: Seq<CpuAnswer>,
                    selected: Result<Vec<PlicSupervisorContext>, PlicConfigError>,
                | #[trigger]
                    config::answered(
                        contexts@,
                        answers,
                        cpu_reg_for_controller,
                        cpu_logical_id_for_controller,
                    ) && #[trigger] config::selection(
                        contexts@,
                        answers,
                        boot_hart_id,
                        selected,
                    ) && match selected {
                        Err(error) => result == Err::<(u32, Plic), PnpError>(config_fault(error)),
                        Ok(list) => match result {
                            Err(fault) => contexts_error(sources, list@, 0, phys, size, virt)
                                is Some && fault == config_fault(
                                contexts_error(sources, list@, 0, phys, size, virt)->0,
                            ),
                            Ok((controller, plic)) => {
                                &&& contexts_error(sources, list@, 0, phys, size, virt) is None
                                &&& controller == phandle->0
                                &&& plic.wf()
                                &&& plic.ndev == sources
                                &&& !plic.quiesced
                                &&& plic.contexts@.len() == list@.len()
                                &&& forall|i: int|
                                    0 <= i < list@.len() ==> (
                                    #[trigger] plic.contexts@[i]).logical_cpu
                                        == list@[i].logical_cpu
                                        && plic.contexts@[i].layout.number() == list@[i].context
                            },
                        },
                    },
            },
        },
{
    let controller: u32 = match phandle {
        Some(controller) => controller,
        None => {
            return Err(PnpError::Missing(PnpResourceKind::FirmwareBus, "plic phandle"));
        },
    };
    let sources: u32 = match parse_ndev(ndev) {
        Ok(sources) => sources,
        Err(error) => {
            return Err(map_plic_config_error(error));
        },
    };
    let (phys, size): (usize, usize) = match mmio {
        Some(window) => window,
        None => {
            return Err(PnpError::Missing(PnpResourceKind::Mmio, "plic reg missing"));
        },
    };
    let selected = select_supervisor_contexts(
        contexts,
        boot_hart_id,
        cpu_reg_for_controller,
        cpu_logical_id_for_controller,
    );
    let ghost answers = choose|answers: Seq<CpuAnswer>| #[trigger]
        config::answered(
            contexts@,
            answers,
            cpu_reg_for_controller,
            cpu_logical_id_for_controller,
        ) && config::selection(
            contexts@,
            answers,
            boot_hart_id,
            selected,
        );
    assert(config::selection(contexts@, answers, boot_hart_id, selected));
    let list = match selected {
        Ok(list) => list,
        Err(error) => {
            return Err(map_plic_config_error(error));
        },
    };
    proof {
        let unsorted = config::selected(contexts@, answers, contexts@.len() as int)->Ok_0;
        let i = choose|i: int|
            0 <= i < unsorted.len() && (#[trigger] unsorted[i]).hart_id == boot_hart_id;
        assert(list@.len() > 0);
    }
    match build_plic(sources, &list, phys, size, virt) {
        Ok(plic) => Ok((controller, plic)),
        Err(error) => Err(map_plic_config_error(error)),
    }
}

} // verus!
