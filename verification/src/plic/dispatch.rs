//! Draining a context, and what closes it for good.

use vstd::prelude::*;

verus! {

/// How draining a context went.
#[derive(Clone, Copy, Debug, PartialEq, Eq, Structural)]
pub struct DrainResult {
    pub claimed: usize,
    pub handled: usize,
    pub unhandled: usize,
    pub invalid: Option<u32>,
    pub exhausted: bool,
}

impl Default for DrainResult {
    fn default() -> (result: Self)
        ensures
            result == (DrainResult {
                claimed: 0,
                handled: 0,
                unhandled: 0,
                invalid: None,
                exhausted: false,
            }),
    {
        DrainResult { claimed: 0, handled: 0, unhandled: 0, invalid: None, exhausted: false }
    }
}

/// Number of sources that were handled.
pub open spec fn handled_of(outcomes: Seq<bool>) -> nat
    decreases outcomes.len(),
{
    if outcomes.len() == 0 {
        0
    } else {
        handled_of(outcomes.drop_last()) + (if outcomes.last() {
            1nat
        } else {
            0nat
        })
    }
}

/// A call that draining makes, and what came of it.
pub ghost enum DrainCall {
    /// A source was claimed; zero if none was pending.
    Claim(u32),
    /// A source was dispatched, and handled or not.
    Dispatch(u32, bool),
    Complete(u32),
}

/// Whether these may be the sources that draining claims and how their dispatch ends:
/// each but an invalid last one is dispatched.
pub open spec fn drained(ndev: u32, claims: Seq<u32>, outcomes: Seq<bool>) -> bool {
    &&& outcomes.len() <= claims.len() <= outcomes.len() + 1
    &&& forall|i: int| 0 <= i < claims.len() ==> (#[trigger] claims[i]) != 0
    &&& forall|i: int| 0 <= i < outcomes.len() ==> (#[trigger] claims[i]) <= ndev
    &&& claims.len() == outcomes.len() + 1 ==> claims.last() > ndev
}

/// The calls for the first sources, one source after the other.
pub open spec fn rounds(claims: Seq<u32>, outcomes: Seq<bool>, count: int) -> Seq<DrainCall>
    decreases count,
{
    if count <= 0 {
        Seq::empty()
    } else {
        rounds(claims, outcomes, count - 1) + seq![
            DrainCall::Claim(claims[count - 1]),
            DrainCall::Dispatch(claims[count - 1], outcomes[count - 1]),
            DrainCall::Complete(claims[count - 1]),
        ]
    }
}

/// The calls of a drain: each source is claimed, dispatched and completed before the
/// next one is claimed. An invalid source is completed, never dispatched, and is the
/// last one. Where nothing is pending before the budget is used up, that is the end.
pub open spec fn drain_trace(budget: usize, claims: Seq<u32>, outcomes: Seq<bool>) -> Seq<DrainCall> {
    rounds(claims, outcomes, outcomes.len() as int) + if claims.len() > outcomes.len() {
        seq![DrainCall::Claim(claims.last()), DrainCall::Complete(claims.last())]
    } else if claims.len() < budget {
        seq![DrainCall::Claim(0)]
    } else {
        Seq::empty()
    }
}

/// Whether a call may have been made of these functions.
pub open spec fn made<C: FnMut() -> u32, D: FnMut(u32) -> bool, E: FnMut(u32)>(
    claim: C,
    dispatch: D,
    complete: E,
    call: DrainCall,
) -> bool {
    match call {
        DrainCall::Claim(hwirq) => call_ensures(claim, (), hwirq),
        DrainCall::Dispatch(hwirq, outcome) => call_ensures(dispatch, (hwirq,), outcome),
        DrainCall::Complete(hwirq) => call_ensures(complete, (hwirq,), ()),
    }
}

/// Whether each of these calls may have been made of these functions.
pub open spec fn all_made<C: FnMut() -> u32, D: FnMut(u32) -> bool, E: FnMut(u32)>(
    claim: C,
    dispatch: D,
    complete: E,
    calls: Seq<DrainCall>,
) -> bool {
    forall|i: int| 0 <= i < calls.len() ==> made(claim, dispatch, complete, #[trigger] calls[i])
}

/// What a context is drained with, and the calls that were made of it.
pub struct Drain<C, D, E> {
    claim: C,
    dispatch: D,
    complete: E,
    log: Ghost<Seq<DrainCall>>,
}

impl<C: FnMut() -> u32, D: FnMut(u32) -> bool, E: FnMut(u32)> Drain<C, D, E> {
    /// The calls that were made so far.
    pub closed spec fn log(&self) -> Seq<DrainCall> {
        self.log@
    }

    pub closed spec fn the_claim(&self) -> C {
        self.claim
    }

    pub closed spec fn the_dispatch(&self) -> D {
        self.dispatch
    }

    pub closed spec fn the_complete(&self) -> E {
        self.complete
    }

    /// The functions may be called for any source, and made the calls of the log.
    pub open spec fn wf(&self) -> bool {
        &&& call_requires(self.the_claim(), ())
        &&& forall|hwirq: u32| #[trigger] call_requires(self.the_dispatch(), (hwirq,))
        &&& forall|hwirq: u32| #[trigger] call_requires(self.the_complete(), (hwirq,))
        &&& forall|i: int|
            0 <= i < self.log().len() ==> made(
                self.the_claim(),
                self.the_dispatch(),
                self.the_complete(),
                #[trigger] self.log()[i],
            )
    }

    /// Whether the functions are those of another drain.
    pub open spec fn alike(&self, other: &Self) -> bool {
        &&& self.the_claim() == other.the_claim()
        &&& self.the_dispatch() == other.the_dispatch()
        &&& self.the_complete() == other.the_complete()
    }

    pub fn new(claim: C, dispatch: D, complete: E) -> (drain: Self)
        requires
            call_requires(claim, ()),
            forall|hwirq: u32| #[trigger] call_requires(dispatch, (hwirq,)),
            forall|hwirq: u32| #[trigger] call_requires(complete, (hwirq,)),
        ensures
            drain.wf(),
            drain.log() == Seq::<DrainCall>::empty(),
            drain.the_claim() == claim,
            drain.the_dispatch() == dispatch,
            drain.the_complete() == complete,
    {
        Drain { claim, dispatch, complete, log: Ghost(Seq::empty()) }
    }

    proof fn lemma_pushed(&self, before: &Self, call: DrainCall)
        requires
            before.wf(),
            self.alike(before),
            self.log() == before.log().push(call),
            made(self.the_claim(), self.the_dispatch(), self.the_complete(), call),
        ensures
            self.wf(),
    {
        assert forall|i: int| 0 <= i < self.log().len() implies made(
            self.the_claim(),
            self.the_dispatch(),
            self.the_complete(),
            #[trigger] self.log()[i],
        ) by {
            if i < before.log().len() {
                assert(self.log()[i] == before.log()[i]);
            }
        }
    }

    /// Claims a source; zero if none is pending.
    pub fn claim(&mut self) -> (hwirq: u32)
        requires
            old(self).wf(),
        ensures
            final(self).wf(),
            final(self).alike(old(self)),
            final(self).log() == old(self).log().push(DrainCall::Claim(hwirq)),
    {
        assert(call_requires(self.the_claim(), ()));
        let hwirq: u32 = (self.claim)();
        self.log = Ghost(self.log@.push(DrainCall::Claim(hwirq)));
        proof {
            self.lemma_pushed(old(self), DrainCall::Claim(hwirq));
        }
        hwirq
    }

    /// Dispatches a source; says whether it was handled.
    pub fn dispatch(&mut self, hwirq: u32) -> (outcome: bool)
        requires
            old(self).wf(),
        ensures
            final(self).wf(),
            final(self).alike(old(self)),
            final(self).log() == old(self).log().push(DrainCall::Dispatch(hwirq, outcome)),
    {
        assert(call_requires(self.the_dispatch(), (hwirq,)));
        let outcome: bool = (self.dispatch)(hwirq);
        self.log = Ghost(self.log@.push(DrainCall::Dispatch(hwirq, outcome)));
        proof {
            self.lemma_pushed(old(self), DrainCall::Dispatch(hwirq, outcome));
        }
        outcome
    }

    pub fn complete(&mut self, hwirq: u32)
        requires
            old(self).wf(),
        ensures
            final(self).wf(),
            final(self).alike(old(self)),
            final(self).log() == old(self).log().push(DrainCall::Complete(hwirq)),
    {
        assert(call_requires(self.the_complete(), (hwirq,)));
        (self.complete)(hwirq);
        self.log = Ghost(self.log@.push(DrainCall::Complete(hwirq)));
        proof {
            self.lemma_pushed(old(self), DrainCall::Complete(hwirq));
        }
    }
}

/// What draining reports of the sources that it claimed.
pub open spec fn drain_report(
    ndev: u32,
    budget: usize,
    claims: Seq<u32>,
    outcomes: Seq<bool>,
    result: DrainResult,
) -> bool {
    &&& claims.len() <= budget
    &&& result.claimed == claims.len()
    &&& result.handled == handled_of(outcomes)
    &&& result.handled + result.unhandled == outcomes.len()
    &&& result.invalid == (if claims.len() > outcomes.len() {
        Some(claims.last())
    } else {
        None
    })
    &&& result.exhausted == (budget != 0 && claims.len() == budget && result.invalid is None)
}

/// Claims, dispatches and completes sources one by one, until none is pending,
/// one is invalid, or the budget is used up.
pub fn drain_traced<C: FnMut() -> u32, D: FnMut(u32) -> bool, E: FnMut(u32)>(
    ndev: u32,
    budget: usize,
    drain: &mut Drain<C, D, E>,
) -> (result: DrainResult)
    requires
        old(drain).wf(),
    ensures
        final(drain).wf(),
        final(drain).alike(old(drain)),
        exists|claims: Seq<u32>, outcomes: Seq<bool>| #[trigger]
            drained(ndev, claims, outcomes) && drain_report(
                ndev,
                budget,
                claims,
                outcomes,
                result,
            ) && final(drain).log() == old(drain).log() + drain_trace(budget, claims, outcomes),
{
    let ghost start = drain.log();
    let mut result = DrainResult::default();
    let ghost mut claims: Seq<u32> = Seq::empty();
    let ghost mut outcomes: Seq<bool> = Seq::empty();
    let mut round: usize = 0;
    assert(start + rounds(claims, outcomes, 0) =~= start);
    while round < budget
        invariant
            round <= budget,
            drain.wf(),
            drain.alike(old(drain)),
            start == old(drain).log(),
            drain.log() == start + rounds(claims, outcomes, round as int),
            claims.len() == round,
            outcomes.len() == round,
            drained(ndev, claims, outcomes),
            result.claimed == round,
            result.handled == handled_of(outcomes),
            result.handled + result.unhandled == round,
            result.invalid is None,
            !result.exhausted,
        decreases budget - round,
    {
        let hwirq: u32 = drain.claim();
        if hwirq == 0 {
            assert(drain.log() =~= start + drain_trace(budget, claims, outcomes));
            return result;
        }
        result.claimed = result.claimed + 1;
        let ghost claims_before = claims;
        let ghost outcomes_before = outcomes;
        if hwirq > ndev {
            drain.complete(hwirq);
            result.invalid = Some(hwirq);
            proof {
                claims = claims.push(hwirq);
                lemma_rounds(claims_before, outcomes, claims, outcomes, round as int);
                assert forall|i: int| 0 <= i < outcomes.len() implies (#[trigger] claims[i])
                    <= ndev by {
                    assert(claims[i] == claims_before[i]);
                }
                assert(drained(ndev, claims, outcomes));
                assert(drain.log() =~= start + drain_trace(budget, claims, outcomes));
            }
            return result;
        }
        let outcome = drain.dispatch(hwirq);
        if outcome {
            result.handled = result.handled + 1;
        } else {
            result.unhandled = result.unhandled + 1;
        }
        drain.complete(hwirq);
        proof {
            claims = claims.push(hwirq);
            outcomes = outcomes.push(outcome);
            assert(outcomes.drop_last() =~= outcomes_before);
            lemma_rounds(claims_before, outcomes_before, claims, outcomes, round as int);
            assert(drain.log() =~= start + rounds(claims, outcomes, round + 1));
        }
        round += 1;
    }
    result.exhausted = budget != 0;
    assert(drain.log() =~= start + drain_trace(budget, claims, outcomes));
    result
}

/// The calls for sources do not depend on the sources behind them.
proof fn lemma_rounds(
    claims: Seq<u32>,
    outcomes: Seq<bool>,
    more_claims: Seq<u32>,
    more_outcomes: Seq<bool>,
    count: int,
)
    requires
        count <= claims.len() <= more_claims.len(),
        count <= outcomes.len() <= more_outcomes.len(),
        forall|i: int| 0 <= i < count ==> claims[i] == #[trigger] more_claims[i],
        forall|i: int| 0 <= i < count ==> outcomes[i] == #[trigger] more_outcomes[i],
    ensures
        rounds(claims, outcomes, count) == rounds(more_claims, more_outcomes, count),
    decreases count,
{
    if count > 0 {
        lemma_rounds(claims, outcomes, more_claims, more_outcomes, count - 1);
        assert(more_claims[count - 1] == claims[count - 1]);
        assert(more_outcomes[count - 1] == outcomes[count - 1]);
    }
}

/// Sources are served one after the other: the `i`-th valid one is claimed, dispatched
/// and completed in three calls in a row, behind those for the ones before it.
pub proof fn sources_are_served_in_turn(
    budget: usize,
    claims: Seq<u32>,
    outcomes: Seq<bool>,
    i: int,
)
    requires
        0 <= i < outcomes.len() <= claims.len(),
    ensures
        drain_trace(budget, claims, outcomes).len() >= 3 * outcomes.len(),
        drain_trace(budget, claims, outcomes)[3 * i] == DrainCall::Claim(claims[i]),
        drain_trace(budget, claims, outcomes)[3 * i + 1] == DrainCall::Dispatch(
            claims[i],
            outcomes[i],
        ),
        drain_trace(budget, claims, outcomes)[3 * i + 2] == DrainCall::Complete(claims[i]),
{
    lemma_rounds_at(claims, outcomes, outcomes.len() as int, i);
}

/// An invalid source ends a drain: it is claimed and completed in the last two calls,
/// and no call dispatches it or completes it before.
pub proof fn invalid_source_is_only_completed(
    ndev: u32,
    budget: usize,
    claims: Seq<u32>,
    outcomes: Seq<bool>,
)
    requires
        drained(ndev, claims, outcomes),
        claims.len() > outcomes.len(),
    ensures
        ({
            let trace = drain_trace(budget, claims, outcomes);
            let last = trace.len() - 1;
            &&& last == 3 * outcomes.len() + 1
            &&& trace[last - 1] == DrainCall::Claim(claims.last())
            &&& trace[last] == DrainCall::Complete(claims.last())
            &&& forall|i: int|
                0 <= i < last ==> #[trigger] trace[i] != DrainCall::Complete(claims.last())
            &&& forall|i: int|
                0 <= i <= last ==> (#[trigger] trace[i] matches DrainCall::Dispatch(hwirq, _)
                    ==> hwirq != claims.last())
        }),
{
    let n = outcomes.len() as int;
    let trace = drain_trace(budget, claims, outcomes);
    lemma_rounds_len(claims, outcomes, n);
    assert forall|i: int| 0 <= i < 3 * n implies #[trigger] trace[i] != DrainCall::Complete(
        claims.last(),
    ) && (trace[i] matches DrainCall::Dispatch(hwirq, _) ==> hwirq != claims.last()) by {
        lemma_rounds_at(claims, outcomes, n, i / 3);
        assert(claims[i / 3] <= ndev);
    }
}

/// The calls for each source are three.
proof fn lemma_rounds_len(claims: Seq<u32>, outcomes: Seq<bool>, count: int)
    requires
        0 <= count,
    ensures
        rounds(claims, outcomes, count).len() == 3 * count,
    decreases count,
{
    if count > 0 {
        lemma_rounds_len(claims, outcomes, count - 1);
    }
}

proof fn lemma_rounds_at(claims: Seq<u32>, outcomes: Seq<bool>, count: int, i: int)
    requires
        0 <= i < count,
    ensures
        rounds(claims, outcomes, count).len() == 3 * count,
        rounds(claims, outcomes, count)[3 * i] == DrainCall::Claim(claims[i]),
        rounds(claims, outcomes, count)[3 * i + 1] == DrainCall::Dispatch(claims[i], outcomes[i]),
        rounds(claims, outcomes, count)[3 * i + 2] == DrainCall::Complete(claims[i]),
    decreases count,
{
    lemma_rounds_len(claims, outcomes, count - 1);
    lemma_rounds_len(claims, outcomes, count);
    if i < count - 1 {
        lemma_rounds_at(claims, outcomes, count - 1, i);
    }
}

/// Drains with these functions. They are called in the order of [`drain_trace`], and
/// not otherwise.
pub fn drain_pending<C: FnMut() -> u32, D: FnMut(u32) -> bool, E: FnMut(u32)>(
    ndev: u32,
    budget: usize,
    claim: C,
    dispatch: D,
    complete: E,
) -> (result: DrainResult)
    requires
        call_requires(claim, ()),
        forall|hwirq: u32| #[trigger] call_requires(dispatch, (hwirq,)),
        forall|hwirq: u32| #[trigger] call_requires(complete, (hwirq,)),
    ensures
        exists|claims: Seq<u32>, outcomes: Seq<bool>| #[trigger]
            drained(ndev, claims, outcomes) && drain_report(
                ndev,
                budget,
                claims,
                outcomes,
                result,
            ) && all_made(claim, dispatch, complete, drain_trace(budget, claims, outcomes)),
{
    let mut drain = Drain::new(claim, dispatch, complete);
    let result = drain_traced(ndev, budget, &mut drain);
    proof {
        let (claims, outcomes) = choose|claims: Seq<u32>, outcomes: Seq<bool>| #[trigger]
            drained(ndev, claims, outcomes) && drain_report(
                ndev,
                budget,
                claims,
                outcomes,
                result,
            ) && drain.log() == Seq::<DrainCall>::empty() + drain_trace(budget, claims, outcomes);
        let trace = drain_trace(budget, claims, outcomes);
        assert(drain.log() =~= trace);
        assert(all_made(claim, dispatch, complete, trace));
        assert(drained(ndev, claims, outcomes));
    }
    result
}

/// Says once, for each time that a source is enabled, that nobody handles it.
pub fn mark_unhandled_once(reported: &mut bool) -> (first: bool)
    ensures
        first == !*old(reported),
        *final(reported),
{
    let first = !*reported;
    *reported = true;
    first
}

/// Counts who is dispatching, and refuses newcomers once it is closed.
pub struct DispatchGate {
    closed: bool,
    active: usize,
}

/// Held by whoever was admitted.
pub struct DispatchGuard {
    entered: (),
}

impl DispatchGate {
    pub closed spec fn is_shut(&self) -> bool {
        self.closed
    }

    /// The number of those inside.
    pub closed spec fn inside(&self) -> usize {
        self.active
    }

    pub fn new() -> (gate: Self)
        ensures
            !gate.is_shut(),
            gate.inside() == 0,
    {
        DispatchGate { closed: false, active: 0 }
    }

    pub fn try_enter(&mut self) -> (result: Option<DispatchGuard>)
        requires
            old(self).inside() < usize::MAX,
        ensures
            result is Some <==> !old(self).is_shut(),
            final(self).is_shut() == old(self).is_shut(),
            final(self).inside() == old(self).inside() + (if result is Some {
                1int
            } else {
                0
            }),
    {
        if self.closed {
            return None;
        }
        self.active = self.active + 1;
        Some(DispatchGuard { entered: () })
    }

    /// Counts one out.
    pub fn leave(&mut self, guard: DispatchGuard)
        requires
            old(self).inside() > 0,
        ensures
            final(self).is_shut() == old(self).is_shut(),
            final(self).inside() == old(self).inside() - 1,
    {
        let _ = guard;
        self.active = self.active - 1;
    }

    /// Refuses newcomers from now on; says whether they were admitted before.
    pub fn close(&mut self) -> (was_open: bool)
        ensures
            was_open == !old(self).is_shut(),
            final(self).is_shut(),
            final(self).inside() == old(self).inside(),
    {
        let was_open = !self.closed;
        self.closed = true;
        was_open
    }

    pub fn is_closed(&self) -> (closed: bool)
        ensures
            closed == self.is_shut(),
    {
        self.closed
    }

    /// Whether nobody is inside.
    pub fn is_idle(&self) -> (idle: bool)
        ensures
            idle == (self.inside() == 0),
    {
        self.active == 0
    }
}

} // verus!
