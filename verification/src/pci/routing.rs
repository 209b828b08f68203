//! Interrupt routing: pins through bridges, and requester numbers to message
//! interrupt controllers.

use vstd::prelude::*;

verus! {

pub const PCI_DEVICES_PER_BUS: u8 = 32;

pub const PCI_FUNCTIONS_PER_DEVICE: u8 = 8;

pub const PCI_INTX_PIN_COUNT: u8 = 4;

/// An interrupt pin of a function on the root bus.
#[derive(Clone, Copy, Debug, PartialEq, Eq, Structural)]
pub struct PciIntxRouteKey {
    pub bus: u8,
    pub device: u8,
    pub function: u8,
    pub pin: u8,
}

/// How the pins of a bus reach the bridge on the root bus above it.
#[derive(Clone, Copy, Debug, PartialEq, Eq, Structural)]
pub struct PciIntxBridgeRoute {
    pub downstream_bus: u8,
    pub root_device: u8,
    pub root_function: u8,
    /// Sum of the device numbers of all bridges between, modulo 4.
    pub swizzle_offset: u8,
}

impl PciIntxBridgeRoute {
    /// Whether the numbers are in range.
    pub open spec fn wf(self) -> bool {
        self.root_device < 32 && self.root_function < 8 && self.swizzle_offset < 4
    }

    pub fn new(downstream_bus: u8, root_device: u8, root_function: u8, swizzle_offset: u8) -> (result:
        Option<Self>)
        ensures
            result is Some <==> root_device < 32 && root_function < 8 && swizzle_offset < 4,
            result matches Some(route) ==> route.wf() && route == (PciIntxBridgeRoute {
                downstream_bus,
                root_device,
                root_function,
                swizzle_offset,
            }),
    {
        if root_device >= PCI_DEVICES_PER_BUS || root_function >= PCI_FUNCTIONS_PER_DEVICE
            || swizzle_offset >= PCI_INTX_PIN_COUNT {
            return None;
        }
        Some(PciIntxBridgeRoute { downstream_bus, root_device, root_function, swizzle_offset })
    }
}

/// The pin that pin `pin` of device `device` becomes behind a bridge.
pub open spec fn swizzle(pin: int, device: int, offset: int) -> int {
    (pin - 1 + device + offset) % 4 + 1
}

/// Whether the routes name each bus at most once, and never the root.
pub open spec fn routes_consistent(root_bus: u8, routes: Seq<PciIntxBridgeRoute>) -> bool {
    &&& forall|i: int|
        0 <= i < routes.len() ==> (#[trigger] routes[i]).downstream_bus != root_bus
    &&& forall|i: int, j: int|
        0 <= i < j < routes.len() ==> (#[trigger] routes[i]).downstream_bus != (
        #[trigger] routes[j]).downstream_bus
}

/// Routes from every bus of a host to its root bus.
pub struct PciIntxRouting {
    root_bus: u8,
    bridges: Vec<PciIntxBridgeRoute>,
}

impl PciIntxRouting {
    pub closed spec fn root(&self) -> u8 {
        self.root_bus
    }

    pub closed spec fn routes(&self) -> Seq<PciIntxBridgeRoute> {
        self.bridges@
    }

    /// Every bus has at most one route.
    pub open spec fn wf(&self) -> bool {
        routes_consistent(self.root(), self.routes())
    }

    pub fn new(root_bus: u8, bridges: Vec<PciIntxBridgeRoute>) -> (result: Option<Self>)
        ensures
            result is Some <==> routes_consistent(root_bus, bridges@),
            result matches Some(routing) ==> routing.wf() && routing.root() == root_bus
                && routing.routes() == bridges@,
    {
        let mut i: usize = 0;
        while i < bridges.len()
            invariant
                i <= bridges@.len(),
                routes_consistent(root_bus, bridges@.take(i as int)),
            decreases bridges@.len() - i,
        {
            if bridges[i].downstream_bus == root_bus {
                return None;
            }
            let mut j: usize = 0;
            while j < i
                invariant
                    j <= i < bridges@.len(),
                    forall|k: int|
                        0 <= k < j ==> (#[trigger] bridges@[k]).downstream_bus
                            != bridges@[i as int].downstream_bus,
                decreases i - j,
            {
                if bridges[j].downstream_bus == bridges[i].downstream_bus {
                    assert(!routes_consistent(root_bus, bridges@));
                    return None;
                }
                j += 1;
            }
            i += 1;
            proof {
                let front = bridges@.take(i - 1);
                let all = bridges@.take(i as int);
                assert forall|a: int| 0 <= a < all.len() implies (#[trigger] all[a]).downstream_bus
                    != root_bus by {
                    if a < i - 1 {
                        assert(all[a] == front[a]);
                    }
                }
                assert forall|a: int, b: int| 0 <= a < b < all.len() implies (
                #[trigger] all[a]).downstream_bus != (#[trigger] all[b]).downstream_bus by {
                    if b < i - 1 {
                        assert(all[a] == front[a] && all[b] == front[b]);
                    } else {
                        assert(all[a] == bridges@[a]);
                    }
                }
            }
        }
        assert(bridges@.take(i as int) =~= bridges@);
        Some(PciIntxRouting { root_bus, bridges })
    }

    /// Whether a bus below the root has a route.
    pub open spec fn reaches(&self, bus: u8) -> bool {
        exists|i: int|
            0 <= i < self.routes().len() && (#[trigger] self.routes()[i]).downstream_bus == bus
    }

    /// The root bus pin that a function's pin ends up at.
    pub open spec fn route(&self, bus: u8, device: u8, function: u8, pin: u8) -> Option<
        PciIntxRouteKey,
    > {
        if device >= 32 || function >= 8 || !(1 <= pin <= 4) {
            None
        } else if bus == self.root() {
            Some(PciIntxRouteKey { bus, device, function, pin })
        } else if self.reaches(bus) {
            let i = choose|i: int|
                0 <= i < self.routes().len() && (#[trigger] self.routes()[i]).downstream_bus == bus;
            Some(
                PciIntxRouteKey {
                    bus: self.root(),
                    device: self.routes()[i].root_device,
                    function: self.routes()[i].root_function,
                    pin: swizzle(
                        pin as int,
                        device as int,
                        self.routes()[i].swizzle_offset as int,
                    ) as u8,
                },
            )
        } else {
            None
        }
    }

    /// The root bus pin that a function's pin ends up at.
    pub fn resolve(&self, bus: u8, device: u8, function: u8, pin: u8) -> (result: Option<
        PciIntxRouteKey,
    >)
        requires
            self.wf(),
        ensures
            result == self.route(bus, device, function, pin),
            result matches Some(key) ==> key.bus == self.root() && 1 <= key.pin <= 4,
    {
        if device >= PCI_DEVICES_PER_BUS || function >= PCI_FUNCTIONS_PER_DEVICE || pin < 1 || pin
            > PCI_INTX_PIN_COUNT {
            return None;
        }
        if bus == self.root_bus {
            return Some(PciIntxRouteKey { bus, device, function, pin });
        }
        let mut i: usize = 0;
        while i < self.bridges.len()
            invariant
                i <= self.bridges@.len(),
                self.routes() == self.bridges@,
                self.root() == self.root_bus,
                self.wf(),
                bus != self.root_bus,
                device < 32,
                function < 8,
                1 <= pin <= 4,
                forall|k: int|
                    0 <= k < i ==> (#[trigger] self.bridges@[k]).downstream_bus != bus,
            decreases self.bridges@.len() - i,
        {
            let route = self.bridges[i];
            if route.downstream_bus == bus {
                let sum: u16 = (pin - 1) as u16 + device as u16 + route.swizzle_offset as u16;
                let rooted: u8 = (sum % 4) as u8 + 1;
                let key = PciIntxRouteKey {
                    bus: self.root_bus,
                    device: route.root_device,
                    function: route.root_function,
                    pin: rooted,
                };
                assert(self.routes()[i as int] == route);
                assert forall|k: int|
                    0 <= k < self.routes().len() && (#[trigger] self.routes()[k]).downstream_bus
                        == bus implies k == i by {}
                return Some(key);
            }
            i += 1;
        }
        None
    }
}

/// Going through two bridges one after the other is going through one with the
/// sum of the offsets.
pub proof fn swizzle_composes(pin: int, device: int, bridge: int, offset: int)
    requires
        1 <= pin <= 4,
    ensures
        swizzle(swizzle(pin, device, 0), bridge, offset) == swizzle(pin, device, (bridge + offset) % 4),
        1 <= swizzle(pin, device, offset) <= 4,
{
}

/// Different pins of a function stay different.
pub proof fn swizzle_is_injective(first: int, second: int, device: int, offset: int)
    requires
        1 <= first <= 4,
        1 <= second <= 4,
        swizzle(first, device, offset) == swizzle(second, device, offset),
    ensures
        first == second,
{
}

/// What a message interrupt is allocated for.
#[derive(Clone, Copy, Debug, PartialEq, Eq, Structural)]
pub struct PciMsiTarget {
    pub controller: u32,
    pub device_id: u32,
}

/// A range of requester numbers and the controller that serves it.
#[derive(Clone, Copy, Debug, PartialEq, Eq, Structural)]
pub struct PciMsiMapRoute {
    pub requester_base: u32,
    pub controller: u32,
    pub output_base: Option<u32>,
    pub length: u32,
}

impl PciMsiMapRoute {
    /// A map entry; a controller takes no number or one.
    pub fn new(requester_base: u32, controller: u32, specifier: &[u32], length: u32) -> (result:
        Option<Self>)
        ensures
            result is Some <==> specifier@.len() <= 1 && length != 0,
            result matches Some(route) ==> route == (PciMsiMapRoute {
                requester_base,
                controller,
                output_base: if specifier@.len() == 0 {
                    None
                } else {
                    Some(specifier@[0])
                },
                length,
            }),
    {
        if specifier.len() > 1 || length == 0 {
            return None;
        }
        let output_base = if specifier.len() == 0 {
            None
        } else {
            Some(specifier[0])
        };
        Some(PciMsiMapRoute { requester_base, controller, output_base, length })
    }

    /// Where the entry sends a requester: the masked number picks the entry. A
    /// controller without a number gets the requester unchanged, one with a
    /// number gets the offset added to it.
    pub open spec fn target(self, requester: u32, mask: u32) -> Option<PciMsiTarget> {
        let masked = requester & mask;
        if masked < self.requester_base || masked - self.requester_base >= self.length {
            None
        } else {
            match self.output_base {
                None => Some(PciMsiTarget { controller: self.controller, device_id: requester }),
                Some(base) => if base + (masked - self.requester_base) > u32::MAX {
                    None
                } else {
                    Some(
                        PciMsiTarget {
                            controller: self.controller,
                            device_id: (base + (masked - self.requester_base)) as u32,
                        },
                    )
                },
            }
        }
    }

    pub fn resolve(self, requester: u32, mask: u32) -> (result: Option<PciMsiTarget>)
        ensures
            result == self.target(requester, mask),
    {
        let masked: u32 = requester & mask;
        if masked < self.requester_base {
            return None;
        }
        let offset: u32 = masked - self.requester_base;
        if offset >= self.length {
            return None;
        }
        let device_id: u32 = match self.output_base {
            None => requester,
            Some(base) => match base.checked_add(offset) {
                Some(id) => id,
                None => {
                    return None;
                },
            },
        };
        Some(PciMsiTarget { controller: self.controller, device_id })
    }
}

/// A controller that serves every requester.
#[derive(Clone, Copy, Debug, PartialEq, Eq, Structural)]
pub struct PciMsiParentRoute {
    pub controller: u32,
}

impl PciMsiParentRoute {
    pub fn new(controller: u32, specifier: &[u32]) -> (result: Option<Self>)
        ensures
            result == (if specifier@.len() == 0 {
                Some(PciMsiParentRoute { controller })
            } else {
                None
            }),
    {
        if specifier.len() == 0 {
            Some(PciMsiParentRoute { controller })
        } else {
            None
        }
    }
}

/// Requesters are routed by a map or to a list of controllers, never both.
pub enum PciMsiRoutingMode {
    MsiMap { mask: u32, routes: Vec<PciMsiMapRoute> },
    Parents(Vec<PciMsiParentRoute>),
}

/// The target of the first entry that has one.
pub open spec fn first_target(
    routes: Seq<PciMsiMapRoute>,
    requester: u32,
    mask: u32,
) -> Option<PciMsiTarget>
    decreases routes.len(),
{
    if routes.len() == 0 {
        None
    } else if routes[0].target(requester, mask) is Some {
        routes[0].target(requester, mask)
    } else {
        first_target(routes.skip(1), requester, mask)
    }
}

impl PciMsiRoutingMode {
    /// The targets to try, in order.
    pub open spec fn targets(&self, requester: u32) -> Seq<PciMsiTarget> {
        match self {
            PciMsiRoutingMode::MsiMap { mask, routes } => match first_target(
                routes@,
                requester,
                *mask,
            ) {
                Some(target) => seq![target],
                None => Seq::empty(),
            },
            PciMsiRoutingMode::Parents(parents) => parents@.map_values(
                |parent: PciMsiParentRoute|
                    PciMsiTarget { controller: parent.controller, device_id: requester },
            ),
        }
    }

    /// The targets to try, in order: at most one by a map, all parents else.
    pub fn allocation_targets(&self, requester: u32) -> (targets: Vec<PciMsiTarget>)
        ensures
            targets@ == self.targets(requester),
    {
        let mut targets: Vec<PciMsiTarget> = Vec::new();
        match self {
            PciMsiRoutingMode::MsiMap { mask, routes } => {
                let mut i: usize = 0;
                assert(routes@.skip(0) =~= routes@);
                while i < routes.len()
                    invariant
                        i <= routes@.len(),
                        targets@.len() == 0,
                        first_target(routes@.skip(i as int), requester, *mask) == first_target(
                            routes@,
                            requester,
                            *mask,
                        ),
                        self.targets(requester) == (match first_target(
                            routes@,
                            requester,
                            *mask,
                        ) {
                            Some(target) => seq![target],
                            None => Seq::empty(),
                        }),
                    decreases routes@.len() - i,
                {
                    assert(routes@.skip(i as int)[0] == routes@[i as int]);
                    assert(routes@.skip(i as int).skip(1) =~= routes@.skip(i + 1));
                    if let Some(target) = routes[i].resolve(requester, *mask) {
                        targets.push(target);
                        assert(targets@ =~= seq![target]);
                        return targets;
                    }
                    i += 1;
                }
                assert(targets@ =~= Seq::empty());
            },
            PciMsiRoutingMode::Parents(parents) => {
                let mut i: usize = 0;
                while i < parents.len()
                    invariant
                        i <= parents@.len(),
                        targets@.len() == i,
                        forall|j: int|
                            0 <= j < i ==> #[trigger] targets@[j] == (PciMsiTarget {
                                controller: parents@[j].controller,
                                device_id: requester,
                            }),
                    decreases parents@.len() - i,
                {
                    targets.push(
                        PciMsiTarget { controller: parents[i].controller, device_id: requester },
                    );
                    i += 1;
                }
                assert(targets@ =~= self.targets(requester));
            },
        }
        targets
    }
}

/// A map routes a requester to one controller at most, and to none where no
/// entry takes it.
pub proof fn map_never_falls_back(mode: PciMsiRoutingMode, requester: u32)
    requires
        mode is MsiMap,
    ensures
        mode.targets(requester).len() <= 1,
        (forall|i: int|
            0 <= i < mode->routes@.len() ==> (#[trigger] mode->routes@[i]).target(
                requester,
                mode->mask,
            ) is None) ==> mode.targets(requester).len() == 0,
{
    lemma_first_target(mode->routes@, requester, mode->mask);
}

proof fn lemma_first_target(routes: Seq<PciMsiMapRoute>, requester: u32, mask: u32)
    ensures
        (forall|i: int|
            0 <= i < routes.len() ==> (#[trigger] routes[i]).target(requester, mask) is None)
            ==> first_target(routes, requester, mask) is None,
    decreases routes.len(),
{
    if routes.len() > 0 {
        lemma_first_target(routes.skip(1), requester, mask);
        if forall|i: int|
            0 <= i < routes.len() ==> (#[trigger] routes[i]).target(requester, mask) is None {
            assert forall|i: int| 0 <= i < routes.skip(1).len() implies (#[trigger] routes.skip(
                1,
            )[i]).target(requester, mask) is None by {
                assert(routes.skip(1)[i] == routes[i + 1]);
            }
        }
    }
}

/// An attempt to allocate, and what came of it.
pub ghost struct Attempt<T, E> {
    pub target: PciMsiTarget,
    pub outcome: Result<T, E>,
}

/// What allocates at a target, and the attempts that were made.
pub struct Allocator<T, E, F> {
    allocate: F,
    log: Ghost<Seq<Attempt<T, E>>>,
}

impl<T, E, F: FnMut(PciMsiTarget) -> Result<T, E>> Allocator<T, E, F> {
    /// The attempts that were made so far.
    pub closed spec fn log(&self) -> Seq<Attempt<T, E>> {
        self.log@
    }

    pub closed spec fn the_allocate(&self) -> F {
        self.allocate
    }

    /// The function may be called for these targets, and made the attempts of the log.
    pub open spec fn serves(&self, targets: Seq<PciMsiTarget>) -> bool {
        &&& forall|i: int|
            0 <= i < targets.len() ==> #[trigger] call_requires(
                self.the_allocate(),
                (targets[i],),
            )
        &&& forall|i: int|
            0 <= i < self.log().len() ==> call_ensures(
                self.the_allocate(),
                ((#[trigger] self.log()[i]).target,),
                self.log()[i].outcome,
            )
    }

    /// The function may be called for any target, and made the attempts of the log.
    pub open spec fn serves_all(&self) -> bool {
        &&& forall|target: PciMsiTarget| #[trigger] call_requires(self.the_allocate(), (target,))
        &&& self.serves(Seq::empty())
    }

    pub fn new(allocate: F) -> (allocator: Self)
        ensures
            allocator.log() == Seq::<Attempt<T, E>>::empty(),
            allocator.the_allocate() == allocate,
    {
        Allocator { allocate, log: Ghost(Seq::empty()) }
    }

    /// Makes an attempt.
    pub fn attempt(&mut self, target: PciMsiTarget) -> (outcome: Result<T, E>)
        requires
            call_requires(old(self).the_allocate(), (target,)),
        ensures
            final(self).the_allocate() == old(self).the_allocate(),
            final(self).log() == old(self).log().push(Attempt { target, outcome }),
            call_ensures(old(self).the_allocate(), (target,), outcome),
    {
        let outcome = (self.allocate)(target);
        self.log = Ghost(self.log@.push(Attempt { target, outcome }));
        outcome
    }
}

/// Whether these are the attempts at targets, and this their result. The targets are
/// tried in order, once each. The first success is the result, and the last attempt;
/// there is none only if every target was refused.
pub open spec fn attempted<T, E>(
    targets: Seq<PciMsiTarget>,
    attempts: Seq<Attempt<T, E>>,
    result: Option<T>,
) -> bool {
    &&& attempts.len() <= targets.len()
    &&& forall|i: int|
        0 <= i < attempts.len() ==> (#[trigger] attempts[i]).target == targets[i]
    &&& match result {
        Some(value) => {
            &&& attempts.len() > 0
            &&& attempts.last().outcome == Ok::<T, E>(value)
            &&& forall|i: int|
                0 <= i < attempts.len() - 1 ==> (#[trigger] attempts[i]).outcome is Err
        },
        None => {
            &&& attempts.len() == targets.len()
            &&& forall|i: int|
                0 <= i < attempts.len() ==> (#[trigger] attempts[i]).outcome is Err
        },
    }
}

/// Tries the targets in order until an allocation succeeds.
pub fn allocate_traced<T, E, F: FnMut(PciMsiTarget) -> Result<T, E>>(
    targets: &[PciMsiTarget],
    allocator: &mut Allocator<T, E, F>,
) -> (result: Option<T>)
    requires
        old(allocator).serves(targets@),
    ensures
        final(allocator).serves(targets@),
        final(allocator).the_allocate() == old(allocator).the_allocate(),
        exists|attempts: Seq<Attempt<T, E>>| #[trigger]
            attempted(targets@, attempts, result) && final(allocator).log() == old(allocator).log() + attempts,
{
    let ghost start = allocator.log();
    let ghost mut attempts: Seq<Attempt<T, E>> = Seq::empty();
    assert(start + attempts =~= start);
    let mut i: usize = 0;
    while i < targets.len()
        invariant
            i <= targets@.len(),
            allocator.serves(targets@),
            allocator.the_allocate() == old(allocator).the_allocate(),
            start == old(allocator).log(),
            allocator.log() == start + attempts,
            attempts.len() == i,
            forall|k: int|
                0 <= k < i ==> (#[trigger] attempts[k]).target == targets@[k]
                    && attempts[k].outcome is Err,
        decreases targets@.len() - i,
    {
        let outcome = allocator.attempt(targets[i]);
        proof {
            attempts = attempts.push(Attempt { target: targets@[i as int], outcome });
            assert(allocator.log() =~= start + attempts);
        }
        match outcome {
            Ok(value) => {
                assert(attempted(targets@, attempts, Some(value)));
                return Some(value);
            },
            Err(_) => {},
        }
        i += 1;
    }
    assert(attempted(targets@, attempts, None));
    None
}

/// Whether each of these attempts may have been made of a function.
pub open spec fn all_attempted<T, E, F: FnMut(PciMsiTarget) -> Result<T, E>>(
    allocate: F,
    attempts: Seq<Attempt<T, E>>,
) -> bool {
    forall|i: int|
        0 <= i < attempts.len() ==> call_ensures(
            allocate,
            ((#[trigger] attempts[i]).target,),
            attempts[i].outcome,
        )
}

/// Tries the targets in order until an allocation succeeds: the function is called for
/// the attempts, in their order, and not otherwise.
pub fn allocate_first_available<T, E, F: FnMut(PciMsiTarget) -> Result<T, E>>(
    targets: &[PciMsiTarget],
    allocate: F,
) -> (result: Option<T>)
    requires
        forall|i: int|
            0 <= i < targets@.len() ==> #[trigger] call_requires(allocate, (targets@[i],)),
    ensures
        exists|attempts: Seq<Attempt<T, E>>| #[trigger]
            attempted(targets@, attempts, result) && all_attempted(allocate, attempts),
{
    let mut allocator = Allocator::new(allocate);
    let result = allocate_traced(targets, &mut allocator);
    proof {
        let attempts = choose|attempts: Seq<Attempt<T, E>>| #[trigger]
            attempted(targets@, attempts, result) && allocator.log() == Seq::<
                Attempt<T, E>,
            >::empty() + attempts;
        assert(allocator.log() =~= attempts);
        assert(all_attempted(allocate, attempts));
        assert(attempted(targets@, attempts, result));
    }
    result
}

} // verus!
