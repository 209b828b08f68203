//! Configuration space and root port interrupts of the LS2K host bridge.

use vstd::prelude::*;

verus! {

pub const TYPE1_ACCESS: usize = 0x1000_0000;

pub const CONFIG_SPACE_SIZE: u16 = 0x1000;

pub const FUNCTIONS_PER_DEVICE: u8 = 8;

pub const DEVICES_PER_BUS: u8 = 32;

pub const ROOT_DEVICE_FIRST: u8 = 9;

pub const ROOT_DEVICE_LAST: u8 = 14;

#[derive(Clone, Copy, Debug, PartialEq, Eq, Structural)]
pub enum Ls2kConfigError {
    UnalignedWindow,
    InvalidBusRange,
    WindowTooSmall,
    AddressOverflow,
    BusOutOfRange,
    InvalidDevice,
    InvalidFunction,
    DeviceAbsent,
    InvalidRegister,
    InvalidAccessWidth,
    UnalignedAccess,
    InvalidIrqRoute,
    DuplicateIrqRoute,
}

/// The interrupt of a root port.
#[derive(Clone, Copy, Debug, PartialEq, Eq, Structural)]
pub struct Ls2kRootIrqRoute {
    pub device: u8,
    pub function: u8,
    pub parent: u32,
    pub specifier: u32,
}

impl Ls2kRootIrqRoute {
    pub fn new(device: u8, function: u8, parent: u32, specifier: u32) -> (route: Self)
        ensures
            route == (Ls2kRootIrqRoute { device, function, parent, specifier }),
    {
        Ls2kRootIrqRoute { device, function, parent, specifier }
    }

    /// Whether the route is for function zero of a root port and has a parent.
    pub open spec fn valid(self) -> bool {
        9 <= self.device <= 14 && self.function == 0 && self.parent != 0
    }
}

/// The interrupts of the six root ports.
#[derive(Clone, Copy, Debug, PartialEq, Eq)]
pub struct Ls2kRootIrqTable {
    root_bus: u8,
    routes: [Option<Ls2kRootIrqRoute>; 6],
}

/// Whether no earlier route is for the same port as route `at`.
pub open spec fn first_of_device(routes: Seq<Ls2kRootIrqRoute>, at: int) -> bool {
    forall|j: int| 0 <= j < at ==> (#[trigger] routes[j]).device != routes[at].device
}

/// The first thing that is wrong with a list of routes.
pub open spec fn route_error(routes: Seq<Ls2kRootIrqRoute>, from: int) -> Option<Ls2kConfigError>
    decreases routes.len() - from,
{
    if from >= routes.len() {
        None
    } else if !routes[from].valid() {
        Some(Ls2kConfigError::InvalidIrqRoute)
    } else if !first_of_device(routes, from) {
        Some(Ls2kConfigError::DuplicateIrqRoute)
    } else {
        route_error(routes, from + 1)
    }
}

impl Ls2kRootIrqTable {
    pub closed spec fn root(&self) -> u8 {
        self.root_bus
    }

    /// The routes by port.
    pub closed spec fn slots(&self) -> Seq<Option<Ls2kRootIrqRoute>> {
        self.routes@
    }

    /// Whether the table holds exactly the routes of `routes`.
    pub open spec fn holds(&self, routes: Seq<Ls2kRootIrqRoute>) -> bool {
        &&& self.slots().len() == 6
        &&& forall|i: int|
            0 <= i < routes.len() ==> self.slots()[(#[trigger] routes[i]).device - 9] == Some(
                routes[i],
            )
        &&& forall|slot: int|
            0 <= slot < 6 ==> (#[trigger] self.slots()[slot] matches Some(route) ==> route.device
                == slot + 9 && route.valid() && routes.contains(route))
    }

    pub fn new(root_bus: u8, routes: &[Ls2kRootIrqRoute]) -> (result: Result<Self, Ls2kConfigError>)
        ensures
            match result {
                Ok(table) => routes@.len() > 0 && route_error(routes@, 0) is None && table.root()
                    == root_bus && table.holds(routes@),
                Err(error) => error == (if routes@.len() == 0 {
                    Ls2kConfigError::InvalidIrqRoute
                } else {
                    route_error(routes@, 0)->0
                }) && (routes@.len() > 0 ==> route_error(routes@, 0) is Some),
            },
    {
        if routes.len() == 0 {
            return Err(Ls2kConfigError::InvalidIrqRoute);
        }
        let mut table = Ls2kRootIrqTable { root_bus, routes: [None; 6] };
        let mut i: usize = 0;
        while i < routes.len()
            invariant
                i <= routes@.len(),
                routes@.len() > 0,
                table.root_bus == root_bus,
                forall|j: int| 0 <= j < i ==> (#[trigger] routes@[j]).valid(),
                forall|j: int|
                    0 <= j < i ==> table.routes@[(#[trigger] routes@[j]).device - 9] == Some(
                        routes@[j],
                    ),
                forall|slot: int|
                    0 <= slot < 6 ==> (#[trigger] table.routes@[slot] matches Some(route) ==> {
                        &&& route.device == slot + 9
                        &&& route.valid()
                        &&& exists|j: int| 0 <= j < i && routes@[j] == route
                    }),
                route_error(routes@, 0) == route_error(routes@, i as int),
            decreases routes@.len() - i,
        {
            let route = routes[i];
            if route.device < ROOT_DEVICE_FIRST || route.device > ROOT_DEVICE_LAST || route.function
                != 0 || route.parent == 0 {
                return Err(Ls2kConfigError::InvalidIrqRoute);
            }
            let slot: usize = (route.device - ROOT_DEVICE_FIRST) as usize;
            if table.routes[slot].is_some() {
                proof {
                    let earlier = table.routes@[slot as int]->0;
                    let j = choose|j: int| 0 <= j < i && routes@[j] == earlier;
                    assert(routes@[j].device == routes@[i as int].device);
                    assert(!first_of_device(routes@, i as int));
                }
                return Err(Ls2kConfigError::DuplicateIrqRoute);
            }
            let ghost before = table.routes@;
            proof {
                assert forall|j: int| 0 <= j < i implies (#[trigger] routes@[j]).device
                    != routes@[i as int].device by {
                    assert(before[routes@[j].device - 9] == Some(routes@[j]));
                }
                assert(first_of_device(routes@, i as int));
            }
            table.routes[slot] = Some(route);
            i += 1;
            proof {
                assert forall|s: int| 0 <= s < 6 implies (#[trigger] table.routes@[s] matches Some(
                    found,
                ) ==> {
                    &&& found.device == s + 9
                    &&& found.valid()
                    &&& exists|j: int| 0 <= j < i && routes@[j] == found
                }) by {
                    if s == slot {
                        assert(routes@[i - 1] == route);
                    } else {
                        assert(table.routes@[s] == before[s]);
                    }
                }
            }
        }
        Ok(table)
    }

    /// Parent and number of the interrupt of a root port.
    pub fn resolve(self, bus: u8, device: u8, function: u8) -> (result: Option<(u32, u32)>)
        ensures
            result == (if bus != self.root() || device < 9 || device > 14 {
                None
            } else {
                match self.slots()[device - 9] {
                    Some(route) => if route.function == function {
                        Some((route.parent, route.specifier))
                    } else {
                        None
                    },
                    None => None,
                }
            }),
    {
        if bus != self.root_bus || device < ROOT_DEVICE_FIRST || device > ROOT_DEVICE_LAST {
            return None;
        }
        let slot: usize = (device - ROOT_DEVICE_FIRST) as usize;
        match self.routes[slot] {
            Some(route) => if route.function == function {
                Some((route.parent, route.specifier))
            } else {
                None
            },
            None => None,
        }
    }

    /// The number of ports with an interrupt.
    pub open spec fn count(slots: Seq<Option<Ls2kRootIrqRoute>>) -> nat
        decreases slots.len(),
    {
        if slots.len() == 0 {
            0
        } else {
            Self::count(slots.drop_last()) + (if slots.last() is Some {
                1nat
            } else {
                0nat
            })
        }
    }

    pub fn len(self) -> (len: usize)
        ensures
            len == Self::count(self.slots()),
            len <= 6,
    {
        let mut found: usize = 0;
        let mut i: usize = 0;
        assert(self.routes@.take(0) =~= Seq::empty());
        while i < 6
            invariant
                i <= 6,
                found <= i,
                found == Self::count(self.routes@.take(i as int)),
            decreases 6 - i,
        {
            assert(self.routes@.take(i + 1).drop_last() =~= self.routes@.take(i as int));
            if self.routes[i].is_some() {
                found += 1;
            }
            i += 1;
        }
        assert(self.routes@.take(6) =~= self.routes@);
        found
    }
}

/// A route that went into a table comes out of it.
pub proof fn table_resolves_its_routes(
    table: Ls2kRootIrqTable,
    routes: Seq<Ls2kRootIrqRoute>,
    i: int,
)
    requires
        table.holds(routes),
        0 <= i < routes.len(),
        routes[i].valid(),
    ensures
        table.slots()[routes[i].device - 9] == Some(routes[i]),
{
}

/// A table has as many routes as went into it.
pub proof fn table_counts_its_routes(table: Ls2kRootIrqTable, routes: Seq<Ls2kRootIrqRoute>)
    requires
        table.holds(routes),
        route_error(routes, 0) is None,
    ensures
        Ls2kRootIrqTable::count(table.slots()) == routes.len(),
{
    lemma_routes_valid(routes, 0);
    lemma_count_slots(table.slots(), routes, 6);
    assert(table.slots().take(6) =~= table.slots());
    lemma_below_all(routes);
}

/// The number of routes whose port comes before port `9 + bound`.
spec fn below(routes: Seq<Ls2kRootIrqRoute>, bound: int) -> nat
    decreases routes.len(),
{
    if routes.len() == 0 {
        0
    } else {
        below(routes.drop_last(), bound) + (if routes.last().device - 9 < bound {
            1nat
        } else {
            0nat
        })
    }
}

proof fn lemma_routes_valid(routes: Seq<Ls2kRootIrqRoute>, from: int)
    requires
        route_error(routes, from) is None,
        0 <= from <= routes.len(),
    ensures
        forall|i: int|
            from <= i < routes.len() ==> (#[trigger] routes[i]).valid() && first_of_device(
                routes,
                i,
            ),
    decreases routes.len() - from,
{
    if from < routes.len() {
        lemma_routes_valid(routes, from + 1);
    }
}

proof fn lemma_below_all(routes: Seq<Ls2kRootIrqRoute>)
    requires
        forall|i: int| 0 <= i < routes.len() ==> (#[trigger] routes[i]).valid(),
    ensures
        below(routes, 6) == routes.len(),
    decreases routes.len(),
{
    if routes.len() > 0 {
        let front = routes.drop_last();
        assert forall|i: int| 0 <= i < front.len() implies (#[trigger] front[i]).valid() by {
            assert(front[i] == routes[i]);
        }
        lemma_below_all(front);
        assert(routes[routes.len() - 1].valid());
    }
}

proof fn lemma_below_none(routes: Seq<Ls2kRootIrqRoute>)
    requires
        forall|i: int| 0 <= i < routes.len() ==> (#[trigger] routes[i]).valid(),
    ensures
        below(routes, 0) == 0,
    decreases routes.len(),
{
    if routes.len() > 0 {
        let front = routes.drop_last();
        assert forall|i: int| 0 <= i < front.len() implies (#[trigger] front[i]).valid() by {
            assert(front[i] == routes[i]);
        }
        lemma_below_none(front);
        assert(routes[routes.len() - 1].valid());
    }
}

/// One port more adds its route, if it has one.
proof fn lemma_below_step(routes: Seq<Ls2kRootIrqRoute>, bound: int)
    requires
        forall|i: int|
            0 <= i < routes.len() ==> (#[trigger] routes[i]).valid() && first_of_device(routes, i),
    ensures
        below(routes, bound + 1) == below(routes, bound) + (if exists|i: int|
            0 <= i < routes.len() && (#[trigger] routes[i]).device - 9 == bound {
            1nat
        } else {
            0nat
        }),
    decreases routes.len(),
{
    if routes.len() > 0 {
        let front = routes.drop_last();
        let last = routes.len() - 1;
        assert forall|i: int| 0 <= i < front.len() implies (#[trigger] front[i]).valid()
            && first_of_device(front, i) by {
            assert(front[i] == routes[i]);
            assert(first_of_device(routes, i));
            assert forall|j: int| 0 <= j < i implies (#[trigger] front[j]).device
                != front[i].device by {
                assert(routes[j] == front[j]);
            }
        }
        lemma_below_step(front, bound);
        assert(first_of_device(routes, last));
        if routes[last].device - 9 == bound {
            assert forall|i: int| 0 <= i < front.len() implies (#[trigger] front[i]).device - 9
                != bound by {
                assert(routes[i] == front[i]);
            }
        } else if exists|i: int|
            0 <= i < routes.len() && (#[trigger] routes[i]).device - 9 == bound {
            let i = choose|i: int|
                0 <= i < routes.len() && (#[trigger] routes[i]).device - 9 == bound;
            assert(front[i] == routes[i]);
        } else {
            assert forall|i: int| 0 <= i < front.len() implies (#[trigger] front[i]).device - 9
                != bound by {
                assert(routes[i] == front[i]);
            }
        }
    }
}

proof fn lemma_count_slots(
    slots: Seq<Option<Ls2kRootIrqRoute>>,
    routes: Seq<Ls2kRootIrqRoute>,
    bound: int,
)
    requires
        slots.len() == 6,
        0 <= bound <= 6,
        forall|i: int|
            0 <= i < routes.len() ==> (#[trigger] routes[i]).valid() && first_of_device(routes, i),
        forall|i: int|
            0 <= i < routes.len() ==> slots[(#[trigger] routes[i]).device - 9] == Some(routes[i]),
        forall|slot: int|
            0 <= slot < 6 ==> (#[trigger] slots[slot] matches Some(route) ==> route.device == slot
                + 9 && routes.contains(route)),
    ensures
        Ls2kRootIrqTable::count(slots.take(bound)) == below(routes, bound),
    decreases bound,
{
    if bound == 0 {
        assert(slots.take(0) =~= Seq::empty());
        lemma_below_none(routes);
    } else {
        lemma_count_slots(slots, routes, bound - 1);
        lemma_below_step(routes, bound - 1);
        assert(slots.take(bound).drop_last() =~= slots.take(bound - 1));
        let slot = slots[bound - 1];
        if slot is Some {
            let i = choose|i: int| 0 <= i < routes.len() && routes[i] == slot->0;
            assert(routes[i].device - 9 == bound - 1);
        } else {
            assert forall|i: int| 0 <= i < routes.len() implies (#[trigger] routes[i]).device - 9
                != bound - 1 by {
                assert(slots[routes[i].device - 9] == Some(routes[i]));
            }
        }
    }
}

/// Place of a register in the window: function and low register bits at the
/// bottom, the bus above, the high register bits above that. Accesses behind the
/// root bus carry a flag and the bus number.
pub open spec fn offset_of(root_bus: u8, bus: u8, device: u8, function: u8, register: u16) -> int {
    (device * 8 + function) * 0x100 + register % 0x100 + register / 0x100 % 0x10 * 0x100_0000 + (
    if bus != root_bus {
        TYPE1_ACCESS + bus * 0x1_0000
    } else {
        0
    })
}

fn config_offset(root_bus: u8, bus: u8, device: u8, function: u8, register: u16) -> (offset: usize)
    requires
        device < 32,
        function < 8,
    ensures
        offset == offset_of(root_bus, bus, device, function, register),
{
    let devfn: usize = device as usize * 8 + function as usize;
    let mut offset: usize = devfn * 0x100 + (register % 0x100) as usize + (register / 0x100
        % 0x10) as usize * 0x100_0000;
    if bus != root_bus {
        offset = offset + TYPE1_ACCESS + bus as usize * 0x1_0000;
    }
    offset
}

/// Number of bytes that a window needs to reach every function of its buses.
pub open spec fn required_size(bus_start: u8, bus_end: u8) -> int {
    if bus_start == bus_end {
        offset_of(bus_start, bus_start, ROOT_DEVICE_LAST, 7, 0x0fff) + 1
    } else {
        offset_of(bus_start, bus_end, 0, 7, 0x0fff) + 1
    }
}

/// The window through which configuration space is reached.
#[derive(Clone, Copy, Debug, PartialEq, Eq, Structural)]
pub struct Ls2kConfigWindow {
    pub base: usize,
    pub size: usize,
    pub bus_start: u8,
    pub bus_end: u8,
}

impl Ls2kConfigWindow {
    /// The window is aligned, fits the address range and reaches all its buses.
    pub open spec fn wf(self) -> bool {
        &&& self.base % 4 == 0
        &&& self.bus_start <= self.bus_end
        &&& self.base + self.size <= usize::MAX
        &&& self.size >= required_size(self.bus_start, self.bus_end)
    }

    pub fn new(base: usize, size: usize, bus_start: u8, bus_end: u8) -> (result: Result<
        Self,
        Ls2kConfigError,
    >)
        ensures
            match result {
                Ok(window) => window.wf() && window == (Ls2kConfigWindow {
                    base,
                    size,
                    bus_start,
                    bus_end,
                }),
                Err(error) => error == (if base % 4 != 0 {
                    Ls2kConfigError::UnalignedWindow
                } else if bus_start > bus_end {
                    Ls2kConfigError::InvalidBusRange
                } else if base + size > usize::MAX {
                    Ls2kConfigError::AddressOverflow
                } else {
                    Ls2kConfigError::WindowTooSmall
                }) && !(Ls2kConfigWindow { base, size, bus_start, bus_end }).wf(),
            },
    {
        if base % 4 != 0 {
            return Err(Ls2kConfigError::UnalignedWindow);
        }
        if bus_start > bus_end {
            return Err(Ls2kConfigError::InvalidBusRange);
        }
        if base.checked_add(size).is_none() {
            return Err(Ls2kConfigError::AddressOverflow);
        }
        let last: usize = if bus_start == bus_end {
            config_offset(bus_start, bus_start, ROOT_DEVICE_LAST, 7, 0x0fff)
        } else {
            config_offset(bus_start, bus_end, 0, 7, 0x0fff)
        };
        if size < last + 1 {
            return Err(Ls2kConfigError::WindowTooSmall);
        }
        Ok(Ls2kConfigWindow { base, size, bus_start, bus_end })
    }

    /// What is wrong with an access, if anything.
    pub open spec fn access_error(
        self,
        bus: u8,
        device: u8,
        function: u8,
        register: u16,
        width: usize,
    ) -> Option<Ls2kConfigError> {
        if bus < self.bus_start || bus > self.bus_end {
            Some(Ls2kConfigError::BusOutOfRange)
        } else if device >= 32 {
            Some(Ls2kConfigError::InvalidDevice)
        } else if function >= 8 {
            Some(Ls2kConfigError::InvalidFunction)
        } else if bus == self.bus_start && (device < 9 || device > 14) {
            Some(Ls2kConfigError::DeviceAbsent)
        } else if bus != self.bus_start && device != 0 {
            Some(Ls2kConfigError::DeviceAbsent)
        } else if register >= 0x1000 {
            Some(Ls2kConfigError::InvalidRegister)
        } else if width != 1 && width != 2 && width != 4 {
            Some(Ls2kConfigError::InvalidAccessWidth)
        } else if register as int % width as int != 0 {
            Some(Ls2kConfigError::UnalignedAccess)
        } else {
            None
        }
    }

    /// The address of a register.
    pub fn address(self, bus: u8, device: u8, function: u8, register: u16, width: usize) -> (result:
        Result<usize, Ls2kConfigError>)
        requires
            self.wf(),
        ensures
            match result {
                Ok(address) => {
                    &&& self.access_error(bus, device, function, register, width) is None
                    &&& address == self.base + offset_of(
                        self.bus_start,
                        bus,
                        device,
                        function,
                        register,
                    )
                    &&& self.base <= address
                    &&& address + width <= self.base + self.size
                },
                Err(error) => self.access_error(bus, device, function, register, width) == Some(
                    error,
                ),
            },
    {
        if bus < self.bus_start || bus > self.bus_end {
            return Err(Ls2kConfigError::BusOutOfRange);
        }
        if device >= DEVICES_PER_BUS {
            return Err(Ls2kConfigError::InvalidDevice);
        }
        if function >= FUNCTIONS_PER_DEVICE {
            return Err(Ls2kConfigError::InvalidFunction);
        }
        if bus == self.bus_start {
            if device < ROOT_DEVICE_FIRST || device > ROOT_DEVICE_LAST {
                return Err(Ls2kConfigError::DeviceAbsent);
            }
        } else if device != 0 {
            return Err(Ls2kConfigError::DeviceAbsent);
        }
        if register >= CONFIG_SPACE_SIZE {
            return Err(Ls2kConfigError::InvalidRegister);
        }
        if width != 1 && width != 2 && width != 4 {
            return Err(Ls2kConfigError::InvalidAccessWidth);
        }
        if register as usize % width != 0 {
            return Err(Ls2kConfigError::UnalignedAccess);
        }
        if register as usize + width > CONFIG_SPACE_SIZE as usize {
            return Err(Ls2kConfigError::InvalidRegister);
        }
        let offset: usize = config_offset(self.bus_start, bus, device, function, register);
        if offset + width > self.size {
            return Err(Ls2kConfigError::WindowTooSmall);
        }
        Ok(self.base + offset)
    }
}

/// No two registers share a place in the window.
pub proof fn offsets_are_distinct(
    root_bus: u8,
    bus: u8,
    device: u8,
    function: u8,
    register: u16,
    other_bus: u8,
    other_device: u8,
    other_function: u8,
    other_register: u16,
)
    requires
        device < 32,
        function < 8,
        register < 0x1000,
        other_device < 32,
        other_function < 8,
        other_register < 0x1000,
        offset_of(root_bus, bus, device, function, register) == offset_of(
            root_bus,
            other_bus,
            other_device,
            other_function,
            other_register,
        ),
    ensures
        bus == other_bus,
        device == other_device,
        function == other_function,
        register == other_register,
{
}

} // verus!
