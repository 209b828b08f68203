//! Tables that are looked up by segment and bus.

use vstd::prelude::*;

verus! {

/// The buses of a host.
#[derive(Clone, Copy, PartialEq, Eq, Structural, Debug)]
pub struct PciHostBusRange {
    pub segment: u16,
    pub bus_start: u8,
    pub bus_end: u8,
}

impl PciHostBusRange {
    pub open spec fn wf(self) -> bool {
        self.bus_start <= self.bus_end
    }

    /// Whether a bus belongs to the host.
    pub open spec fn holds(self, segment: u16, bus: u8) -> bool {
        self.segment == segment && self.bus_start <= bus <= self.bus_end
    }

    /// Whether two hosts have a bus in common.
    pub open spec fn meets(self, other: Self) -> bool {
        self.segment == other.segment && self.bus_start <= other.bus_end && other.bus_start
            <= self.bus_end
    }

    pub fn new(segment: u16, bus_start: u8, bus_end: u8) -> (result: Option<Self>)
        ensures
            result == (if bus_start <= bus_end {
                Some(PciHostBusRange { segment, bus_start, bus_end })
            } else {
                None
            }),
    {
        if bus_start <= bus_end {
            Some(PciHostBusRange { segment, bus_start, bus_end })
        } else {
            None
        }
    }

    pub fn overlaps(self, other: Self) -> (result: bool)
        ensures
            result == self.meets(other),
    {
        self.segment == other.segment && self.bus_start <= other.bus_end && other.bus_start
            <= self.bus_end
    }
}

/// Values by host; no two hosts share a bus.
pub struct PciHostTable<T> {
    entries: Vec<(PciHostBusRange, T)>,
}

impl<T> View for PciHostTable<T> {
    type V = Seq<(PciHostBusRange, T)>;

    closed spec fn view(&self) -> Seq<(PciHostBusRange, T)> {
        self.entries@
    }
}

impl<T> PciHostTable<T> {
    /// Every bus belongs to one host at most.
    pub open spec fn wf(&self) -> bool {
        &&& forall|i: int| 0 <= i < self@.len() ==> (#[trigger] self@[i]).0.wf()
        &&& forall|i: int, j: int|
            0 <= i < j < self@.len() ==> !(#[trigger] self@[i]).0.meets((#[trigger] self@[j]).0)
    }

    pub fn new() -> (table: Self)
        ensures
            table.wf(),
            table@.len() == 0,
    {
        PciHostTable { entries: Vec::new() }
    }

    pub fn is_empty(&self) -> (empty: bool)
        ensures
            empty == (self@.len() == 0),
    {
        self.entries.len() == 0
    }

    pub fn len(&self) -> (len: usize)
        ensures
            len == self@.len(),
    {
        self.entries.len()
    }

    /// The value at a position.
    pub fn value(&self, index: usize) -> (value: &T)
        requires
            index < self@.len(),
        ensures
            *value == self@[index as int].1,
    {
        &self.entries[index].1
    }

    /// Adds a host, unless one of its buses belongs to another one.
    pub fn insert(&mut self, key: PciHostBusRange, value: T) -> (ok: bool)
        requires
            old(self).wf(),
            key.wf(),
        ensures
            final(self).wf(),
            ok == (forall|i: int|
                0 <= i < old(self)@.len() ==> !(#[trigger] old(self)@[i]).0.meets(key)),
            final(self)@ == (if ok {
                old(self)@.push((key, value))
            } else {
                old(self)@
            }),
    {
        let mut i: usize = 0;
        while i < self.entries.len()
            invariant
                i <= self.entries@.len(),
                *self == *old(self),
                self.wf(),
                forall|j: int| 0 <= j < i ==> !(#[trigger] self@[j]).0.meets(key),
            decreases self.entries@.len() - i,
        {
            if self.entries[i].0.overlaps(key) {
                assert(self@[i as int].0.meets(key));
                return false;
            }
            i += 1;
        }
        self.entries.push((key, value));
        true
    }

    /// The position of the host that a bus belongs to.
    pub open spec fn found_at(&self, segment: u16, bus: u8, index: int) -> bool {
        0 <= index < self@.len() && self@[index].0.holds(segment, bus)
    }

    /// The place of the host that a bus belongs to.
    pub fn find(&self, segment: u16, bus: u8) -> (result: Option<usize>)
        ensures
            match result {
                Some(index) => self.found_at(segment, bus, index as int),
                None => forall|i: int| !#[trigger] self.found_at(segment, bus, i),
            },
    {
        let mut i: usize = 0;
        while i < self.entries.len()
            invariant
                i <= self.entries@.len(),
                forall|j: int| 0 <= j < i ==> !#[trigger] self.found_at(segment, bus, j),
            decreases self.entries@.len() - i,
        {
            let key = self.entries[i].0;
            if key.segment == segment && key.bus_start <= bus && bus <= key.bus_end {
                return Some(i);
            }
            i += 1;
        }
        None
    }

    /// The value at a place, to be changed.
    pub fn value_mut(&mut self, index: usize) -> (value: &mut T)
        requires
            index < old(self)@.len(),
        ensures
            *value == old(self)@[index as int].1,
            final(self)@ == old(self)@.update(
                index as int,
                (old(self)@[index as int].0, *final(value)),
            ),
    {
        &mut self.entries[index].1
    }

    /// The value of the host that a bus belongs to.
    pub fn get(&self, segment: u16, bus: u8) -> (result: Option<&T>)
        requires
            self.wf(),
        ensures
            match result {
                Some(value) => exists|i: int| #[trigger]
                    self.found_at(segment, bus, i) && *value == self@[i].1,
                None => forall|i: int| !#[trigger] self.found_at(segment, bus, i),
            },
    {
        let mut i: usize = 0;
        while i < self.entries.len()
            invariant
                i <= self.entries@.len(),
                forall|j: int| 0 <= j < i ==> !#[trigger] self.found_at(segment, bus, j),
            decreases self.entries@.len() - i,
        {
            let key = self.entries[i].0;
            if key.segment == segment && key.bus_start <= bus && bus <= key.bus_end {
                assert(self.found_at(segment, bus, i as int));
                return Some(&self.entries[i].1);
            }
            i += 1;
        }
        None
    }

    /// Takes out the host with exactly these buses.
    pub fn remove_exact(&mut self, key: PciHostBusRange) -> (result: Option<T>)
        requires
            old(self).wf(),
        ensures
            final(self).wf(),
            match result {
                Some(value) => exists|i: int|
                    0 <= i < old(self)@.len() && old(self)@[i] == (key, value) && final(self)@
                        == #[trigger] old(self)@.remove(i),
                None => final(self)@ == old(self)@ && forall|i: int|
                    0 <= i < old(self)@.len() ==> (#[trigger] old(self)@[i]).0 != key,
            },
    {
        let mut i: usize = 0;
        while i < self.entries.len()
            invariant
                i <= self.entries@.len(),
                *self == *old(self),
                self.wf(),
                forall|j: int| 0 <= j < i ==> (#[trigger] self@[j]).0 != key,
            decreases self.entries@.len() - i,
        {
            if self.entries[i].0 == key {
                let ghost before = self@;
                let entry = self.entries.remove(i);
                proof {
                    assert(self@ == before.remove(i as int));
                    assert forall|a: int, b: int| 0 <= a < b < self@.len() implies !(
                    #[trigger] self@[a]).0.meets((#[trigger] self@[b]).0) by {
                        let x = if a < i {
                            a
                        } else {
                            a + 1
                        };
                        let y = if b < i {
                            b
                        } else {
                            b + 1
                        };
                        assert(self@[a] == before[x] && self@[b] == before[y]);
                    }
                    assert forall|a: int| 0 <= a < self@.len() implies (
                    #[trigger] self@[a]).0.wf() by {
                        let x = if a < i {
                            a
                        } else {
                            a + 1
                        };
                        assert(self@[a] == before[x]);
                    }
                }
                return Some(entry.1);
            }
            i += 1;
        }
        None
    }
}

/// Looking up a bus finds one host at most.
pub proof fn lookup_is_unique<T>(table: PciHostTable<T>, segment: u16, bus: u8, i: int, j: int)
    requires
        table.wf(),
        table.found_at(segment, bus, i),
        table.found_at(segment, bus, j),
    ensures
        i == j,
{
    if i < j {
        assert(table@[i].0.meets(table@[j].0));
    } else if j < i {
        assert(table@[j].0.meets(table@[i].0));
    }
}

} // verus!
