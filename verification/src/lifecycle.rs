//! Starting and ending a module that registers drivers.

use vstd::prelude::*;

verus! {

/// The module runs already, or something of it cannot be ended.
pub const CODE_BUSY: i32 = -16;

/// The drivers could not be registered.
pub const CODE_NO_DEVICE: i32 = -19;

/// What came of ending a registration.
#[derive(Clone, Copy, PartialEq, Eq, Structural, Debug)]
pub enum Unregistered {
    Done,
    /// It had ended before.
    Missing,
    Failed,
}

/// The registrations of a module; a driver that is not registered has none.
pub struct Registrations {
    pub handles: Vec<Option<u64>>,
}

/// Whether any driver is registered.
pub open spec fn any_held(handles: Seq<Option<u64>>) -> bool {
    exists|i: int| 0 <= i < handles.len() && (#[trigger] handles[i]) is Some
}

/// The registrations of the first drivers, the last one first.
pub open spec fn held_down(handles: Seq<Option<u64>>, count: int) -> Seq<(usize, u64)>
    decreases count,
{
    if count <= 0 {
        Seq::empty()
    } else {
        let rest = held_down(handles, count - 1);
        match handles[count - 1] {
            Some(handle) => seq![((count - 1) as usize, handle)] + rest,
            None => rest,
        }
    }
}

impl Registrations {
    /// A module with room for some drivers, none of which is registered.
    pub fn new(count: usize) -> (registrations: Self)
        ensures
            registrations.handles@ == Seq::new(count as nat, |i: int| None::<u64>),
    {
        let mut handles: Vec<Option<u64>> = Vec::new();
        let mut i: usize = 0;
        while i < count
            invariant
                i <= count,
                handles@ == Seq::new(i as nat, |k: int| None::<u64>),
            decreases count - i,
        {
            handles.push(None);
            i += 1;
            assert(handles@ =~= Seq::new(i as nat, |k: int| None::<u64>));
        }
        Registrations { handles }
    }

    /// Whether any driver is registered.
    pub fn held(&self) -> (held: bool)
        ensures
            held == any_held(self.handles@),
    {
        let mut i: usize = 0;
        while i < self.handles.len()
            invariant
                i <= self.handles@.len(),
                forall|k: int| 0 <= k < i ==> (#[trigger] self.handles@[k]) is None,
            decreases self.handles@.len() - i,
        {
            if self.handles[i].is_some() {
                return true;
            }
            i += 1;
        }
        false
    }

    /// Whether the module may start.
    pub fn may_start(&self) -> (result: Result<(), i32>)
        ensures
            result == if any_held(self.handles@) {
                Err::<(), i32>(CODE_BUSY)
            } else {
                Ok(())
            },
    {
        if self.held() {
            Err(CODE_BUSY)
        } else {
            Ok(())
        }
    }

    /// Takes in what came of registering the drivers.
    pub fn started(&mut self, registered: Option<Vec<u64>>) -> (result: Result<(), i32>)
        ensures
            match registered {
                Some(handles) => {
                    &&& result is Ok
                    &&& final(self).handles@ == Seq::new(
                        handles@.len(),
                        |i: int| Some(handles@[i]),
                    )
                },
                None => {
                    &&& result == Err::<(), i32>(CODE_NO_DEVICE)
                    &&& *final(self) == *old(self)
                },
            },
    {
        match registered {
            None => Err(CODE_NO_DEVICE),
            Some(handles) => {
                let mut held: Vec<Option<u64>> = Vec::new();
                let mut i: usize = 0;
                while i < handles.len()
                    invariant
                        i <= handles@.len(),
                        held@ == Seq::new(i as nat, |k: int| Some(handles@[k])),
                    decreases handles@.len() - i,
                {
                    held.push(Some(handles[i]));
                    i += 1;
                    assert(held@ =~= Seq::new(i as nat, |k: int| Some(handles@[k])));
                }
                self.handles = held;
                Ok(())
            },
        }
    }

    /// The registrations to end, the last one first.
    pub fn to_end(&self) -> (order: Vec<(usize, u64)>)
        ensures
            order@ == held_down(self.handles@, self.handles@.len() as int),
    {
        let mut order: Vec<(usize, u64)> = Vec::new();
        let mut i: usize = self.handles.len();
        assert(order@ + held_down(self.handles@, i as int) =~= held_down(self.handles@, i as int));
        while i > 0
            invariant
                i <= self.handles@.len(),
                order@ + held_down(self.handles@, i as int) == held_down(
                    self.handles@,
                    self.handles@.len() as int,
                ),
            decreases i,
        {
            let ghost before = order@;
            i -= 1;
            if let Some(handle) = self.handles[i] {
                order.push((i, handle));
            }
            assert(order@ + held_down(self.handles@, i as int) =~= before + held_down(
                self.handles@,
                i + 1,
            ));
        }
        assert(order@ + held_down(self.handles@, 0) =~= order@);
        order
    }

    /// Takes in what came of ending one registration: one that is gone is forgotten.
    pub fn ended(&mut self, index: usize, outcome: Unregistered)
        requires
            index < old(self).handles@.len(),
        ensures
            final(self).handles@ == if outcome == Unregistered::Failed {
                old(self).handles@
            } else {
                old(self).handles@.update(index as int, None)
            },
    {
        match outcome {
            Unregistered::Failed => {},
            Unregistered::Done | Unregistered::Missing => {
                self.handles.set(index, None);
            },
        }
    }

    /// Whether the module has ended: nothing of it is registered any more.
    pub fn finished(&self) -> (result: Result<(), i32>)
        ensures
            result == if any_held(self.handles@) {
                Err::<(), i32>(CODE_BUSY)
            } else {
                Ok(())
            },
    {
        if self.held() {
            Err(CODE_BUSY)
        } else {
            Ok(())
        }
    }
}

} // verus!
