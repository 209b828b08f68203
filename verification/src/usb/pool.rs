//! A pool of numbered descriptors.

use vstd::prelude::*;

verus! {

/// The descriptors that are free. The last one that was given back is taken first.
pub struct Pool {
    pub count: usize,
    pub free: Vec<usize>,
}

impl Pool {
    /// No descriptor is free twice.
    pub open spec fn wf(&self) -> bool {
        &&& forall|i: int| 0 <= i < self.free@.len() ==> #[trigger] self.free@[i] < self.count
        &&& self.free@.no_duplicates()
    }

    pub open spec fn is_free(&self, index: usize) -> bool {
        self.free@.contains(index)
    }

    /// A pool in which all descriptors are free.
    pub fn new(count: usize) -> (pool: Self)
        ensures
            pool.wf(),
            pool.count == count,
            pool.free@ == Seq::new(count as nat, |i: int| i as usize),
    {
        let mut free: Vec<usize> = Vec::new();
        let mut i: usize = 0;
        while i < count
            invariant
                i <= count,
                free@.len() == i,
                forall|k: int| 0 <= k < i ==> free@[k] == k,
            decreases count - i,
        {
            free.push(i);
            i += 1;
        }
        assert(free@ =~= Seq::new(count as nat, |i: int| i as usize));
        Pool { count, free }
    }

    /// Takes a descriptor.
    pub fn take(&mut self) -> (result: Option<usize>)
        requires
            old(self).wf(),
        ensures
            final(self).wf(),
            final(self).count == old(self).count,
            match result {
                Some(index) => {
                    &&& index < old(self).count
                    &&& old(self).free@.len() > 0
                    &&& index == old(self).free@.last()
                    &&& final(self).free@ == old(self).free@.drop_last()
                    &&& old(self).is_free(index)
                    &&& !final(self).is_free(index)
                },
                None => old(self).free@.len() == 0 && final(self).free@ == old(self).free@,
            },
    {
        let ghost before = self.free@;
        match self.free.pop() {
            Some(index) => {
                proof {
                    assert(before[before.len() - 1] == index);
                    if self.free@.contains(index) {
                        let i = choose|i: int| 0 <= i < self.free@.len() && self.free@[i] == index;
                        assert(before[i] == index);
                    }
                    assert forall|i: int, j: int|
                        0 <= i < self.free@.len() && 0 <= j < self.free@.len() && i
                            != j implies self.free@[i] != self.free@[j] by {
                        assert(before[i] == self.free@[i] && before[j] == self.free@[j]);
                    }
                    assert(before.contains(index));
                }
                Some(index)
            },
            None => None,
        }
    }

    /// Gives a descriptor back.
    pub fn give(&mut self, index: usize)
        requires
            old(self).wf(),
            index < old(self).count,
            !old(self).is_free(index),
        ensures
            final(self).wf(),
            final(self).count == old(self).count,
            final(self).free@ == old(self).free@.push(index),
    {
        let ghost before = self.free@;
        self.free.push(index);
        proof {
            let after = self.free@;
            assert forall|i: int, j: int|
                0 <= i < after.len() && 0 <= j < after.len() && i != j implies after[i]
                != after[j] by {
                if i == before.len() {
                    assert(before.contains(before[j]));
                    assert(after[j] == before[j]);
                } else if j == before.len() {
                    assert(before.contains(before[i]));
                    assert(after[i] == before[i]);
                } else {
                    assert(after[i] == before[i] && after[j] == before[j]);
                }
            }
        }
    }

    /// Gives several descriptors back, in order.
    pub fn give_all(&mut self, indexes: &Vec<usize>)
        requires
            old(self).wf(),
            indexes@.no_duplicates(),
            forall|i: int|
                0 <= i < indexes@.len() ==> (#[trigger] indexes@[i]) < old(self).count && !old(self).is_free(indexes@[i]),
        ensures
            final(self).wf(),
            final(self).count == old(self).count,
            final(self).free@ == old(self).free@ + indexes@,
    {
        let ghost before = self.free@;
        let mut i: usize = 0;
        assert(before + indexes@.take(0) =~= before);
        while i < indexes.len()
            invariant
                i <= indexes@.len(),
                self.wf(),
                self.count == old(self).count,
                indexes@.no_duplicates(),
                self.free@ == before + indexes@.take(i as int),
                forall|k: int|
                    0 <= k < indexes@.len() ==> (#[trigger] indexes@[k]) < self.count
                        && !before.contains(indexes@[k]),
            decreases indexes@.len() - i,
        {
            proof {
                let index = indexes@[i as int];
                if self.free@.contains(index) {
                    let k = choose|k: int| 0 <= k < self.free@.len() && self.free@[k] == index;
                    if k < before.len() {
                        assert(before[k] == index);
                        assert(before.contains(index));
                    } else {
                        assert(indexes@[k - before.len()] == index);
                    }
                }
            }
            self.give(indexes[i]);
            assert(self.free@ =~= before + indexes@.take(i + 1));
            i += 1;
        }
        assert(indexes@.take(i as int) =~= indexes@);
    }
}

} // verus!
