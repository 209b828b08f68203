//! The ring of queue heads that a controller walks.

use vstd::prelude::*;
use crate::usb::regs;
use crate::usb::regs::qh_next_pointer;

verus! {

/// How many heads there are.
pub const QH_COUNT: usize = 32;

/// How far heads are apart.
pub const QH_SIZE: u32 = 64;

/// The links of the heads. They are in an array in shared memory that begins at
/// `base`; `head` is always in the ring.
pub struct QhRing {
    pub base: u32,
    pub head: usize,
    pub links: Vec<u32>,
    /// The heads in the ring behind the fixed one.
    pub list: Ghost<Seq<usize>>,
}

/// The address of a head.
pub open spec fn qh_at(base: u32, index: int) -> u32 {
    (base + QH_SIZE * index) as u32
}

/// The link to a head.
pub open spec fn link_of(base: u32, index: int) -> u32 {
    (qh_at(base, index) + regs::QH_NEXT_TYPE_QH) as u32
}

/// The heads in the ring, from the fixed one on.
pub open spec fn node(head: int, list: Seq<usize>, i: int) -> int {
    if i == 0 {
        head
    } else {
        list[i - 1] as int
    }
}

/// Whether the links form a ring of the fixed head and the others in this order.
pub open spec fn is_ring(base: u32, head: int, links: Seq<u32>, list: Seq<usize>) -> bool {
    &&& list.len() < QH_COUNT
    &&& forall|i: int|
        0 <= i < list.len() ==> (#[trigger] list[i]) < QH_COUNT && list[i] != head
    &&& forall|i: int, j: int| 0 <= i < j < list.len() ==> list[i] != list[j]
    &&& forall|i: int|
        0 <= i < list.len() ==> links[#[trigger] node(head, list, i)] == link_of(
            base,
            list[i] as int,
        )
    &&& links[node(head, list, list.len() as int)] == link_of(base, head)
}

proof fn lemma_links_differ(base: u32, i: int, j: int)
    requires
        base % 32 == 0,
        base + 64 * QH_COUNT <= u32::MAX + 1,
        0 <= i < QH_COUNT,
        0 <= j < QH_COUNT,
        link_of(base, i) == link_of(base, j),
    ensures
        i == j,
{
}

impl QhRing {
    /// The array is aligned and can be addressed.
    pub open spec fn wf(&self) -> bool {
        &&& self.base % 32 == 0
        &&& self.base + 64 * QH_COUNT <= u32::MAX + 1
        &&& self.head < QH_COUNT
        &&& self.links@.len() == QH_COUNT
        &&& self.ring(self.list@)
    }

    pub open spec fn ring(&self, list: Seq<usize>) -> bool {
        is_ring(self.base, self.head as int, self.links@, list)
    }

    /// The address of a head.
    pub fn qh_dma(&self, index: usize) -> (address: u32)
        requires
            self.wf(),
            index < QH_COUNT,
        ensures
            address == qh_at(self.base, index as int),
            address % 32 == 0,
    {
        self.base + QH_SIZE * (index as u32)
    }

    /// A ring of only the fixed head.
    pub fn new(base: u32, head: usize) -> (ring: Self)
        requires
            base % 32 == 0,
            base + 64 * QH_COUNT <= u32::MAX + 1,
            head < QH_COUNT,
        ensures
            ring.wf(),
            ring.base == base,
            ring.head == head,
            ring.list@ == Seq::<usize>::empty(),
    {
        let mut links: Vec<u32> = Vec::new();
        let mut i: usize = 0;
        while i < QH_COUNT
            invariant
                i <= QH_COUNT,
                links@.len() == i,
            decreases QH_COUNT - i,
        {
            links.push(0);
            i += 1;
        }
        links.set(head, base + QH_SIZE * (head as u32) + regs::QH_NEXT_TYPE_QH);
        QhRing { base, head, links, list: Ghost(Seq::empty()) }
    }

    /// Puts a head right behind the fixed one.
    pub fn link(&mut self, qh: usize)
        requires
            old(self).wf(),
            qh < QH_COUNT,
            qh != old(self).head,
            !old(self).list@.contains(qh),
            old(self).list@.len() + 1 < QH_COUNT,
        ensures
            final(self).wf(),
            final(self).base == old(self).base,
            final(self).head == old(self).head,
            final(self).list@ == seq![qh] + old(self).list@,
            final(self).links@ == old(self).links@.update(
                old(self).head as int,
                link_of(old(self).base, qh as int),
            ).update(qh as int, old(self).links@[old(self).head as int]),
    {
        let ghost list = self.list@;
        let first: u32 = self.links[self.head];
        let address: u32 = self.qh_dma(qh);
        self.links.set(self.head, address + regs::QH_NEXT_TYPE_QH);
        self.links.set(qh, first);
        self.list = Ghost(seq![qh] + list);
        proof {
            let longer = seq![qh] + list;
            let head = self.head as int;
            let before = old(self).links@;
            assert(before[node(head, list, 0)] == before[head]);
            assert forall|i: int| 0 <= i < longer.len() implies (#[trigger] longer[i]) < QH_COUNT
                && longer[i] != head by {
                if i > 0 {
                    assert(longer[i] == list[i - 1]);
                }
            }
            assert forall|i: int, j: int| 0 <= i < j < longer.len() implies longer[i]
                != longer[j] by {
                assert(longer[j] == list[j - 1]);
                if i == 0 {
                    assert(list.contains(list[j - 1]));
                }
            }
            assert forall|i: int| 0 <= i < longer.len() implies self.links@[#[trigger] node(
                head,
                longer,
                i,
            )] == link_of(self.base, longer[i] as int) by {
                if i == 1 {
                    assert(node(head, longer, 1) == qh);
                } else if i > 1 {
                    assert(node(head, longer, i) == node(head, list, i - 1));
                    assert(list.contains(list[i - 2]));
                    assert(longer[i] == list[i - 1]);
                }
            }
            let n = list.len() as int;
            if n == 0 {
                assert(node(head, longer, 1) == qh);
            } else {
                assert(node(head, longer, n + 1) == node(head, list, n));
                assert(list.contains(list[n - 1]));
            }
        }
    }

    /// Takes a head out of the ring. Gives the one before it, whose link changed, or
    /// nothing if it is not in the ring.
    pub fn unlink(&mut self, qh: usize) -> (changed: Option<usize>)
        requires
            old(self).wf(),
            qh < QH_COUNT,
        ensures
            final(self).wf(),
            final(self).base == old(self).base,
            final(self).head == old(self).head,
            match changed {
                Some(before) => {
                    &&& before < QH_COUNT
                    &&& final(self).links@ == old(self).links@.update(
                        before as int,
                        old(self).links@[qh as int],
                    )
                    &&& exists|at: int|
                        0 <= at < old(self).list@.len() && #[trigger] old(self).list@[at] == qh
                            && final(self).list@ == old(self).list@.remove(at) && before == node(
                            old(self).head as int,
                            old(self).list@,
                            at,
                        )
                },
                None => *final(self) == *old(self) && !old(self).list@.contains(qh),
            },
    {
        let ghost list = self.list@;
        if qh == self.head {
            assert(!list.contains(qh)) by {
                if list.contains(qh) {
                    let i = choose|i: int| 0 <= i < list.len() && list[i] == qh;
                    assert(list[i] != self.head);
                }
            }
            return None;
        }
        let target: u32 = self.qh_dma(qh) + regs::QH_NEXT_TYPE_QH;
        let ghost head = self.head as int;
        let mut current: usize = self.head;
        let mut step: usize = 0;
        while step < QH_COUNT
            invariant
                self.wf(),
                self.base == old(self).base,
                self.head == old(self).head,
                *self == *old(self),
                list == self.list@,
                head == self.head,
                qh < QH_COUNT,
                qh != head,
                target == link_of(self.base, qh as int),
                step <= list.len(),
                current == node(head, list, step as int),
                current < QH_COUNT,
                forall|k: int| 0 <= k < step ==> list[k] != qh,
            decreases QH_COUNT - step,
        {
            let next: u32 = self.links[current];
            if next % 2 != 0 {
                proof {
                    if step < list.len() {
                        assert(self.links@[node(head, list, step as int)] == link_of(
                            self.base,
                            list[step as int] as int,
                        ));
                    }
                }
                return None;
            }
            if next == target {
                let ghost at = step as int;
                let after: u32 = self.links[qh];
                self.links.set(current, after);
                self.list = Ghost(list.remove(at));
                proof {
                    if at == list.len() {
                        lemma_links_differ(self.base, head, qh as int);
                    }
                    assert(old(self).links@[node(head, list, at)] == link_of(
                        self.base,
                        list[at] as int,
                    ));
                    lemma_links_differ(self.base, list[at] as int, qh as int);
                    self.lemma_removed(old(self).links@, list, at);
                }
                return Some(current);
            }
            if next / 2 % 4 != 1 {
                proof {
                    if step < list.len() {
                        assert(self.links@[node(head, list, step as int)] == link_of(
                            self.base,
                            list[step as int] as int,
                        ));
                    }
                }
                return None;
            }
            let pointer: u32 = qh_next_pointer(next);
            if pointer < self.base {
                proof {
                    if step < list.len() {
                        assert(self.links@[node(head, list, step as int)] == link_of(
                            self.base,
                            list[step as int] as int,
                        ));
                    }
                }
                return None;
            }
            let offset: u32 = pointer - self.base;
            if offset % QH_SIZE != 0 || offset / QH_SIZE >= QH_COUNT as u32 {
                proof {
                    if step < list.len() {
                        assert(self.links@[node(head, list, step as int)] == link_of(
                            self.base,
                            list[step as int] as int,
                        ));
                    }
                }
                return None;
            }
            proof {
                if step < list.len() {
                    assert(self.links@[node(head, list, step as int)] == link_of(
                        self.base,
                        list[step as int] as int,
                    ));
                    assert(list[step as int] < QH_COUNT);
                    assert(offset / QH_SIZE == list[step as int]);
                    assert(node(head, list, step + 1) == list[step as int]);
                }
            }
            let index: usize = (offset / QH_SIZE) as usize;
            if index == self.head {
                proof {
                    if step < list.len() {
                        assert(list[step as int] != head);
                    }
                    assert(!list.contains(qh)) by {
                        if list.contains(qh) {
                            let i = choose|i: int| 0 <= i < list.len() && list[i] == qh;
                            assert(i < step);
                        }
                    }
                }
                return None;
            }
            proof {
                if step == list.len() {
                    assert(next == link_of(self.base, head));
                    assert(index == head);
                }
            }
            current = index;
            step += 1;
        }
        assert(!list.contains(qh)) by {
            if list.contains(qh) {
                let i = choose|i: int| 0 <= i < list.len() && list[i] == qh;
                assert(i < step);
            }
        }
        None
    }

    proof fn lemma_removed(&self, before: Seq<u32>, list: Seq<usize>, at: int)
        requires
            self.head < QH_COUNT,
            before.len() == QH_COUNT,
            is_ring(self.base, self.head as int, before, list),
            0 <= at < list.len(),
            self.links@ == before.update(
                node(self.head as int, list, at),
                before[list[at] as int],
            ),
        ensures
            self.ring(list.remove(at)),
    {
        let head = self.head as int;
        let rest = list.remove(at);
        let n = list.len() as int;
        let place = node(head, list, at);
        assert(node(head, list, at + 1) == list[at]);
        if at > 0 {
            assert(list[at - 1] < QH_COUNT);
        }
        assert forall|i: int| 0 <= i < rest.len() implies (#[trigger] rest[i]) < QH_COUNT && rest[i]
            != head by {
            if i < at {
                assert(rest[i] == list[i]);
            } else {
                assert(rest[i] == list[i + 1]);
            }
        }
        assert forall|i: int, j: int| 0 <= i < j < rest.len() implies rest[i] != rest[j] by {
            let x = if i < at {
                i
            } else {
                i + 1
            };
            let y = if j < at {
                j
            } else {
                j + 1
            };
            assert(rest[i] == list[x] && rest[j] == list[y]);
        }
        assert forall|i: int| 0 <= i < rest.len() implies self.links@[#[trigger] node(
            head,
            rest,
            i,
        )] == link_of(self.base, rest[i] as int) by {
            if i < at {
                assert(node(head, rest, i) == node(head, list, i));
                assert(rest[i] == list[i]);
                if i > 0 {
                    assert(list[i - 1] < QH_COUNT);
                    if at > 0 {
                        assert(list[i - 1] != list[at - 1]);
                    }
                }
            } else if i == at {
                assert(node(head, rest, i) == place);
                assert(rest[i] == list[i + 1]);
                assert(before[node(head, list, at + 1)] == link_of(
                    self.base,
                    list[at + 1] as int,
                ));
            } else {
                assert(node(head, rest, i) == node(head, list, i + 1));
                assert(rest[i] == list[i + 1]);
                assert(list[i] < QH_COUNT);
                if at > 0 {
                    assert(list[i] != list[at - 1]);
                }
                assert(before[node(head, list, i + 1)] == link_of(self.base, list[i + 1] as int));
            }
        }
        if at == n - 1 {
            assert(node(head, rest, n - 1) == place);
        } else {
            assert(node(head, rest, n - 1) == node(head, list, n));
            assert(list[n - 1] < QH_COUNT);
            if at > 0 {
                assert(list[n - 1] != list[at - 1]);
            }
        }
    }
}

} // verus!
