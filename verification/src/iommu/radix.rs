//! Tables of tables, as the unit walks them.

use vstd::prelude::*;
use crate::iommu::bits;
use crate::port;
use crate::port::{Access, Exchange, NO_PAGE, Port};

verus! {

/// How many entries a page has.
pub const ENTRIES: usize = 512;

/// A page of a table: where it is in memory, and what it holds.
pub struct TablePage {
    pub paddr: u64,
    pub entries: Vec<u64>,
}

/// What a page holds.
pub ghost struct PageView {
    pub paddr: u64,
    pub entries: Seq<u64>,
}

impl View for TablePage {
    type V = PageView;

    open spec fn view(&self) -> PageView {
        PageView { paddr: self.paddr, entries: self.entries@ }
    }
}

/// What stops a walk.
#[derive(Clone, Copy, PartialEq, Eq, Structural, Debug)]
pub enum WalkError {
    /// There is no table on the way, and none is to be made.
    Absent,
    OutOfMemory,
    /// A new page is beyond what the unit can address.
    Unreachable,
    /// An entry is neither empty nor a link to one of the pages.
    Corrupt,
}

/// Whether an entry is a link to a table.
pub open spec fn is_link(entry: u64) -> bool {
    entry % 1024 == 1 && entry < 0x40_0000_0000_0000
}

/// The entry that links to a page.
pub open spec fn link_to(paddr: u64) -> u64 {
    (bits::ppn(paddr as int) + 1) as u64
}

/// The first page at an address, from a position on.
pub open spec fn page_from(pages: Seq<PageView>, paddr: u64, from: int) -> Option<int>
    decreases pages.len() - from,
{
    if from < 0 || from >= pages.len() {
        None
    } else if pages[from].paddr == paddr {
        Some(from)
    } else {
        page_from(pages, paddr, from + 1)
    }
}

/// The first page at an address.
pub open spec fn page_at(pages: Seq<PageView>, paddr: u64) -> Option<int> {
    page_from(pages, paddr, 0)
}

/// Whether the unit can address a page.
pub open spec fn reachable(pas: u8, paddr: u64) -> bool {
    pas >= 64 || paddr < vstd::arithmetic::power2::pow2(pas as nat)
}

/// An empty page.
pub open spec fn empty_page(paddr: u64) -> PageView {
    PageView { paddr, entries: Seq::new(512, |i: int| 0u64) }
}

/// The pages after an entry was written.
pub open spec fn written(pages: Seq<PageView>, at: int, index: int, value: u64) -> Seq<PageView> {
    pages.update(
        at,
        PageView { paddr: pages[at].paddr, entries: pages[at].entries.update(index, value) },
    )
}

/// The accesses that write an entry.
pub open spec fn write_trace(page: PageView, index: int, value: u64) -> Seq<Exchange> {
    seq![
        port::s64((page.paddr + 8 * index) as usize, value),
        port::flushed(page.paddr as usize),
    ]
}

/// The pages after a new page was linked in.
pub open spec fn linked(pages: Seq<PageView>, at: int, index: int, paddr: u64) -> Seq<PageView> {
    written(pages.push(empty_page(paddr)), at, index, link_to(paddr))
}

/// A walk, with the pages after it.
pub ghost struct Walk {
    pub pages: Seq<PageView>,
    pub outcome: Result<int, WalkError>,
    pub trace: Seq<Exchange>,
}

/// The walk from the page `at` along `indexes`. Where a table is missing and may
/// be made, a page is asked for; `replies` are the answers. A page that the unit
/// cannot address or that links cannot point to is given back. A page that is one
/// of the table's already is no new one, so the memory counts as used up.
pub open spec fn walked(
    pages: Seq<PageView>,
    pas: u8,
    indexes: Seq<usize>,
    at: int,
    create: bool,
    replies: Seq<u64>,
) -> Walk
    decreases indexes.len(),
{
    if indexes.len() == 0 {
        Walk { pages, outcome: Ok(at), trace: Seq::empty() }
    } else {
        let entry = pages[at].entries[indexes[0] as int];
        if entry % 2 == 1 {
            if !is_link(entry) {
                Walk { pages, outcome: Err(WalkError::Corrupt), trace: Seq::empty() }
            } else {
                match page_at(pages, bits::paddr_of(entry)) {
                    Some(next) => walked(pages, pas, indexes.skip(1), next, create, replies),
                    None => Walk {
                        pages,
                        outcome: Err(WalkError::Corrupt),
                        trace: Seq::empty(),
                    },
                }
            }
        } else if entry != 0 {
            Walk { pages, outcome: Err(WalkError::Corrupt), trace: Seq::empty() }
        } else if !create {
            Walk { pages, outcome: Err(WalkError::Absent), trace: Seq::empty() }
        } else {
            let reply = replies[0];
            let asked = seq![port::allocated(reply)];
            if reply == NO_PAGE {
                Walk { pages, outcome: Err(WalkError::OutOfMemory), trace: asked }
            } else if !reachable(pas, reply) || !is_page(reply) {
                Walk {
                    pages,
                    outcome: Err(WalkError::Unreachable),
                    trace: asked + seq![port::released(reply)],
                }
            } else if page_at(pages, reply) is Some {
                Walk { pages, outcome: Err(WalkError::OutOfMemory), trace: asked }
            } else {
                let grown = linked(pages, at, indexes[0] as int, reply);
                let rest = walked(
                    grown,
                    pas,
                    indexes.skip(1),
                    pages.len() as int,
                    create,
                    replies.skip(1),
                );
                Walk {
                    pages: rest.pages,
                    outcome: rest.outcome,
                    trace: asked + write_trace(pages[at], indexes[0] as int, link_to(reply))
                        + rest.trace,
                }
            }
        }
    }
}

/// The pages and what was done in them.
pub open spec fn views(pages: Seq<TablePage>) -> Seq<PageView> {
    Seq::new(pages.len(), |i: int| pages[i]@)
}

/// A table of tables. The first page is the root.
pub struct RadixTable {
    pub pages: Vec<TablePage>,
    pub pas: u8,
}

/// Whether an address is one of a page that links can point to.
pub open spec fn is_page(paddr: u64) -> bool {
    paddr % 4096 == 0 && paddr < 0x100_0000_0000_0000
}

pub fn page_valid(paddr: u64) -> (valid: bool)
    ensures
        valid == is_page(paddr),
{
    paddr % 4096 == 0 && paddr < 0x100_0000_0000_0000
}

/// Whether the unit can address a page.
pub fn physical_address_valid(pas: u8, paddr: u64) -> (valid: bool)
    ensures
        valid == reachable(pas, paddr),
{
    if pas >= 64 {
        return true;
    }
    proof {
        vstd::bits::lemma_u64_pow2_no_overflow(pas as nat);
        vstd::bits::lemma_u64_shl_is_mul(1, pas as u64);
        vstd::arithmetic::power2::lemma_pow2_pos(pas as nat);
    }
    paddr < (1u64 << (pas as u64))
}

impl RadixTable {
    pub open spec fn view(&self) -> Seq<PageView> {
        views(self.pages@)
    }

    /// There is a root, and every page is full.
    pub open spec fn wf(&self) -> bool {
        &&& self.pages@.len() > 0
        &&& forall|i: int|
            0 <= i < self.pages@.len() ==> (#[trigger] self.pages@[i]).entries@.len() == ENTRIES
    }

    /// A table whose root is the page that was asked for.
    pub fn new<F: FnMut(Access) -> u64>(port: &mut Port<F>, pas: u8) -> (result: Option<Self>)
        requires
            old(port).wf(),
        ensures
            final(port).wf(),
            final(port).performs() == old(port).performs(),
            exists|reply: u64|
                final(port).log() == old(port).log().push(#[trigger] port::allocated(reply)) && (
                if reply == NO_PAGE {
                    result is None
                } else {
                    result matches Some(table) && table.wf() && table.pas == pas && table@
                        == seq![empty_page(reply)]
                }),
    {
        let reply: u64 = port.allocate_page();
        if reply == NO_PAGE {
            return None;
        }
        let mut pages: Vec<TablePage> = Vec::new();
        pages.push(empty_table_page(reply));
        let table = RadixTable { pages, pas };
        assert(table@ =~= seq![empty_page(reply)]);
        Some(table)
    }

    fn find(&self, paddr: u64) -> (found: Option<usize>)
        ensures
            match found {
                Some(at) => at < self.pages@.len() && page_at(self@, paddr) == Some(at as int),
                None => page_at(self@, paddr) is None,
            },
    {
        let mut i: usize = 0;
        while i < self.pages.len()
            invariant
                i <= self.pages@.len(),
                page_from(self@, paddr, i as int) == page_at(self@, paddr),
            decreases self.pages@.len() - i,
        {
            assert(self@[i as int].paddr == self.pages@[i as int].paddr);
            if self.pages[i].paddr == paddr {
                return Some(i);
            }
            i += 1;
        }
        None
    }

    /// An entry of a page.
    pub fn read(&self, at: usize, index: usize) -> (entry: u64)
        requires
            self.wf(),
            at < self.pages@.len(),
            index < ENTRIES,
        ensures
            entry == self@[at as int].entries[index as int],
    {
        self.pages[at].entries[index]
    }

    /// Writes an entry and makes it visible to the unit.
    pub fn write<F: FnMut(Access) -> u64>(
        &mut self,
        port: &mut Port<F>,
        at: usize,
        index: usize,
        value: u64,
    )
        requires
            old(self).wf(),
            old(port).wf(),
            at < old(self).pages@.len(),
            index < ENTRIES,
        ensures
            final(self).wf(),
            final(port).wf(),
            final(port).performs() == old(port).performs(),
            final(self).pas == old(self).pas,
            final(self).pages@.len() == old(self).pages@.len(),
            final(self)@ == written(old(self)@, at as int, index as int, value),
            final(port).log() == old(port).log() + write_trace(
                old(self)@[at as int],
                index as int,
                value,
            ),
    {
        let ghost before = self@;
        let ghost start = port.log();
        let paddr: u64 = self.pages[at].paddr;
        self.pages[at].entries.set(index, value);
        assert(self@ =~= written(before, at as int, index as int, value));
        let address: u128 = paddr as u128 + 8 * (index as u128);
        port.store64(address as usize, value);
        port.flush(paddr as usize);
        assert(port.log() =~= start + write_trace(before[at as int], index as int, value));
    }

    /// Walks from a page along the indexes and makes tables on the way if asked
    /// to.
    pub fn walk<F: FnMut(Access) -> u64>(
        &mut self,
        port: &mut Port<F>,
        indexes: &[usize],
        from: usize,
        at: usize,
        create: bool,
    ) -> (result: Result<usize, WalkError>)
        requires
            old(self).wf(),
            old(port).wf(),
            from <= indexes@.len(),
            at < old(self).pages@.len(),
            forall|i: int| 0 <= i < indexes@.len() ==> #[trigger] indexes@[i] < ENTRIES,
        ensures
            final(self).wf(),
            final(port).wf(),
            final(port).performs() == old(port).performs(),
            final(self).pas == old(self).pas,
            old(self).pages@.len() <= final(self).pages@.len(),
            exists|replies: Seq<u64>| #[trigger]
                was_walked(
                    old(self)@,
                    old(self).pas,
                    indexes@.skip(from as int),
                    at as int,
                    create,
                    replies,
                    final(self)@,
                    result,
                    old(port).log(),
                    final(port).log(),
                ),
            result is Ok ==> result->Ok_0 < final(self).pages@.len(),
        decreases indexes@.len() - from,
    {
        let ghost before = self@;
        let ghost start = port.log();
        let ghost path = indexes@.skip(from as int);
        assert(start + Seq::<Exchange>::empty() =~= start);
        if from == indexes.len() {
            assert(path.len() == 0);
            assert(was_walked(
                before,
                self.pas,
                path,
                at as int,
                create,
                Seq::empty(),
                before,
                Ok::<usize, WalkError>(at),
                start,
                start,
            ));
            return Ok(at);
        }
        let index: usize = indexes[from];
        assert(path[0] == index);
        assert(path.skip(1) =~= indexes@.skip(from + 1));
        let entry: u64 = self.read(at, index);
        if entry % 2 == 1 {
            if entry % 1024 != 1 || entry >= 0x40_0000_0000_0000 {
                assert(was_walked(
                    before,
                    self.pas,
                    path,
                    at as int,
                    create,
                    Seq::empty(),
                    before,
                    Err::<usize, WalkError>(WalkError::Corrupt),
                    start,
                    start,
                ));
                return Err(WalkError::Corrupt);
            }
            let target: u64 = entry / 1024 % 0x1000_0000_0000 * 4096;
            match self.find(target) {
                Some(next) => {
                    let result = self.walk(port, indexes, from + 1, next, create);
                    proof {
                        let replies = choose|replies: Seq<u64>| #[trigger]
                            was_walked(
                                before,
                                self.pas,
                                path.skip(1),
                                next as int,
                                create,
                                replies,
                                self@,
                                result,
                                start,
                                port.log(),
                            );
                        assert(was_walked(
                            before,
                            self.pas,
                            path,
                            at as int,
                            create,
                            replies,
                            self@,
                            result,
                            start,
                            port.log(),
                        ));
                    }
                    return result;
                },
                None => {
                    assert(was_walked(
                        before,
                        self.pas,
                        path,
                        at as int,
                        create,
                        Seq::empty(),
                        before,
                        Err::<usize, WalkError>(WalkError::Corrupt),
                        start,
                        start,
                    ));
                    return Err(WalkError::Corrupt);
                },
            }
        }
        if entry != 0 {
            assert(was_walked(
                before,
                self.pas,
                path,
                at as int,
                create,
                Seq::empty(),
                before,
                Err::<usize, WalkError>(WalkError::Corrupt),
                start,
                start,
            ));
            return Err(WalkError::Corrupt);
        }
        if !create {
            assert(was_walked(
                before,
                self.pas,
                path,
                at as int,
                create,
                Seq::empty(),
                before,
                Err::<usize, WalkError>(WalkError::Absent),
                start,
                start,
            ));
            return Err(WalkError::Absent);
        }
        let reply: u64 = port.allocate_page();
        assert(port.log() =~= start + seq![port::allocated(reply)]);
        let usable: bool = physical_address_valid(self.pas, reply) && page_valid(reply);
        let taken: bool = self.find(reply).is_some();
        if reply == NO_PAGE || !usable || taken {
            let error = if reply == NO_PAGE || usable {
                WalkError::OutOfMemory
            } else {
                port.release_page(reply);
                assert(port.log() =~= start + (seq![port::allocated(reply)] + seq![
                    port::released(reply),
                ]));
                WalkError::Unreachable
            };
            assert(seq![reply][0] == reply);
            assert(was_walked(
                before,
                self.pas,
                path,
                at as int,
                create,
                seq![reply],
                before,
                Err::<usize, WalkError>(error),
                start,
                port.log(),
            ));
            return Err(error);
        }
        let child: usize = self.pages.len();
        let ghost asked = port.log();
        self.pages.push(empty_table_page(reply));
        assert(self@ =~= before.push(empty_page(reply)));
        self.write(port, at, index, reply / 4096 * 1024 + 1);
        let ghost grown = self@;
        let ghost linked_log = port.log();
        assert(grown == linked(before, at as int, index as int, reply));
        let result = self.walk(port, indexes, from + 1, child, create);
        proof {
            let rest = choose|replies: Seq<u64>| #[trigger]
                was_walked(
                    grown,
                    self.pas,
                    path.skip(1),
                    child as int,
                    create,
                    replies,
                    self@,
                    result,
                    linked_log,
                    port.log(),
                );
            let replies = seq![reply] + rest;
            assert(replies.skip(1) =~= rest);
            assert(replies[0] == reply);
            let walk = walked(before, self.pas, path, at as int, create, replies);
            assert(port.log() =~= start + walk.trace);
            assert(was_walked(
                before,
                self.pas,
                path,
                at as int,
                create,
                replies,
                self@,
                result,
                start,
                port.log(),
            ));
        }
        result
    }
}

/// The accesses that give pages back.
pub open spec fn release_trace(pages: Seq<PageView>) -> Seq<Exchange> {
    Seq::new(pages.len(), |i: int| port::released(pages[i].paddr))
}

/// Gives the pages of a table back.
pub fn release_table<F: FnMut(Access) -> u64>(table: RadixTable, port: &mut Port<F>)
    requires
        old(port).wf(),
    ensures
        final(port).wf(),
        final(port).performs() == old(port).performs(),
        final(port).log() == old(port).log() + release_trace(table@),
{
    let ghost start = port.log();
    let mut i: usize = 0;
    assert(start + release_trace(table@).take(0) =~= start);
    while i < table.pages.len()
        invariant
            i <= table.pages@.len(),
            port.wf(),
            port.performs() == old(port).performs(),
            port.log() == start + release_trace(table@).take(i as int),
        decreases table.pages@.len() - i,
    {
        port.release_page(table.pages[i].paddr);
        i += 1;
        assert(port.log() =~= start + release_trace(table@).take(i as int));
    }
    assert(release_trace(table@).take(i as int) =~= release_trace(table@));
}

fn empty_table_page(paddr: u64) -> (page: TablePage)
    ensures
        page@ == empty_page(paddr),
        page.entries@.len() == ENTRIES,
{
    let mut entries: Vec<u64> = Vec::new();
    let mut i: usize = 0;
    while i < ENTRIES
        invariant
            i <= ENTRIES,
            entries@.len() == i,
            forall|k: int| 0 <= k < i ==> entries@[k] == 0,
        decreases ENTRIES - i,
    {
        entries.push(0);
        i += 1;
    }
    assert(entries@ =~= Seq::new(512, |i: int| 0u64));
    TablePage { paddr, entries }
}

/// Whether a walk was made and ended so.
pub open spec fn was_walked(
    pages: Seq<PageView>,
    pas: u8,
    indexes: Seq<usize>,
    at: int,
    create: bool,
    replies: Seq<u64>,
    after: Seq<PageView>,
    result: Result<usize, WalkError>,
    log: Seq<Exchange>,
    now: Seq<Exchange>,
) -> bool {
    let walk = walked(pages, pas, indexes, at, create, replies);
    &&& after == walk.pages
    &&& now == log + walk.trace
    &&& match result {
        Ok(page) => walk.outcome == Ok::<int, WalkError>(page as int),
        Err(error) => walk.outcome == Err::<int, WalkError>(error),
    }
}

/// The page that a path leads to.
pub open spec fn reach(pages: Seq<PageView>, path: Seq<usize>, at: int) -> Option<int>
    decreases path.len(),
{
    if path.len() == 0 {
        Some(at)
    } else {
        let entry = pages[at].entries[path[0] as int];
        if !is_link(entry) {
            None
        } else {
            match page_at(pages, bits::paddr_of(entry)) {
                Some(next) => reach(pages, path.skip(1), next),
                None => None,
            }
        }
    }
}

/// What the table holds in a slot at the end of a path; nothing is zero.
pub open spec fn value_at(pages: Seq<PageView>, path: Seq<usize>, slot: int) -> u64 {
    match reach(pages, path, 0) {
        Some(page) => pages[page].entries[slot],
        None => 0,
    }
}

/// Whether every index of a path is one of a page.
pub open spec fn in_pages(path: Seq<usize>) -> bool {
    forall|i: int| 0 <= i < path.len() ==> #[trigger] path[i] < 512
}

/// Whether every page is full, is where links can point to, and is none of the
/// others.
pub open spec fn sound(pages: Seq<PageView>) -> bool {
    &&& pages.len() > 0
    &&& forall|i: int|
        0 <= i < pages.len() ==> (#[trigger] pages[i]).entries.len() == 512 && is_page(
            pages[i].paddr,
        )
    &&& forall|i: int, j: int|
        0 <= i < j < pages.len() ==> (#[trigger] pages[i]).paddr != (#[trigger] pages[j]).paddr
}

/// Whether an entry of a page above the last level is empty or leads one step
/// further along the path of its page.
pub open spec fn entry_leads(
    pages: Seq<PageView>,
    paths: Seq<Seq<usize>>,
    i: int,
    index: int,
) -> bool {
    let entry = pages[i].entries[index];
    entry == 0 || {
        &&& is_link(entry)
        &&& page_at(pages, bits::paddr_of(entry)) matches Some(next) && 0 <= next < pages.len()
            && paths[next] == paths[i].push(index as usize)
    }
}

/// Whether the pages form a tree, with the path to each page.
pub open spec fn tree(pages: Seq<PageView>, depth: nat, paths: Seq<Seq<usize>>) -> bool {
    &&& sound(pages)
    &&& paths.len() == pages.len()
    &&& paths[0] == Seq::<usize>::empty()
    &&& forall|i: int| 0 <= i < paths.len() ==> (#[trigger] paths[i]).len() <= depth
    &&& forall|i: int, index: int|
        0 <= i < pages.len() && paths[i].len() < depth && 0 <= index < 512 ==> #[trigger]
            entry_leads(pages, paths, i, index)
}

/// Whether the pages form a tree.
pub open spec fn is_tree(pages: Seq<PageView>, depth: nat) -> bool {
    exists|paths: Seq<Seq<usize>>| #[trigger] tree(pages, depth, paths)
}

/// Whether a page that was asked for can become a table.
pub open spec fn usable(pages: Seq<PageView>, pas: u8, reply: u64) -> bool {
    reply != NO_PAGE && reachable(pas, reply) && is_page(reply) && page_at(pages, reply) is None
}

pub proof fn lemma_page_from(pages: Seq<PageView>, paddr: u64, from: int)
    requires
        0 <= from,
    ensures
        page_from(pages, paddr, from) matches Some(i) ==> from <= i < pages.len() && pages[i].paddr
            == paddr,
        page_from(pages, paddr, from) is None ==> forall|i: int|
            from <= i < pages.len() ==> (#[trigger] pages[i]).paddr != paddr,
    decreases pages.len() - from,
{
    if from < pages.len() && pages[from].paddr != paddr {
        lemma_page_from(pages, paddr, from + 1);
    }
}

pub proof fn lemma_page_at(pages: Seq<PageView>, j: int)
    requires
        sound(pages),
        0 <= j < pages.len(),
    ensures
        page_at(pages, pages[j].paddr) == Some(j),
{
    lemma_page_from(pages, pages[j].paddr, 0);
    match page_at(pages, pages[j].paddr) {
        Some(i) => {
            if i < j {
                assert(pages[i].paddr != pages[j].paddr);
            } else if j < i {
                assert(pages[j].paddr != pages[i].paddr);
            }
        },
        None => {
            assert(pages[j].paddr != pages[j].paddr);
        },
    }
}

proof fn lemma_link(paddr: u64)
    requires
        is_page(paddr),
    ensures
        is_link(link_to(paddr)),
        bits::paddr_of(link_to(paddr)) == paddr,
{
    bits::ppn_round_trip(paddr, 1);
}

pub proof fn lemma_reach_path(
    pages: Seq<PageView>,
    depth: nat,
    paths: Seq<Seq<usize>>,
    path: Seq<usize>,
    at: int,
)
    requires
        tree(pages, depth, paths),
        in_pages(path),
        0 <= at < pages.len(),
        paths[at].len() + path.len() <= depth,
    ensures
        reach(pages, path, at) matches Some(p) ==> 0 <= p < pages.len() && paths[p] == paths[at]
            + path,
    decreases path.len(),
{
    if path.len() == 0 {
        assert(paths[at] + path =~= paths[at]);
    } else {
        assert(entry_leads(pages, paths, at, path[0] as int));
        let entry = pages[at].entries[path[0] as int];
        if is_link(entry) {
            let next = page_at(pages, bits::paddr_of(entry))->0;
            assert(in_pages(path.skip(1)));
            lemma_reach_path(pages, depth, paths, path.skip(1), next);
            assert(paths[at].push(path[0]) + path.skip(1) =~= paths[at] + path);
        }
    }
}

proof fn lemma_linked_tree(
    pages: Seq<PageView>,
    depth: nat,
    paths: Seq<Seq<usize>>,
    at: int,
    index: usize,
    paddr: u64,
)
    requires
        tree(pages, depth, paths),
        0 <= at < pages.len(),
        index < 512,
        paths[at].len() < depth,
        pages[at].entries[index as int] == 0,
        sound(linked(pages, at, index as int, paddr)),
    ensures
        tree(linked(pages, at, index as int, paddr), depth, paths.push(paths[at].push(index))),
{
    let after = linked(pages, at, index as int, paddr);
    let longer = paths.push(paths[at].push(index));
    let n = pages.len() as int;
    assert(after.len() == n + 1);
    assert(after[n].paddr == paddr);
    lemma_link(paddr);
    lemma_page_at(after, n);
    assert forall|i: int, k: int|
        0 <= i < after.len() && longer[i].len() < depth && 0 <= k < 512 implies #[trigger]
    entry_leads(after, longer, i, k) by {
        if i < n {
            assert(entry_leads(pages, paths, i, k));
            if i == at && k == index {
                assert(after[i].entries[k] == link_to(paddr));
                assert(longer[n] == longer[at].push(k as usize));
            } else {
                assert(after[i].entries[k] == pages[i].entries[k]);
                let entry = pages[i].entries[k];
                if entry != 0 {
                    let next = page_at(pages, bits::paddr_of(entry))->0;
                    lemma_page_from(pages, bits::paddr_of(entry), 0);
                    assert(after[next].paddr == pages[next].paddr);
                    lemma_page_at(after, next);
                }
            }
        } else {
            assert(after[i].entries[k] == 0);
        }
    }
}

proof fn lemma_linked_reach(
    pages: Seq<PageView>,
    depth: nat,
    paths: Seq<Seq<usize>>,
    at: int,
    index: usize,
    paddr: u64,
    path: Seq<usize>,
    a: int,
)
    requires
        tree(pages, depth, paths),
        0 <= at < pages.len(),
        index < 512,
        paths[at].len() < depth,
        pages[at].entries[index as int] == 0,
        sound(linked(pages, at, index as int, paddr)),
        in_pages(path),
        0 <= a < pages.len(),
        paths[a].len() + path.len() <= depth,
    ensures
        match reach(pages, path, a) {
            Some(q) => reach(linked(pages, at, index as int, paddr), path, a) == Some(q),
            None => {
                let then = reach(linked(pages, at, index as int, paddr), path, a);
                then is None || then == Some(pages.len() as int)
            },
        },
    decreases path.len(),
{
    let after = linked(pages, at, index as int, paddr);
    let n = pages.len() as int;
    if path.len() > 0 {
        assert(entry_leads(pages, paths, a, path[0] as int));
        assert(in_pages(path.skip(1)));
        let entry = pages[a].entries[path[0] as int];
        if a == at && path[0] == index {
            assert(after[n].paddr == paddr);
            lemma_link(paddr);
            lemma_page_at(after, n);
            assert(after[a].entries[path[0] as int] == link_to(paddr));
            if path.skip(1).len() > 0 {
                assert(after[n].entries[path.skip(1)[0] as int] == 0);
                assert(reach(after, path.skip(1), n) is None);
            } else {
                assert(reach(after, path.skip(1), n) == Some(n));
            }
        } else {
            assert(after[a].entries[path[0] as int] == entry);
            if entry != 0 {
                let next = page_at(pages, bits::paddr_of(entry))->0;
                lemma_page_from(pages, bits::paddr_of(entry), 0);
                assert(after[next].paddr == pages[next].paddr);
                lemma_page_at(after, next);
                lemma_linked_reach(pages, depth, paths, at, index, paddr, path.skip(1), next);
            }
        }
    }
}

proof fn lemma_linked_values(
    pages: Seq<PageView>,
    depth: nat,
    paths: Seq<Seq<usize>>,
    at: int,
    index: usize,
    paddr: u64,
    path: Seq<usize>,
    slot: int,
)
    requires
        tree(pages, depth, paths),
        0 <= at < pages.len(),
        index < 512,
        paths[at].len() < depth,
        pages[at].entries[index as int] == 0,
        sound(linked(pages, at, index as int, paddr)),
        in_pages(path),
        path.len() == depth,
        0 <= slot < 512,
    ensures
        value_at(linked(pages, at, index as int, paddr), path, slot) == value_at(
            pages,
            path,
            slot,
        ),
{
    let after = linked(pages, at, index as int, paddr);
    lemma_linked_reach(pages, depth, paths, at, index, paddr, path, 0);
    lemma_reach_path(pages, depth, paths, path, 0);
    match reach(pages, path, 0) {
        Some(q) => {
            assert(paths[q].len() == depth);
            assert(after[q].entries == pages[q].entries);
        },
        None => {
            assert(after[pages.len() as int].entries[slot] == 0);
        },
    }
}

/// What a walk leaves of the pages: none moves, and nothing in them is overwritten.
pub proof fn lemma_walk_keeps(
    pages: Seq<PageView>,
    pas: u8,
    indexes: Seq<usize>,
    at: int,
    create: bool,
    replies: Seq<u64>,
)
    requires
        in_pages(indexes),
        0 <= at < pages.len(),
        forall|i: int| 0 <= i < pages.len() ==> (#[trigger] pages[i]).entries.len() == 512,
    ensures
        ({
            let after = walked(pages, pas, indexes, at, create, replies).pages;
            &&& after.len() >= pages.len()
            &&& forall|i: int|
                0 <= i < pages.len() ==> (#[trigger] after[i]).paddr == pages[i].paddr
                    && after[i].entries.len() == 512
            &&& forall|i: int, k: int|
                0 <= i < pages.len() && 0 <= k < 512 && pages[i].entries[k] != 0
                    ==> #[trigger] after[i].entries[k] == pages[i].entries[k]
        }),
    decreases indexes.len(),
{
    if indexes.len() > 0 {
        assert(in_pages(indexes.skip(1)));
        let entry = pages[at].entries[indexes[0] as int];
        if entry % 2 == 1 {
            if is_link(entry) {
                lemma_page_from(pages, bits::paddr_of(entry), 0);
                match page_at(pages, bits::paddr_of(entry)) {
                    Some(next) => {
                        lemma_walk_keeps(pages, pas, indexes.skip(1), next, create, replies);
                    },
                    None => {},
                }
            }
        } else if entry == 0 && create && usable(pages, pas, replies[0]) {
            let grown = linked(pages, at, indexes[0] as int, replies[0]);
            assert forall|i: int| 0 <= i < grown.len() implies (#[trigger] grown[i]).entries.len()
                == 512 by {}
            lemma_walk_keeps(
                grown,
                pas,
                indexes.skip(1),
                pages.len() as int,
                create,
                replies.skip(1),
            );
            let after = walked(
                grown,
                pas,
                indexes.skip(1),
                pages.len() as int,
                create,
                replies.skip(1),
            ).pages;
            assert forall|i: int, k: int|
                0 <= i < pages.len() && 0 <= k < 512 && pages[i].entries[k] != 0 implies #[trigger]
            after[i].entries[k] == pages[i].entries[k] by {
                assert(grown[i].entries[k] == pages[i].entries[k]);
            }
            assert forall|i: int| 0 <= i < pages.len() implies (#[trigger] after[i]).paddr
                == pages[i].paddr && after[i].entries.len() == 512 by {
                assert(grown[i].paddr == pages[i].paddr);
            }
        }
    }
}

proof fn lemma_sound_before(before: Seq<PageView>, after: Seq<PageView>)
    requires
        sound(after),
        0 < before.len() <= after.len(),
        forall|i: int|
            0 <= i < before.len() ==> (#[trigger] before[i]).paddr == after[i].paddr
                && before[i].entries.len() == 512,
    ensures
        sound(before),
{
    assert forall|i: int, j: int| 0 <= i < j < before.len() implies (#[trigger] before[i]).paddr
        != (#[trigger] before[j]).paddr by {
        assert(after[i].paddr != after[j].paddr);
    }
    assert forall|i: int| 0 <= i < before.len() implies (#[trigger] before[i]).entries.len() == 512
        && is_page(before[i].paddr) by {
        assert(is_page(after[i].paddr));
    }
}

/// A walk that ended well leads where its path leads afterwards.
proof fn lemma_walk_reaches(
    pages: Seq<PageView>,
    pas: u8,
    indexes: Seq<usize>,
    at: int,
    create: bool,
    replies: Seq<u64>,
)
    requires
        in_pages(indexes),
        0 <= at < pages.len(),
        forall|i: int| 0 <= i < pages.len() ==> (#[trigger] pages[i]).entries.len() == 512,
        sound(walked(pages, pas, indexes, at, create, replies).pages),
    ensures
        walked(pages, pas, indexes, at, create, replies).outcome matches Ok(p) ==> reach(
            walked(pages, pas, indexes, at, create, replies).pages,
            indexes,
            at,
        ) == Some(p),
    decreases indexes.len(),
{
    let walk = walked(pages, pas, indexes, at, create, replies);
    if indexes.len() > 0 && walk.outcome is Ok {
        assert(in_pages(indexes.skip(1)));
        lemma_walk_keeps(pages, pas, indexes, at, create, replies);
        let entry = pages[at].entries[indexes[0] as int];
        if entry % 2 == 1 {
            lemma_page_from(pages, bits::paddr_of(entry), 0);
            let next = page_at(pages, bits::paddr_of(entry))->0;
            lemma_walk_reaches(pages, pas, indexes.skip(1), next, create, replies);
            assert(walk.pages[at].entries[indexes[0] as int] == entry);
            assert(walk.pages[next].paddr == pages[next].paddr);
            lemma_page_at(walk.pages, next);
        } else {
            let n = pages.len() as int;
            let grown = linked(pages, at, indexes[0] as int, replies[0]);
            assert forall|i: int| 0 <= i < grown.len() implies (#[trigger] grown[i]).entries.len()
                == 512 by {}
            lemma_walk_keeps(grown, pas, indexes.skip(1), n, create, replies.skip(1));
            lemma_walk_reaches(grown, pas, indexes.skip(1), n, create, replies.skip(1));
            assert(grown[n].paddr == replies[0]);
            assert(walk.pages[n].paddr == replies[0]);
            lemma_link(replies[0]);
            assert(link_to(replies[0]) != 0);
            assert(grown[at].entries[indexes[0] as int] == link_to(replies[0]));
            assert(walk.pages[at].entries[indexes[0] as int] == link_to(replies[0]));
            lemma_page_at(walk.pages, n);
        }
    }
}

#[verifier::rlimit(60)]
#[verifier::spinoff_prover]
proof fn lemma_walk_tree(
    pages: Seq<PageView>,
    pas: u8,
    indexes: Seq<usize>,
    at: int,
    create: bool,
    replies: Seq<u64>,
    depth: nat,
    paths: Seq<Seq<usize>>,
) -> (longer: Seq<Seq<usize>>)
    requires
        tree(pages, depth, paths),
        in_pages(indexes),
        0 <= at < pages.len(),
        paths[at].len() + indexes.len() <= depth,
        sound(walked(pages, pas, indexes, at, create, replies).pages),
    ensures
        tree(walked(pages, pas, indexes, at, create, replies).pages, depth, longer),
        forall|path: Seq<usize>, slot: int|
            in_pages(path) && path.len() == depth && 0 <= slot < 512 ==> #[trigger] value_at(
                walked(pages, pas, indexes, at, create, replies).pages,
                path,
                slot,
            ) == value_at(pages, path, slot),
    decreases indexes.len(),
{
    if indexes.len() == 0 {
        paths
    } else {
        assert(in_pages(indexes.skip(1)));
        let entry = pages[at].entries[indexes[0] as int];
        assert(entry_leads(pages, paths, at, indexes[0] as int));
        if entry != 0 {
            let next = page_at(pages, bits::paddr_of(entry))->0;
            lemma_walk_tree(pages, pas, indexes.skip(1), next, create, replies, depth, paths)
        } else if create && usable(pages, pas, replies[0]) {
            let n = pages.len() as int;
            let grown = linked(pages, at, indexes[0] as int, replies[0]);
            assert forall|i: int| 0 <= i < grown.len() implies (#[trigger] grown[i]).entries.len()
                == 512 by {}
            lemma_walk_keeps(grown, pas, indexes.skip(1), n, create, replies.skip(1));
            lemma_sound_before(
                grown,
                walked(grown, pas, indexes.skip(1), n, create, replies.skip(1)).pages,
            );
            lemma_linked_tree(pages, depth, paths, at, indexes[0], replies[0]);
            let extended = paths.push(paths[at].push(indexes[0]));
            assert forall|path: Seq<usize>, slot: int|
                in_pages(path) && path.len() == depth && 0 <= slot < 512 implies #[trigger] value_at(
                grown,
                path,
                slot,
            ) == value_at(pages, path, slot) by {
                lemma_linked_values(
                    pages,
                    depth,
                    paths,
                    at,
                    indexes[0],
                    replies[0],
                    path,
                    slot,
                );
            }
            assert(extended[n] == paths[at].push(indexes[0]));
            lemma_walk_tree(
                grown,
                pas,
                indexes.skip(1),
                n,
                create,
                replies.skip(1),
                depth,
                extended,
            )
        } else {
            paths
        }
    }
}

/// A walk adds only pages of their own.
pub proof fn lemma_walk_sound(
    pages: Seq<PageView>,
    pas: u8,
    indexes: Seq<usize>,
    at: int,
    create: bool,
    replies: Seq<u64>,
)
    requires
        sound(pages),
        in_pages(indexes),
        0 <= at < pages.len(),
    ensures
        sound(walked(pages, pas, indexes, at, create, replies).pages),
    decreases indexes.len(),
{
    if indexes.len() > 0 {
        assert(in_pages(indexes.skip(1)));
        let entry = pages[at].entries[indexes[0] as int];
        if entry % 2 == 1 {
            if is_link(entry) {
                lemma_page_from(pages, bits::paddr_of(entry), 0);
                match page_at(pages, bits::paddr_of(entry)) {
                    Some(next) => {
                        lemma_walk_sound(pages, pas, indexes.skip(1), next, create, replies);
                    },
                    None => {},
                }
            }
        } else if entry == 0 && create && usable(pages, pas, replies[0]) {
            let n = pages.len() as int;
            let grown = linked(pages, at, indexes[0] as int, replies[0]);
            lemma_page_from(pages, replies[0], 0);
            assert forall|i: int| 0 <= i < grown.len() implies (#[trigger] grown[i]).entries.len()
                == 512 && is_page(grown[i].paddr) by {
                if i < n {
                    assert(pages[i].entries.len() == 512 && is_page(pages[i].paddr));
                }
            }
            assert forall|i: int, j: int| 0 <= i < j < grown.len() implies (#[trigger] grown[i]).paddr
                != (#[trigger] grown[j]).paddr by {
                assert(grown[i].paddr == pages[i].paddr);
                if j < n {
                    assert(grown[j].paddr == pages[j].paddr);
                    assert(pages[i].paddr != pages[j].paddr);
                }
            }
            lemma_walk_sound(grown, pas, indexes.skip(1), n, create, replies.skip(1));
        }
    }
}

/// A walk from the root keeps the tree a tree and changes nothing of what the
/// table holds; if it ended well, its path leads to the page that it gave. This
/// holds whatever pages the requests got.
pub proof fn walking_keeps_values(
    pages: Seq<PageView>,
    pas: u8,
    indexes: Seq<usize>,
    create: bool,
    replies: Seq<u64>,
)
    requires
        is_tree(pages, indexes.len()),
        in_pages(indexes),
    ensures
        is_tree(walked(pages, pas, indexes, 0, create, replies).pages, indexes.len()),
        forall|path: Seq<usize>, slot: int|
            in_pages(path) && path.len() == indexes.len() && 0 <= slot < 512 ==> #[trigger] value_at(
                walked(pages, pas, indexes, 0, create, replies).pages,
                path,
                slot,
            ) == value_at(pages, path, slot),
        walked(pages, pas, indexes, 0, create, replies).outcome matches Ok(p) ==> reach(
            walked(pages, pas, indexes, 0, create, replies).pages,
            indexes,
            0,
        ) == Some(p),
{
    let paths = choose|paths: Seq<Seq<usize>>| #[trigger] tree(pages, indexes.len(), paths);
    lemma_walk_sound(pages, pas, indexes, 0, create, replies);
    let longer = lemma_walk_tree(
        pages,
        pas,
        indexes,
        0,
        create,
        replies,
        indexes.len(),
        paths,
    );
    assert(tree(
        walked(pages, pas, indexes, 0, create, replies).pages,
        indexes.len(),
        longer,
    ));
    lemma_walk_reaches(pages, pas, indexes, 0, create, replies);
}

proof fn lemma_written_reach(
    pages: Seq<PageView>,
    depth: nat,
    paths: Seq<Seq<usize>>,
    at: int,
    index: int,
    value: u64,
    path: Seq<usize>,
    a: int,
)
    requires
        tree(pages, depth, paths),
        0 <= at < pages.len(),
        paths[at].len() == depth,
        0 <= index < 512,
        in_pages(path),
        0 <= a < pages.len(),
        paths[a].len() + path.len() <= depth,
    ensures
        reach(written(pages, at, index, value), path, a) == reach(pages, path, a),
    decreases path.len(),
{
    let after = written(pages, at, index, value);
    if path.len() > 0 {
        assert(in_pages(path.skip(1)));
        assert(entry_leads(pages, paths, a, path[0] as int));
        let entry = pages[a].entries[path[0] as int];
        assert(after[a].entries[path[0] as int] == entry);
        if entry != 0 {
            let next = page_at(pages, bits::paddr_of(entry))->0;
            lemma_page_from(pages, bits::paddr_of(entry), 0);
            lemma_written_sound(pages, at, index, value);
            assert(after[next].paddr == pages[next].paddr);
            lemma_page_at(after, next);
            lemma_written_reach(pages, depth, paths, at, index, value, path.skip(1), next);
        }
    }
}

pub proof fn lemma_written_sound(pages: Seq<PageView>, at: int, index: int, value: u64)
    requires
        sound(pages),
        0 <= at < pages.len(),
        0 <= index < 512,
    ensures
        sound(written(pages, at, index, value)),
{
    let after = written(pages, at, index, value);
    assert forall|i: int, j: int| 0 <= i < j < after.len() implies (#[trigger] after[i]).paddr != (
    #[trigger] after[j]).paddr by {
        assert(after[i].paddr == pages[i].paddr);
        assert(after[j].paddr == pages[j].paddr);
    }
}

/// What is written to a slot at the end of a path is what the table holds there;
/// everything else stays.
pub proof fn written_value_is_there(
    pages: Seq<PageView>,
    path: Seq<usize>,
    at: int,
    index: int,
    value: u64,
)
    requires
        is_tree(pages, path.len()),
        in_pages(path),
        reach(pages, path, 0) == Some(at),
        0 <= index < 512,
    ensures
        is_tree(written(pages, at, index, value), path.len()),
        forall|other: Seq<usize>, slot: int|
            in_pages(other) && other.len() == path.len() && 0 <= slot < 512 ==> #[trigger] value_at(
                written(pages, at, index, value),
                other,
                slot,
            ) == (if other == path && slot == index {
                value
            } else {
                value_at(pages, other, slot)
            }),
{
    let depth = path.len();
    let paths = choose|paths: Seq<Seq<usize>>| #[trigger] tree(pages, depth, paths);
    let after = written(pages, at, index, value);
    lemma_reach_path(pages, depth, paths, path, 0);
    assert(paths[at] =~= path);
    lemma_written_sound(pages, at, index, value);
    assert forall|i: int, k: int|
        0 <= i < after.len() && paths[i].len() < depth && 0 <= k < 512 implies #[trigger]
    entry_leads(after, paths, i, k) by {
        assert(entry_leads(pages, paths, i, k));
        assert(after[i].entries[k] == pages[i].entries[k]);
        let entry = pages[i].entries[k];
        if entry != 0 {
            let next = page_at(pages, bits::paddr_of(entry))->0;
            lemma_page_from(pages, bits::paddr_of(entry), 0);
            assert(after[next].paddr == pages[next].paddr);
            lemma_page_at(after, next);
        }
    }
    assert(tree(after, depth, paths));
    assert forall|other: Seq<usize>, slot: int|
        in_pages(other) && other.len() == path.len() && 0 <= slot < 512 implies #[trigger] value_at(
        after,
        other,
        slot,
    ) == (if other == path && slot == index {
        value
    } else {
        value_at(pages, other, slot)
    }) by {
        lemma_written_reach(pages, depth, paths, at, index, value, other, 0);
        lemma_reach_path(pages, depth, paths, other, 0);
        match reach(pages, other, 0) {
            Some(q) => {
                assert(paths[q] =~= other);
            },
            None => {},
        }
    }
}

/// A write at the end of a path leaves the path.
pub proof fn lemma_write_keeps_way(
    pages: Seq<PageView>,
    path: Seq<usize>,
    at: int,
    index: int,
    value: u64,
)
    requires
        is_tree(pages, path.len()),
        in_pages(path),
        reach(pages, path, 0) == Some(at),
        0 <= index < 512,
    ensures
        reach(written(pages, at, index, value), path, 0) == Some(at),
{
    let paths = choose|paths: Seq<Seq<usize>>| #[trigger] tree(pages, path.len(), paths);
    lemma_reach_path(pages, path.len(), paths, path, 0);
    lemma_written_reach(pages, path.len(), paths, at, index, value, path, 0);
}

/// A path leads to one of the pages.
pub proof fn lemma_reach_in_pages(pages: Seq<PageView>, path: Seq<usize>)
    requires
        is_tree(pages, path.len()),
        in_pages(path),
    ensures
        reach(pages, path, 0) matches Some(at) ==> 0 <= at < pages.len(),
{
    let paths = choose|paths: Seq<Seq<usize>>| #[trigger] tree(pages, path.len(), paths);
    lemma_reach_path(pages, path.len(), paths, path, 0);
}

/// A root alone is a tree that holds nothing.
pub proof fn root_is_tree(paddr: u64, depth: nat)
    requires
        is_page(paddr),
    ensures
        is_tree(seq![empty_page(paddr)], depth),
        forall|path: Seq<usize>, slot: int|
            in_pages(path) && path.len() == depth && 0 <= slot < 512 ==> #[trigger] value_at(
                seq![empty_page(paddr)],
                path,
                slot,
            ) == 0,
{
    let pages = seq![empty_page(paddr)];
    let paths = seq![Seq::<usize>::empty()];
    assert forall|i: int, k: int|
        0 <= i < pages.len() && paths[i].len() < depth && 0 <= k < 512 implies #[trigger]
    entry_leads(pages, paths, i, k) by {
        assert(pages[0].entries[k] == 0);
    }
    assert(tree(pages, depth, paths));
    assert forall|path: Seq<usize>, slot: int|
        in_pages(path) && path.len() == depth && 0 <= slot < 512 implies #[trigger] value_at(
        pages,
        path,
        slot,
    ) == 0 by {
        if path.len() > 0 {
            assert(pages[0].entries[path[0] as int] == 0);
        }
    }
}

/// A walk that makes no tables does nothing else either.
pub proof fn lemma_plain_walk(
    pages: Seq<PageView>,
    pas: u8,
    indexes: Seq<usize>,
    at: int,
    replies: Seq<u64>,
    others: Seq<u64>,
)
    ensures
        walked(pages, pas, indexes, at, false, replies).pages == pages,
        walked(pages, pas, indexes, at, false, replies).trace == Seq::<Exchange>::empty(),
        walked(pages, pas, indexes, at, false, replies) == walked(
            pages,
            pas,
            indexes,
            at,
            false,
            others,
        ),
    decreases indexes.len(),
{
    if indexes.len() > 0 {
        let entry = pages[at].entries[indexes[0] as int];
        if entry % 2 == 1 && is_link(entry) {
            match page_at(pages, bits::paddr_of(entry)) {
                Some(next) => {
                    lemma_plain_walk(pages, pas, indexes.skip(1), next, replies, others);
                },
                None => {},
            }
        }
    }
}

/// A walk along a path that leads to a page gives that page and does nothing else.
pub proof fn lemma_reached_walk(
    pages: Seq<PageView>,
    pas: u8,
    indexes: Seq<usize>,
    at: int,
    create: bool,
    replies: Seq<u64>,
)
    ensures
        reach(pages, indexes, at) matches Some(page) ==> walked(
            pages,
            pas,
            indexes,
            at,
            create,
            replies,
        ) == (Walk {
            pages,
            outcome: Ok::<int, WalkError>(page),
            trace: Seq::<Exchange>::empty(),
        }),
    decreases indexes.len(),
{
    if indexes.len() > 0 {
        let entry = pages[at].entries[indexes[0] as int];
        if is_link(entry) {
            assert(entry % 2 == 1);
            match page_at(pages, bits::paddr_of(entry)) {
                Some(next) => {
                    lemma_reached_walk(pages, pas, indexes.skip(1), next, create, replies);
                },
                None => {},
            }
        }
    }
}

pub proof fn lemma_tree_is_sound(pages: Seq<PageView>, depth: nat)
    requires
        is_tree(pages, depth),
    ensures
        sound(pages),
{
}

} // verus!
