//! The tables that translate the addresses of one device.

use vstd::prelude::*;
use crate::iommu::bits;
use crate::iommu::bits::{
    PTE_ACCESSED, PTE_DIRTY, PTE_READ, PTE_USER, PTE_VALID, PTE_WRITE, pte_is_leaf,
};
use crate::iommu::radix;
use crate::iommu::radix::{
    PageView, RadixTable, WalkError, page_valid, physical_address_valid, release_table,
};
use crate::port;
use crate::port::{Access, Exchange, NO_PAGE, Port};

verus! {

#[derive(Clone, Copy, Debug, PartialEq, Eq, Structural)]
pub enum PageTableError {
    Invalid,
    OutOfMemory,
    Conflict,
    Corrupt,
}

/// The flags of a page. Requests of ordinary devices are checked as those of
/// users.
pub open spec fn flags_of(writable: bool) -> u64 {
    if writable {
        0xd7
    } else {
        0x53
    }
}

pub fn leaf_flags(writable: bool) -> (flags: u64)
    ensures
        flags == flags_of(writable),
{
    let flags: u64 = PTE_VALID + PTE_READ + PTE_USER + PTE_ACCESSED;
    if writable {
        flags + PTE_WRITE + PTE_DIRTY
    } else {
        flags
    }
}

/// How much address space an entry of a level covers.
pub open spec fn span(level: int) -> int {
    if level <= 0 {
        0x1000
    } else if level == 1 {
        0x20_0000
    } else if level == 2 {
        0x4000_0000
    } else if level == 3 {
        0x80_0000_0000
    } else {
        0x1_0000_0000_0000
    }
}

/// The indexes that lead to the last table for an address, from the root on.
pub open spec fn path_of(levels: nat, iova: int) -> Seq<usize> {
    Seq::new((levels - 1) as nat, |i: int| (iova / span(levels - 1 - i) % 512) as usize)
}

/// The slot of an address in the last table.
pub open spec fn slot_of(iova: int) -> int {
    iova / 0x1000 % 512
}

/// How many levels a mode has.
pub open spec fn levels_of(mode: u8) -> nat {
    if mode == 8 {
        3
    } else if mode == 9 {
        4
    } else {
        5
    }
}

/// The highest address that a mode translates, of the lower half.
pub open spec fn top_of(mode: u8) -> u64 {
    if mode == 8 {
        0x3f_ffff_ffff
    } else if mode == 9 {
        0x7fff_ffff_ffff
    } else {
        0xff_ffff_ffff_ffff
    }
}

/// What the tables hold for an address; nothing is zero.
pub open spec fn translation(pages: Seq<PageView>, levels: nat, iova: int) -> u64 {
    radix::value_at(pages, path_of(levels, iova), slot_of(iova))
}

/// How a walk that was stopped is reported.
pub open spec fn walk_fault(error: WalkError) -> PageTableError {
    match error {
        WalkError::Absent => PageTableError::Invalid,
        WalkError::OutOfMemory => PageTableError::OutOfMemory,
        WalkError::Unreachable => PageTableError::Invalid,
        WalkError::Corrupt => PageTableError::Corrupt,
    }
}

fn map_walk_error(error: WalkError) -> (fault: PageTableError)
    ensures
        fault == walk_fault(error),
{
    match error {
        WalkError::Absent => PageTableError::Invalid,
        WalkError::OutOfMemory => PageTableError::OutOfMemory,
        WalkError::Unreachable => PageTableError::Invalid,
        WalkError::Corrupt => PageTableError::Corrupt,
    }
}

/// A change of the tables.
pub ghost struct Change {
    pub pages: Seq<PageView>,
    pub outcome: Result<(), PageTableError>,
    pub trace: Seq<Exchange>,
}

/// Nothing changes, with an error.
pub open spec fn unchanged(pages: Seq<PageView>, error: PageTableError) -> Change {
    Change { pages, outcome: Err(error), trace: Seq::empty() }
}

/// Whether the unit can address all of a page.
pub open spec fn page_reachable(pas: u8, paddr: u64) -> bool {
    &&& paddr % 4096 == 0
    &&& radix::reachable(pas, paddr)
    &&& paddr + 4095 <= usize::MAX
    &&& radix::reachable(pas, (paddr + 4095) as u64)
}

/// The entry for a page.
pub open spec fn leaf_entry(paddr: u64, writable: bool) -> u64 {
    (bits::ppn(paddr as int) + flags_of(writable)) as u64
}

/// What mapping a page does.
pub open spec fn page_mapped(
    pages: Seq<PageView>,
    pas: u8,
    mode: u8,
    iova: u64,
    paddr: u64,
    writable: bool,
    replies: Seq<u64>,
) -> Change {
    let walk = radix::walked(
        pages,
        pas,
        path_of(levels_of(mode), iova as int),
        0,
        true,
        replies,
    );
    if !page_reachable(pas, paddr) || iova > top_of(mode) || iova % 4096 != 0 {
        unchanged(pages, PageTableError::Invalid)
    } else {
        match walk.outcome {
            Err(error) => Change {
                pages: walk.pages,
                outcome: Err(walk_fault(error)),
                trace: walk.trace,
            },
            Ok(at) => if walk.pages[at].entries[slot_of(iova as int)] != 0 {
                Change {
                    pages: walk.pages,
                    outcome: Err(PageTableError::Conflict),
                    trace: walk.trace,
                }
            } else {
                Change {
                    pages: radix::written(
                        walk.pages,
                        at,
                        slot_of(iova as int),
                        leaf_entry(paddr, writable),
                    ),
                    outcome: Ok(()),
                    trace: walk.trace + radix::write_trace(
                        walk.pages[at],
                        slot_of(iova as int),
                        leaf_entry(paddr, writable),
                    ),
                }
            },
        }
    }
}

/// What unmapping a page does. A page that is not mapped any more is no error, so
/// that it can be tried again.
pub open spec fn page_unmapped(pages: Seq<PageView>, pas: u8, mode: u8, iova: u64) -> Change {
    let walk = radix::walked(
        pages,
        pas,
        path_of(levels_of(mode), iova as int),
        0,
        false,
        Seq::empty(),
    );
    if iova > top_of(mode) || iova % 4096 != 0 {
        unchanged(pages, PageTableError::Invalid)
    } else {
        match walk.outcome {
            Err(error) => unchanged(pages, walk_fault(error)),
            Ok(at) => {
                let entry = pages[at].entries[slot_of(iova as int)];
                if entry == 0 {
                    Change { pages, outcome: Ok(()), trace: Seq::empty() }
                } else if entry % 2 == 0 || !bits::is_leaf(entry) {
                    unchanged(pages, PageTableError::Invalid)
                } else {
                    Change {
                        pages: radix::written(pages, at, slot_of(iova as int), 0),
                        outcome: Ok(()),
                        trace: radix::write_trace(pages[at], slot_of(iova as int), 0),
                    }
                }
            },
        }
    }
}

/// Whether a change was made.
pub open spec fn changed(
    change: Change,
    after: Seq<PageView>,
    result: Result<(), PageTableError>,
    log: Seq<Exchange>,
    now: Seq<Exchange>,
) -> bool {
    after == change.pages && result == change.outcome && now == log + change.trace
}

/// Whether a page was mapped, with these answers to requests for pages.
pub open spec fn map_done(
    pages: Seq<PageView>,
    pas: u8,
    mode: u8,
    iova: u64,
    paddr: u64,
    writable: bool,
    replies: Seq<u64>,
    after: Seq<PageView>,
    result: Result<(), PageTableError>,
    log: Seq<Exchange>,
    now: Seq<Exchange>,
) -> bool {
    changed(
        page_mapped(pages, pas, mode, iova, paddr, writable, replies),
        after,
        result,
        log,
        now,
    )
}

/// What asking for a root does: a page that links cannot point to is given back.
pub open spec fn root_asked(log: Seq<Exchange>, reply: u64) -> Seq<Exchange> {
    if reply != NO_PAGE && !radix::is_page(reply) {
        log.push(port::allocated(reply)).push(port::released(reply))
    } else {
        log.push(port::allocated(reply))
    }
}

/// Why a page cannot be a root.
pub open spec fn root_fault(reply: u64) -> Option<PageTableError> {
    if reply == NO_PAGE {
        Some(PageTableError::OutOfMemory)
    } else if !radix::is_page(reply) {
        Some(PageTableError::Invalid)
    } else {
        None
    }
}

/// The tables of one device.
pub struct PageTable {
    mode: u8,
    table: RadixTable,
}

impl PageTable {
    pub closed spec fn the_mode(&self) -> u8 {
        self.mode
    }

    pub closed spec fn pas(&self) -> u8 {
        self.table.pas
    }

    pub closed spec fn view(&self) -> Seq<PageView> {
        self.table@
    }

    pub open spec fn levels(&self) -> nat {
        levels_of(self.the_mode())
    }

    /// The tables form a tree of the mode's depth.
    pub closed spec fn wf(&self) -> bool {
        &&& self.table.wf()
        &&& 8 <= self.mode <= 10
        &&& radix::is_tree(self.table@, (levels_of(self.mode) - 1) as nat)
    }

    /// Whether the tables are those of a tree: nothing is reached by two ways.
    pub open spec fn is_tree(&self) -> bool {
        radix::is_tree(self@, (self.levels() - 1) as nat)
    }

    /// The tables are always those of a tree.
    pub proof fn tables_form_a_tree(&self)
        requires
            self.wf(),
        ensures
            8 <= self.the_mode() <= 10,
            self.is_tree(),
    {
    }

    pub fn new<F: FnMut(Access) -> u64>(port: &mut Port<F>, mode: u8, pas: u8) -> (result: Result<
        Self,
        PageTableError,
    >)
        requires
            old(port).wf(),
        ensures
            final(port).wf(),
            final(port).performs() == old(port).performs(),
            if !(8 <= mode <= 10) {
                result == Err::<PageTable, PageTableError>(PageTableError::Invalid) && final(port).log() == old(port).log()
            } else {
                exists|reply: u64|
                    final(port).log() == #[trigger] root_asked(old(port).log(), reply) && (
                    match root_fault(reply) {
                        Some(fault) => result == Err::<PageTable, PageTableError>(fault),
                        None => result matches Ok(table) && table.wf() && table.the_mode() == mode
                            && table.pas() == pas && table@ == seq![radix::empty_page(reply)],
                    })
            },
    {
        if mode != 8 && mode != 9 && mode != 10 {
            return Err(PageTableError::Invalid);
        }
        let ghost start = port.log();
        let made = RadixTable::new(port, pas);
        let ghost reply = choose|reply: u64|
            port.log() == start.push(#[trigger] port::allocated(reply)) && (if reply == NO_PAGE {
                made is None
            } else {
                made matches Some(table) && table.wf() && table.pas == pas && table@
                    == seq![radix::empty_page(reply)]
            });
        let table = match made {
            Some(table) => table,
            None => {
                assert(port.log() == root_asked(start, reply));
                return Err(PageTableError::OutOfMemory);
            },
        };
        assert(table@[0].paddr == reply);
        if !page_valid(table.pages[0].paddr) {
            release_table(table, port);
            assert(radix::release_trace(table@) =~= seq![port::released(reply)]);
            assert(port.log() =~= root_asked(start, reply));
            return Err(PageTableError::Invalid);
        }
        proof {
            radix::root_is_tree(reply, (levels_of(mode) - 1) as nat);
            assert(port.log() == root_asked(start, reply));
        }
        Ok(PageTable { mode, table })
    }

    pub fn mode(&self) -> (mode: u8)
        ensures
            mode == self.the_mode(),
            self.wf() ==> 8 <= mode <= 10,
    {
        self.mode
    }

    pub fn root_paddr(&self) -> (paddr: u64)
        requires
            self.wf(),
        ensures
            paddr == self@[0].paddr,
    {
        self.table.pages[0].paddr
    }

    pub fn max_iova(&self) -> (top: usize)
        requires
            self.wf(),
        ensures
            top == (if top_of(self.the_mode()) > usize::MAX {
                usize::MAX as int
            } else {
                top_of(self.the_mode()) as int
            }),
    {
        let top: u64 = if self.mode == 8 {
            0x3f_ffff_ffff
        } else if self.mode == 9 {
            0x7fff_ffff_ffff
        } else {
            0xff_ffff_ffff_ffff
        };
        if top > usize::MAX as u64 {
            usize::MAX
        } else {
            top as usize
        }
    }

    /// Gives the pages of the tables back.
    pub fn release<F: FnMut(Access) -> u64>(self, port: &mut Port<F>)
        requires
            old(port).wf(),
        ensures
            final(port).wf(),
            final(port).performs() == old(port).performs(),
            final(port).log() == old(port).log() + radix::release_trace(self@),
    {
        release_table(self.table, port);
    }

    fn path(&self, iova: usize) -> (path: Vec<usize>)
        requires
            self.wf(),
        ensures
            path@ == path_of(self.levels(), iova as int),
            radix::in_pages(path@),
    {
        let address: u64 = iova as u64;
        let mut path: Vec<usize> = Vec::new();
        if self.mode == 10 {
            path.push((address / 0x1_0000_0000_0000 % 512) as usize);
        }
        if self.mode >= 9 {
            path.push((address / 0x80_0000_0000 % 512) as usize);
        }
        path.push((address / 0x4000_0000 % 512) as usize);
        path.push((address / 0x20_0000 % 512) as usize);
        assert(path@ =~= path_of(self.levels(), iova as int));
        path
    }

    /// Maps a page at an address that has none.
    pub fn map_page<F: FnMut(Access) -> u64>(
        &mut self,
        port: &mut Port<F>,
        iova: usize,
        paddr: usize,
        writable: bool,
    ) -> (result: Result<(), PageTableError>)
        requires
            old(self).wf(),
            old(port).wf(),
        ensures
            final(self).wf(),
            final(port).wf(),
            final(port).performs() == old(port).performs(),
            final(self).the_mode() == old(self).the_mode(),
            final(self).pas() == old(self).pas(),
            exists|replies: Seq<u64>| #[trigger]
                map_done(
                    old(self)@,
                    old(self).pas(),
                    old(self).the_mode(),
                    iova as u64,
                    paddr as u64,
                    writable,
                    replies,
                    final(self)@,
                    result,
                    old(port).log(),
                    final(port).log(),
                ),
    {
        let ghost before = self@;
        let ghost start = port.log();
        let ghost pas = self.pas();
        let ghost mode = self.the_mode();
        assert(start + Seq::<Exchange>::empty() =~= start);
        if paddr % 4096 != 0 || paddr > usize::MAX - 4095 || !physical_address_valid(
            self.table.pas,
            paddr as u64,
        ) || !physical_address_valid(self.table.pas, (paddr + 4095) as u64) || iova
            > self.max_iova() || iova % 4096 != 0 {
            assert(map_done(before, pas, mode, iova as u64, paddr as u64, writable, Seq::empty(), self@, Err(PageTableError::Invalid), start, port.log()));
            return Err(PageTableError::Invalid);
        }
        let path = self.path(iova);
        let walked = self.table.walk(port, path.as_slice(), 0, 0, true);
        let ghost replies = choose|replies: Seq<u64>| #[trigger]
            radix::was_walked(
                before,
                pas,
                path@.skip(0),
                0,
                true,
                replies,
                self.table@,
                walked,
                start,
                port.log(),
            );
        let ghost change = page_mapped(
            before,
            pas,
            mode,
            iova as u64,
            paddr as u64,
            writable,
            replies,
        );
        assert(path@.skip(0) =~= path@);
        proof {
            mapping_is_exact(before, pas, mode, iova as u64, paddr as u64, writable, replies);
        }
        let at: usize = match walked {
            Ok(at) => at,
            Err(error) => {
                let fault = map_walk_error(error);
                assert(map_done(before, pas, mode, iova as u64, paddr as u64, writable, replies, self@, Err(fault), start, port.log()));
                return Err(fault);
            },
        };
        let slot: usize = iova / 4096 % 512;
        if self.table.read(at, slot) != 0 {
            assert(map_done(before, pas, mode, iova as u64, paddr as u64, writable, replies, self@, Err(PageTableError::Conflict), start, port.log()));
            return Err(PageTableError::Conflict);
        }
        let entry: u64 = paddr as u64 / 4096 * 1024 + leaf_flags(writable);
        self.table.write(port, at, slot, entry);
        assert(port.log() =~= start + change.trace);
        assert(map_done(before, pas, mode, iova as u64, paddr as u64, writable, replies, self@, Ok(()), start, port.log()));
        Ok(())
    }

    /// Unmaps a page.
    pub fn unmap_page<F: FnMut(Access) -> u64>(&mut self, port: &mut Port<F>, iova: usize) -> (result:
        Result<(), PageTableError>)
        requires
            old(self).wf(),
            old(port).wf(),
        ensures
            final(self).wf(),
            final(port).wf(),
            final(port).performs() == old(port).performs(),
            final(self).the_mode() == old(self).the_mode(),
            final(self).pas() == old(self).pas(),
            changed(
                page_unmapped(old(self)@, old(self).pas(), old(self).the_mode(), iova as u64),
                final(self)@,
                result,
                old(port).log(),
                final(port).log(),
            ),
    {
        let ghost before = self@;
        let ghost start = port.log();
        let ghost pas = self.pas();
        assert(start + Seq::<Exchange>::empty() =~= start);
        if iova > self.max_iova() || iova % 4096 != 0 {
            return Err(PageTableError::Invalid);
        }
        let path = self.path(iova);
        let walked = self.table.walk(port, path.as_slice(), 0, 0, false);
        proof {
            let replies = choose|replies: Seq<u64>| #[trigger]
                radix::was_walked(
                    before,
                    pas,
                    path@.skip(0),
                    0,
                    false,
                    replies,
                    self.table@,
                    walked,
                    start,
                    port.log(),
                );
            assert(path@.skip(0) =~= path@);
            radix::lemma_plain_walk(before, pas, path@, 0, replies, Seq::empty());
            unmapping_is_exact(before, pas, self.the_mode(), iova as u64);
            assert(start + Seq::<Exchange>::empty() =~= start);
        }
        let at: usize = match walked {
            Ok(at) => at,
            Err(error) => {
                return Err(map_walk_error(error));
            },
        };
        let slot: usize = iova / 4096 % 512;
        let entry: u64 = self.table.read(at, slot);
        if entry == 0 {
            return Ok(());
        }
        if entry % 2 == 0 || !pte_is_leaf(entry) {
            return Err(PageTableError::Invalid);
        }
        self.table.write(port, at, slot, 0);
        Ok(())
    }
}

pub proof fn lemma_path(levels: nat, x: int)
    requires
        3 <= levels <= 5,
        0 <= x,
    ensures
        radix::in_pages(path_of(levels, x)),
        path_of(levels, x).len() == levels - 1,
        0 <= slot_of(x) < 512,
{
    assert forall|i: int| 0 <= i < levels - 1 implies #[trigger] path_of(levels, x)[i] < 512 by {}
}

proof fn lemma_digit(x: int, y: int, low: int)
    requires
        low > 0,
        x >= 0,
        y >= 0,
        x / (low * 512) == y / (low * 512),
        x / low % 512 == y / low % 512,
    ensures
        x / low == y / low,
{
    vstd::arithmetic::div_mod::lemma_div_denominator(x, low, 512);
    vstd::arithmetic::div_mod::lemma_div_denominator(y, low, 512);
    vstd::arithmetic::div_mod::lemma_fundamental_div_mod(x / low, 512);
    vstd::arithmetic::div_mod::lemma_fundamental_div_mod(y / low, 512);
}

/// Addresses of different pages have different places in the tables.
proof fn lemma_places_are_distinct(mode: u8, x: int, y: int)
    requires
        8 <= mode <= 10,
        0 <= x <= top_of(mode),
        0 <= y <= top_of(mode),
        x % 4096 == 0,
        y % 4096 == 0,
        path_of(levels_of(mode), x) == path_of(levels_of(mode), y),
        slot_of(x) == slot_of(y),
    ensures
        x == y,
{
    let levels = levels_of(mode);
    let p = path_of(levels, x);
    let q = path_of(levels, y);
    assert(p[levels - 2] == q[levels - 2] && p[levels - 3] == q[levels - 3]);
    if levels >= 5 {
        assert(p[levels - 5] == q[levels - 5]);
        assert(x / 0x200_0000_0000_0000 == 0 && y / 0x200_0000_0000_0000 == 0);
        lemma_digit(x, y, 0x1_0000_0000_0000);
    }
    if levels >= 4 {
        assert(p[levels - 4] == q[levels - 4]);
        if levels == 4 {
            assert(x / 0x1_0000_0000_0000 == 0 && y / 0x1_0000_0000_0000 == 0);
        }
        lemma_digit(x, y, 0x80_0000_0000);
    }
    if levels == 3 {
        assert(x / 0x80_0000_0000 == 0 && y / 0x80_0000_0000 == 0);
    }
    lemma_digit(x, y, 0x4000_0000);
    lemma_digit(x, y, 0x20_0000);
    lemma_digit(x, y, 0x1000);
}

/// Mapping a page makes its address translate to it and leaves every other address
/// as it was; a refusal leaves all of them as they were. This holds whatever pages
/// the tables got.
pub proof fn mapping_is_exact(
    pages: Seq<PageView>,
    pas: u8,
    mode: u8,
    iova: u64,
    paddr: u64,
    writable: bool,
    replies: Seq<u64>,
)
    requires
        8 <= mode <= 10,
        radix::is_tree(pages, (levels_of(mode) - 1) as nat),
    ensures
        ({
            let change = page_mapped(pages, pas, mode, iova, paddr, writable, replies);
            &&& radix::is_tree(change.pages, (levels_of(mode) - 1) as nat)
            &&& forall|x: int|
                0 <= x <= top_of(mode) && x % 4096 == 0 ==> #[trigger] translation(
                    change.pages,
                    levels_of(mode),
                    x,
                ) == (if change.outcome is Ok && x == iova {
                    leaf_entry(paddr, writable)
                } else {
                    translation(pages, levels_of(mode), x)
                })
            &&& change.outcome is Ok ==> translation(pages, levels_of(mode), iova as int) == 0
            &&& change.outcome == Err::<(), PageTableError>(PageTableError::Conflict)
                ==> translation(pages, levels_of(mode), iova as int) != 0
        }),
{
    let levels = levels_of(mode);
    let path = path_of(levels, iova as int);
    let change = page_mapped(pages, pas, mode, iova, paddr, writable, replies);
    if page_reachable(pas, paddr) && iova <= top_of(mode) && iova % 4096 == 0 {
        let walk = radix::walked(pages, pas, path, 0, true, replies);
        lemma_path(levels, iova as int);
        let grown = walk.pages;
        radix::walking_keeps_values(pages, pas, path, true, replies);
        assert forall|x: int| 0 <= x <= top_of(mode) && x % 4096 == 0 implies #[trigger] translation(
            change.pages,
            levels,
            x,
        ) == (if change.outcome is Ok && x == iova {
            leaf_entry(paddr, writable)
        } else {
            translation(pages, levels, x)
        }) by {
            lemma_path(levels, x);
            assert(radix::value_at(grown, path_of(levels, x), slot_of(x)) == translation(
                pages,
                levels,
                x,
            ));
            if change.outcome is Ok {
                radix::written_value_is_there(
                    grown,
                    path,
                    walk.outcome->Ok_0,
                    slot_of(iova as int),
                    leaf_entry(paddr, writable),
                );
                assert(radix::value_at(change.pages, path_of(levels, x), slot_of(x)) == (if path_of(
                    levels,
                    x,
                ) == path && slot_of(x) == slot_of(iova as int) {
                    leaf_entry(paddr, writable)
                } else {
                    radix::value_at(grown, path_of(levels, x), slot_of(x))
                }));
                if path_of(levels, x) == path && slot_of(x) == slot_of(iova as int) {
                    lemma_places_are_distinct(mode, x, iova as int);
                }
            }
        }
        if walk.outcome is Ok {
            assert(radix::value_at(grown, path, slot_of(iova as int))
                == grown[walk.outcome->Ok_0].entries[slot_of(iova as int)]);
        }
        if change.outcome is Ok {
            radix::written_value_is_there(
                grown,
                path,
                walk.outcome->Ok_0,
                slot_of(iova as int),
                leaf_entry(paddr, writable),
            );
        }
    }
}

/// Unmapping a page makes its address translate to nothing and leaves every other
/// address as it was.
pub proof fn unmapping_is_exact(pages: Seq<PageView>, pas: u8, mode: u8, iova: u64)
    requires
        8 <= mode <= 10,
        radix::is_tree(pages, (levels_of(mode) - 1) as nat),
    ensures
        ({
            let change = page_unmapped(pages, pas, mode, iova);
            &&& radix::is_tree(change.pages, (levels_of(mode) - 1) as nat)
            &&& forall|x: int|
                0 <= x <= top_of(mode) && x % 4096 == 0 ==> #[trigger] translation(
                    change.pages,
                    levels_of(mode),
                    x,
                ) == (if change.outcome is Ok && x == iova {
                    0
                } else {
                    translation(pages, levels_of(mode), x)
                })
        }),
{
    let levels = levels_of(mode);
    let path = path_of(levels, iova as int);
    let change = page_unmapped(pages, pas, mode, iova);
    if iova <= top_of(mode) && iova % 4096 == 0 {
        lemma_path(levels, iova as int);
        let walk = radix::walked(pages, pas, path, 0, false, Seq::empty());
        radix::lemma_plain_walk(pages, pas, path, 0, Seq::empty(), Seq::empty());
        radix::walking_keeps_values(pages, pas, path, false, Seq::empty());
        if change.outcome is Ok {
            let at = walk.outcome->Ok_0;
            let entry = pages[at].entries[slot_of(iova as int)];
            assert(translation(pages, levels, iova as int) == entry);
            if entry != 0 {
                radix::written_value_is_there(pages, path, at, slot_of(iova as int), 0);
            }
            assert forall|x: int|
                0 <= x <= top_of(mode) && x % 4096 == 0 implies #[trigger] translation(
                change.pages,
                levels,
                x,
            ) == (if x == iova {
                0
            } else {
                translation(pages, levels, x)
            }) by {
                lemma_path(levels, x);
                if entry != 0 {
                    assert(radix::value_at(change.pages, path_of(levels, x), slot_of(x)) == (
                    if path_of(levels, x) == path && slot_of(x) == slot_of(iova as int) {
                        0
                    } else {
                        radix::value_at(pages, path_of(levels, x), slot_of(x))
                    }));
                    if path_of(levels, x) == path && slot_of(x) == slot_of(iova as int) {
                        lemma_places_are_distinct(mode, x, iova as int);
                    }
                }
            }
        }
    }
}

/// A page that was mapped can be unmapped. It can then be unmapped once more, which
/// changes nothing, so that unmapping can be tried again as a whole; and its address
/// can be mapped again, whatever answers further requests for pages would get.
pub proof fn unmapped_page_maps_again(
    pages: Seq<PageView>,
    pas: u8,
    mode: u8,
    iova: u64,
    paddr: u64,
    writable: bool,
    replies: Seq<u64>,
    again: Seq<u64>,
)
    requires
        8 <= mode <= 10,
        radix::is_tree(pages, (levels_of(mode) - 1) as nat),
        page_mapped(pages, pas, mode, iova, paddr, writable, replies).outcome is Ok,
    ensures
        ({
            let mapped = page_mapped(pages, pas, mode, iova, paddr, writable, replies).pages;
            let unmapped = page_unmapped(mapped, pas, mode, iova);
            &&& unmapped.outcome is Ok
            &&& page_unmapped(unmapped.pages, pas, mode, iova) == (Change {
                pages: unmapped.pages,
                outcome: Ok::<(), PageTableError>(()),
                trace: Seq::<Exchange>::empty(),
            })
            &&& page_mapped(unmapped.pages, pas, mode, iova, paddr, writable, again).outcome is Ok
            &&& page_mapped(unmapped.pages, pas, mode, iova, paddr, writable, again).pages == mapped
        }),
{
    let levels = levels_of(mode);
    let path = path_of(levels, iova as int);
    let slot = slot_of(iova as int);
    let leaf = leaf_entry(paddr, writable);
    lemma_path(levels, iova as int);
    let walk = radix::walked(pages, pas, path, 0, true, replies);
    let at = walk.outcome->Ok_0;
    let mapped = radix::written(walk.pages, at, slot, leaf);
    radix::walking_keeps_values(pages, pas, path, true, replies);
    radix::written_value_is_there(walk.pages, path, at, slot, leaf);
    radix::lemma_write_keeps_way(walk.pages, path, at, slot, leaf);
    radix::lemma_reached_walk(mapped, pas, path, 0, false, Seq::empty());
    radix::lemma_tree_is_sound(walk.pages, (levels - 1) as nat);
    radix::lemma_tree_is_sound(mapped, (levels - 1) as nat);
    radix::lemma_reach_in_pages(walk.pages, path);
    assert(mapped[at].entries[slot] == leaf);
    assert(leaf % 2 == 1 && bits::is_leaf(leaf));
    let gone = radix::written(mapped, at, slot, 0);
    assert(page_unmapped(mapped, pas, mode, iova).pages == gone);
    radix::lemma_write_keeps_way(mapped, path, at, slot, 0);
    radix::lemma_reached_walk(gone, pas, path, 0, false, Seq::empty());
    radix::lemma_reached_walk(gone, pas, path, 0, true, again);
    assert(gone[at].entries[slot] == 0);
    let back = radix::written(gone, at, slot, leaf);
    assert(back[at].entries =~= mapped[at].entries);
    assert(back =~= mapped);
}

} // verus!
