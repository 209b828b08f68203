//! The addresses of one device: which memory it may reach, and where.

use vstd::prelude::*;
use crate::iommu::controller::Execution;
use crate::iommu::page_table;
use crate::iommu::page_table::{PageTable, PageTableError};
use crate::iommu::queue::HardwareError;
use crate::iommu::radix;
use crate::iommu::radix::PageView;
use crate::iommu::unit;
use crate::iommu::unit::{
    AttachRun, IommuError, RiscvIommuCore, map_page_table_iommu_error,
};
use crate::port;
use crate::port::{Access, Exchange, Port};

verus! {

/// A mapping that a device has.
#[derive(Clone, Copy, PartialEq, Eq, Structural, Debug)]
pub struct MappingRecord {
    pub token: u64,
    pub dma_addr: usize,
    pub iova_base: usize,
    pub length: usize,
}

/// Which way data goes.
#[derive(Clone, Copy, PartialEq, Eq, Structural, Debug)]
pub enum DmaDirection {
    ToDevice,
    FromDevice,
    Bidirectional,
}

/// Memory that a device is to reach.
#[derive(Clone, Copy, PartialEq, Eq, Structural, Debug)]
pub struct DmaRegion {
    pub paddr: usize,
    pub len: usize,
    pub direction: DmaDirection,
}

/// What a device can address.
#[derive(Clone, Copy, PartialEq, Eq, Structural, Debug)]
pub struct DmaConstraints {
    pub address_mask: usize,
    pub max_segment_size: usize,
}

/// Where a device finds memory.
#[derive(Clone, Copy, PartialEq, Eq, Structural, Debug)]
pub struct DmaMappedRegion {
    pub dma_addr: usize,
    pub token: u64,
}

/// Whether a device accepts memory at an address.
pub open spec fn accepts(constraints: DmaConstraints, dma_addr: int, len: int) -> bool {
    let last = if len == 0 {
        dma_addr
    } else {
        dma_addr + len - 1
    };
    last <= usize::MAX && last <= constraints.address_mask && len <= constraints.max_segment_size
}

pub fn constraints_accepts(constraints: DmaConstraints, dma_addr: usize, len: usize) -> (ok: bool)
    ensures
        ok == accepts(constraints, dma_addr as int, len as int),
{
    let extra: usize = if len == 0 {
        0
    } else {
        len - 1
    };
    match dma_addr.checked_add(extra) {
        Some(last) => last <= constraints.address_mask && len <= constraints.max_segment_size,
        None => false,
    }
}

/// The least multiple of the page size that is not below `value`.
pub open spec fn page_up(value: int) -> int {
    (value + 4095) / 4096 * 4096
}

pub fn align_up(value: usize) -> (result: Option<usize>)
    ensures
        result == (if value + 4095 <= usize::MAX {
            Some(page_up(value as int) as usize)
        } else {
            None
        }),
{
    match value.checked_add(4095) {
        Some(sum) => Some(sum / 4096 * 4096),
        None => None,
    }
}

/// The pages of memory: where they begin, how far in the memory begins, and how
/// long they are.
pub open spec fn geometry_of(region: DmaRegion) -> Option<(int, int, int)> {
    let base = region.paddr as int / 4096 * 4096;
    let offset = region.paddr as int % 4096;
    if region.len == 0 || offset + region.len > usize::MAX || offset + region.len + 4095
        > usize::MAX || base + page_up(offset + region.len) > usize::MAX {
        None
    } else {
        Some((base, offset, page_up(offset + region.len)))
    }
}

pub fn geometry(region: DmaRegion) -> (result: Option<(usize, usize, usize)>)
    ensures
        match result {
            Some((base, offset, length)) => geometry_of(region) == Some(
                (base as int, offset as int, length as int),
            ) && base % 4096 == 0 && offset < 4096 && length % 4096 == 0 && length > 0 && base
                + length <= usize::MAX,
            None => geometry_of(region) is None,
        },
{
    if region.len == 0 {
        return None;
    }
    let base: usize = region.paddr / 4096 * 4096;
    let offset: usize = region.paddr % 4096;
    let covered: usize = match offset.checked_add(region.len) {
        Some(covered) => covered,
        None => {
            return None;
        },
    };
    let length: usize = match align_up(covered) {
        Some(length) => length,
        None => {
            return None;
        },
    };
    match base.checked_add(length) {
        Some(_) => Some((base, offset, length)),
        None => None,
    }
}

/// Whether a mapping has addresses in a range.
pub open spec fn meets(record: MappingRecord, base: int, end: int) -> bool {
    base < record.iova_base + record.length && record.iova_base < end
}

/// Whether no mapping has addresses in a range.
pub open spec fn is_free(mappings: Seq<MappingRecord>, base: int, end: int) -> bool {
    forall|i: int| 0 <= i < mappings.len() ==> !meets(#[trigger] mappings[i], base, end)
}

/// Whether a range of addresses can be given out.
pub open spec fn fits(mappings: Seq<MappingRecord>, length: int, limit: int, base: int) -> bool {
    &&& base % 4096 == 0
    &&& base >= 4096
    &&& base + length <= usize::MAX
    &&& base + length - 1 <= limit
    &&& is_free(mappings, base, base + length)
}

/// The state of a device: its tables and its mappings.
pub struct DomainState {
    pub page_table: PageTable,
    pub mappings: Vec<MappingRecord>,
    pub next_token: u64,
}

impl DomainState {
    /// No two mappings have an address in common, and none has the token of another
    /// or of one to come.
    pub open spec fn wf(&self) -> bool {
        &&& self.page_table.wf()
        &&& forall|i: int|
            0 <= i < self.mappings@.len() ==> (#[trigger] self.mappings@[i]).iova_base
                + self.mappings@[i].length <= usize::MAX && self.mappings@[i].iova_base % 4096 == 0
                && self.mappings@[i].length % 4096 == 0 && self.mappings@[i].length > 0
                && self.mappings@[i].token < self.next_token
        &&& forall|i: int, j: int|
            0 <= i < j < self.mappings@.len() ==> (#[trigger] self.mappings@[i]).token != (
            #[trigger] self.mappings@[j]).token && !meets(
                self.mappings@[i],
                self.mappings@[j].iova_base as int,
                self.mappings@[j].iova_base + self.mappings@[j].length,
            )
    }

    pub fn new(page_table: PageTable) -> (state: Self)
        requires
            page_table.wf(),
        ensures
            state.wf(),
            state.page_table == page_table,
            state.mappings@.len() == 0,
            state.next_token == 1,
    {
        DomainState { page_table, mappings: Vec::new(), next_token: 1 }
    }

    /// Whether a range has addresses of a mapping.
    pub fn overlaps(&self, base: usize, length: usize) -> (found: bool)
        requires
            self.wf(),
        ensures
            found == (base + length > usize::MAX || !is_free(
                self.mappings@,
                base as int,
                base + length,
            )),
    {
        let end: usize = match base.checked_add(length) {
            Some(end) => end,
            None => {
                return true;
            },
        };
        let mut i: usize = 0;
        while i < self.mappings.len()
            invariant
                i <= self.mappings@.len(),
                self.wf(),
                end == base + length,
                forall|k: int|
                    0 <= k < i ==> !meets(#[trigger] self.mappings@[k], base as int, end as int),
            decreases self.mappings@.len() - i,
        {
            let mapping = self.mappings[i];
            if base < mapping.iova_base + mapping.length && mapping.iova_base < end {
                assert(meets(self.mappings@[i as int], base as int, end as int));
                return true;
            }
            i += 1;
        }
        false
    }

    /// The highest end of the mappings that a range meets.
    fn highest_end(&self, base: usize, end: usize) -> (result: Option<usize>)
        requires
            self.wf(),
        ensures
            match result {
                None => is_free(self.mappings@, base as int, end as int),
                Some(highest) => highest > base && exists|i: int|
                    0 <= i < self.mappings@.len() && meets(
                        #[trigger] self.mappings@[i],
                        base as int,
                        end as int,
                    ) && highest == self.mappings@[i].iova_base + self.mappings@[i].length,
            },
    {
        let mut highest: Option<usize> = None;
        let mut i: usize = 0;
        while i < self.mappings.len()
            invariant
                i <= self.mappings@.len(),
                self.wf(),
                match highest {
                    None => forall|k: int|
                        0 <= k < i ==> !meets(
                            #[trigger] self.mappings@[k],
                            base as int,
                            end as int,
                        ),
                    Some(highest) => highest > base && exists|k: int|
                        0 <= k < self.mappings@.len() && meets(
                            #[trigger] self.mappings@[k],
                            base as int,
                            end as int,
                        ) && highest == self.mappings@[k].iova_base + self.mappings@[k].length,
                },
            decreases self.mappings@.len() - i,
        {
            let mapping = self.mappings[i];
            let mapping_end: usize = mapping.iova_base + mapping.length;
            if base < mapping_end && mapping.iova_base < end {
                assert(meets(self.mappings@[i as int], base as int, end as int));
                highest = match highest {
                    None => Some(mapping_end),
                    Some(old_end) => if old_end > mapping_end {
                        Some(old_end)
                    } else {
                        Some(mapping_end)
                    },
                };
            }
            i += 1;
        }
        highest
    }

    /// The lowest addresses, from the second page on, that can be given out.
    pub fn first_fit(&self, length: usize, limit: usize) -> (result: Option<usize>)
        requires
            self.wf(),
            length > 0,
        ensures
            match result {
                Some(base) => fits(self.mappings@, length as int, limit as int, base as int)
                    && forall|lower: int|
                    #[trigger] fits(self.mappings@, length as int, limit as int, lower) ==> lower
                        >= base,
                None => forall|base: int| !#[trigger]
                    fits(self.mappings@, length as int, limit as int, base),
            },
    {
        let mut candidate: usize = 4096;
        loop
            invariant
                self.wf(),
                length > 0,
                candidate % 4096 == 0,
                candidate >= 4096,
                forall|lower: int|
                    #[trigger] fits(self.mappings@, length as int, limit as int, lower) ==> lower
                        >= candidate,
            decreases usize::MAX - candidate,
        {
            let end: usize = match candidate.checked_add(length) {
                Some(end) => end,
                None => {
                    return None;
                },
            };
            if end - 1 > limit {
                return None;
            }
            match self.highest_end(candidate, end) {
                None => {
                    assert(fits(
                        self.mappings@,
                        length as int,
                        limit as int,
                        candidate as int,
                    ));
                    return Some(candidate);
                },
                Some(highest) => {
                    proof {
                        let i = choose|i: int|
                            0 <= i < self.mappings@.len() && meets(
                                #[trigger] self.mappings@[i],
                                candidate as int,
                                end as int,
                            ) && highest == self.mappings@[i].iova_base + self.mappings@[i].length;
                        assert forall|lower: int| #[trigger]
                            fits(
                                self.mappings@,
                                length as int,
                                limit as int,
                                lower,
                            ) implies lower >= page_up(highest as int) by {
                            assert(lower >= candidate);
                            if lower < highest {
                                assert(meets(self.mappings@[i], lower, lower + length));
                            }
                        }
                    }
                    candidate = match align_up(highest) {
                        Some(next) => next,
                        None => {
                            return None;
                        },
                    };
                },
            }
        }
    }

    /// The token of the next mapping.
    pub fn take_token(&mut self) -> (token: Option<u64>)
        requires
            old(self).wf(),
        ensures
            final(self).wf(),
            final(self).page_table == old(self).page_table,
            final(self).mappings == old(self).mappings,
            if old(self).next_token == u64::MAX {
                token is None && final(self).next_token == old(self).next_token
            } else {
                &&& final(self).next_token == old(self).next_token + 1
                &&& token == (if old(self).next_token == 0 {
                    None
                } else {
                    Some(old(self).next_token)
                })
            },
    {
        let token: u64 = self.next_token;
        if token == u64::MAX {
            return None;
        }
        self.next_token = token + 1;
        if token != 0 {
            Some(token)
        } else {
            None
        }
    }
}

/// The tables of a device at one moment.
pub ghost struct TableStage {
    pub pages: Seq<PageView>,
    pub log: Seq<Exchange>,
}

/// A run of pages of a device, and the memory that they are for.
#[derive(Clone, Copy)]
pub struct PageRun {
    pub iova: usize,
    pub paddr: usize,
    pub count: usize,
    pub writable: bool,
}

impl PageRun {
    pub open spec fn wf(self) -> bool {
        self.iova + 4096 * self.count <= usize::MAX && self.paddr + 4096 * self.count <= usize::MAX
    }

    /// The address of a page for the device.
    pub open spec fn iova_at(self, i: int) -> u64 {
        (self.iova + 4096 * i) as u64
    }

    /// The address of a page in memory.
    pub open spec fn paddr_at(self, i: int) -> u64 {
        (self.paddr + 4096 * i) as u64
    }

    /// Whether a page was mapped, from one stage to the next.
    pub open spec fn step_mapped(
        self,
        pas: u8,
        mode: u8,
        stages: Seq<TableStage>,
        replies: Seq<Seq<u64>>,
        i: int,
    ) -> bool {
        page_table::map_done(
            stages[i].pages,
            pas,
            mode,
            self.iova_at(i),
            self.paddr_at(i),
            self.writable,
            replies[i],
            stages[i + 1].pages,
            Ok(()),
            stages[i].log,
            stages[i + 1].log,
        )
    }

    /// Whether pages were mapped in order, until one was refused.
    pub open spec fn mapped(
        self,
        pas: u8,
        mode: u8,
        stages: Seq<TableStage>,
        replies: Seq<Seq<u64>>,
        last: TableStage,
        ok: bool,
    ) -> bool {
        let done = stages.len() - 1;
        &&& 0 <= done <= self.count
        &&& forall|i: int|
            0 <= i < done ==> #[trigger] self.step_mapped(pas, mode, stages, replies, i)
        &&& if ok {
            done == self.count && last == stages[done]
        } else {
            &&& done < self.count
            &&& exists|error: PageTableError| #[trigger]
                page_table::map_done(
                    stages[done].pages,
                    pas,
                    mode,
                    self.iova_at(done),
                    self.paddr_at(done),
                    self.writable,
                    replies[done],
                    last.pages,
                    Err(error),
                    stages[done].log,
                    last.log,
                )
        }
    }

    /// Whether some pages were mapped from one state of the tables to another.
    pub open spec fn mapped_from(
        self,
        pas: u8,
        mode: u8,
        pages: Seq<PageView>,
        log: Seq<Exchange>,
        stages: Seq<TableStage>,
        replies: Seq<Seq<u64>>,
        after: Seq<PageView>,
        now: Seq<Exchange>,
        done: usize,
    ) -> bool {
        &&& self.mapped(
            pas,
            mode,
            stages,
            replies,
            TableStage { pages: after, log: now },
            done == self.count,
        )
        &&& stages.len() == done + 1
        &&& stages[0] == (TableStage { pages, log })
    }

    /// Whether some pages were unmapped from one state of the tables to another.
    pub open spec fn rolled_from(
        self,
        pas: u8,
        mode: u8,
        pages: Seq<PageView>,
        log: Seq<Exchange>,
        stages: Seq<TableStage>,
        outcomes: Seq<Result<(), PageTableError>>,
        after: Seq<PageView>,
        now: Seq<Exchange>,
        count: usize,
    ) -> bool {
        &&& self.rolled_back(pas, mode, stages, outcomes, count as int)
        &&& stages[0] == (TableStage { pages, log })
        &&& stages[count as int] == (TableStage { pages: after, log: now })
    }

    /// Whether a page was unmapped, from one stage to the next.
    pub open spec fn step_unmapped(
        self,
        pas: u8,
        mode: u8,
        stages: Seq<TableStage>,
        i: int,
        page: int,
        outcome: Result<(), PageTableError>,
    ) -> bool {
        page_table::changed(
            page_table::page_unmapped(stages[i].pages, pas, mode, self.iova_at(page)),
            stages[i + 1].pages,
            outcome,
            stages[i].log,
            stages[i + 1].log,
        )
    }

    /// Whether pages were unmapped in order, until one was refused.
    pub open spec fn unmapped(
        self,
        pas: u8,
        mode: u8,
        stages: Seq<TableStage>,
        outcomes: Seq<Result<(), PageTableError>>,
    ) -> bool {
        &&& stages.len() == outcomes.len() + 1
        &&& outcomes.len() <= self.count
        &&& forall|i: int|
            0 <= i < outcomes.len() ==> self.step_unmapped(
                pas,
                mode,
                stages,
                i,
                i,
                #[trigger] outcomes[i],
            )
        &&& forall|i: int| 0 <= i < outcomes.len() - 1 ==> (#[trigger] outcomes[i]) is Ok
    }

    /// Whether pages were unmapped in order from one state of the tables to another.
    pub open spec fn unmapped_from(
        self,
        pas: u8,
        mode: u8,
        pages: Seq<PageView>,
        log: Seq<Exchange>,
        stages: Seq<TableStage>,
        outcomes: Seq<Result<(), PageTableError>>,
        after: Seq<PageView>,
        now: Seq<Exchange>,
        ok: bool,
    ) -> bool {
        &&& self.unmapped(pas, mode, stages, outcomes)
        &&& stages[0] == (TableStage { pages, log })
        &&& stages.last() == (TableStage { pages: after, log: now })
        &&& if ok {
            outcomes.len() == self.count && (outcomes.len() > 0 ==> outcomes.last() is Ok)
        } else {
            outcomes.len() > 0 && outcomes.last() is Err
        }
    }

    /// Whether the first `count` pages were unmapped, the last one first.
    pub open spec fn rolled_back(
        self,
        pas: u8,
        mode: u8,
        stages: Seq<TableStage>,
        outcomes: Seq<Result<(), PageTableError>>,
        count: int,
    ) -> bool {
        &&& stages.len() == count + 1
        &&& outcomes.len() == count
        &&& forall|i: int|
            0 <= i < count ==> self.step_unmapped(
                pas,
                mode,
                stages,
                i,
                count - 1 - i,
                #[trigger] outcomes[i],
            )
    }
}

/// Maps pages in order, until one is refused, and gives how many were mapped.
fn map_pages<F: FnMut(Access) -> u64>(table: &mut PageTable, port: &mut Port<F>, run: PageRun) -> (done:
    usize)
    requires
        old(table).wf(),
        old(port).wf(),
        run.wf(),
    ensures
        final(table).wf(),
        final(port).wf(),
        final(port).performs() == old(port).performs(),
        final(table).the_mode() == old(table).the_mode(),
        final(table).pas() == old(table).pas(),
        done <= run.count,
        exists|stages: Seq<TableStage>, replies: Seq<Seq<u64>>| #[trigger]
            run.mapped_from(
                old(table).pas(),
                old(table).the_mode(),
                old(table)@,
                old(port).log(),
                stages,
                replies,
                final(table)@,
                final(port).log(),
                done,
            ),
{
    let ghost pas = table.pas();
    let ghost mode = table.the_mode();
    let ghost mut stages: Seq<TableStage> = seq![TableStage { pages: table@, log: port.log() }];
    let ghost mut replies: Seq<Seq<u64>> = Seq::empty();
    let mut i: usize = 0;
    while i < run.count
        invariant
            i <= run.count,
            run.wf(),
            table.wf(),
            port.wf(),
            port.performs() == old(port).performs(),
            table.pas() == pas,
            table.the_mode() == mode,
            pas == old(table).pas(),
            mode == old(table).the_mode(),
            stages.len() == i + 1,
            replies.len() == i,
            stages[0] == (TableStage { pages: old(table)@, log: old(port).log() }),
            stages[i as int] == (TableStage { pages: table@, log: port.log() }),
            forall|k: int|
                0 <= k < i ==> #[trigger] run.step_mapped(pas, mode, stages, replies, k),
        decreases run.count - i,
    {
        let ghost before = stages[i as int];
        assert(run.iova_at(i as int) == (run.iova + 4096 * i) as u64);
        assert(run.paddr_at(i as int) == (run.paddr + 4096 * i) as u64);
        let mapped = table.map_page(
            port,
            run.iova + 4096 * i,
            run.paddr + 4096 * i,
            run.writable,
        );
        let ghost answer = choose|answer: Seq<u64>| #[trigger]
            page_table::map_done(
                before.pages,
                pas,
                mode,
                run.iova_at(i as int),
                run.paddr_at(i as int),
                run.writable,
                answer,
                table@,
                mapped,
                before.log,
                port.log(),
            );
        let ghost last = TableStage { pages: table@, log: port.log() };
        proof {
            let earlier = replies;
            replies = replies.push(answer);
            assert forall|k: int| 0 <= k < i implies #[trigger] run.step_mapped(
                pas,
                mode,
                stages,
                replies,
                k,
            ) by {
                assert(run.step_mapped(pas, mode, stages, earlier, k));
                assert(replies[k] == earlier[k]);
            }
        }
        if let Err(error) = mapped {
            assert(replies[i as int] == answer);
            assert(page_table::map_done(
                before.pages,
                pas,
                mode,
                run.iova_at(i as int),
                run.paddr_at(i as int),
                run.writable,
                replies[i as int],
                last.pages,
                Err(error),
                before.log,
                last.log,
            ));
            assert(run.mapped(pas, mode, stages, replies, last, false));
            assert(run.mapped_from(
                old(table).pas(),
                old(table).the_mode(),
                old(table)@,
                old(port).log(),
                stages,
                replies,
                table@,
                port.log(),
                i,
            ));
            return i;
        }
        proof {
            let shorter = stages;
            stages = stages.push(last);
            assert forall|k: int| 0 <= k < i + 1 implies #[trigger] run.step_mapped(
                pas,
                mode,
                stages,
                replies,
                k,
            ) by {
                if k < i {
                    assert(run.step_mapped(pas, mode, shorter, replies, k));
                    assert(stages[k] == shorter[k] && stages[k + 1] == shorter[k + 1]);
                }
            }
        }
        i += 1;
    }
    assert(run.mapped_from(
        old(table).pas(),
        old(table).the_mode(),
        old(table)@,
        old(port).log(),
        stages,
        replies,
        table@,
        port.log(),
        i,
    ));
    i
}

/// Unmaps the pages of a run in order, until one is refused.
fn unmap_pages<F: FnMut(Access) -> u64>(table: &mut PageTable, port: &mut Port<F>, run: PageRun) -> (ok:
    bool)
    requires
        old(table).wf(),
        old(port).wf(),
        run.wf(),
    ensures
        final(table).wf(),
        final(port).wf(),
        final(port).performs() == old(port).performs(),
        final(table).the_mode() == old(table).the_mode(),
        final(table).pas() == old(table).pas(),
        exists|stages: Seq<TableStage>, outcomes: Seq<Result<(), PageTableError>>| #[trigger]
            run.unmapped_from(
                old(table).pas(),
                old(table).the_mode(),
                old(table)@,
                old(port).log(),
                stages,
                outcomes,
                final(table)@,
                final(port).log(),
                ok,
            ),
{
    let ghost pas = table.pas();
    let ghost mode = table.the_mode();
    let ghost mut stages: Seq<TableStage> = seq![TableStage { pages: table@, log: port.log() }];
    let ghost mut outcomes: Seq<Result<(), PageTableError>> = Seq::empty();
    let mut page: usize = 0;
    while page < run.count
        invariant
            page <= run.count,
            run.wf(),
            table.wf(),
            port.wf(),
            port.performs() == old(port).performs(),
            table.pas() == pas,
            table.the_mode() == mode,
            pas == old(table).pas(),
            mode == old(table).the_mode(),
            outcomes.len() == page,
            stages[0] == (TableStage { pages: old(table)@, log: old(port).log() }),
            stages.last() == (TableStage { pages: table@, log: port.log() }),
            run.unmapped(pas, mode, stages, outcomes),
            forall|i: int| 0 <= i < page ==> (#[trigger] outcomes[i]) is Ok,
        decreases run.count - page,
    {
        let outcome = table.unmap_page(port, run.iova + 4096 * page);
        proof {
            let shorter = stages;
            let fewer = outcomes;
            stages = stages.push(TableStage { pages: table@, log: port.log() });
            outcomes = outcomes.push(outcome);
            assert forall|i: int| 0 <= i < outcomes.len() implies run.step_unmapped(
                pas,
                mode,
                stages,
                i,
                i,
                #[trigger] outcomes[i],
            ) by {
                if i < page {
                    assert(outcomes[i] == fewer[i]);
                    assert(stages[i] == shorter[i] && stages[i + 1] == shorter[i + 1]);
                }
            }
        }
        if outcome.is_err() {
            assert(run.unmapped_from(
                old(table).pas(),
                old(table).the_mode(),
                old(table)@,
                old(port).log(),
                stages,
                outcomes,
                table@,
                port.log(),
                false,
            ));
            return false;
        }
        page += 1;
    }
    assert(run.unmapped_from(
        old(table).pas(),
        old(table).the_mode(),
        old(table)@,
        old(port).log(),
        stages,
        outcomes,
        table@,
        port.log(),
        true,
    ));
    true
}

/// Unmaps the first `count` pages of a run, the last one first.
fn roll_back<F: FnMut(Access) -> u64>(
    table: &mut PageTable,
    port: &mut Port<F>,
    run: PageRun,
    count: usize,
)
    requires
        old(table).wf(),
        old(port).wf(),
        run.wf(),
        count <= run.count,
    ensures
        final(table).wf(),
        final(port).wf(),
        final(port).performs() == old(port).performs(),
        final(table).the_mode() == old(table).the_mode(),
        final(table).pas() == old(table).pas(),
        exists|stages: Seq<TableStage>, outcomes: Seq<Result<(), PageTableError>>| #[trigger]
            run.rolled_from(
                old(table).pas(),
                old(table).the_mode(),
                old(table)@,
                old(port).log(),
                stages,
                outcomes,
                final(table)@,
                final(port).log(),
                count,
            ),
{
    let ghost pas = table.pas();
    let ghost mode = table.the_mode();
    let ghost mut stages: Seq<TableStage> = seq![TableStage { pages: table@, log: port.log() }];
    let ghost mut outcomes: Seq<Result<(), PageTableError>> = Seq::empty();
    let mut left: usize = count;
    while left > 0
        invariant
            left <= count <= run.count,
            run.wf(),
            table.wf(),
            port.wf(),
            port.performs() == old(port).performs(),
            table.pas() == pas,
            table.the_mode() == mode,
            pas == old(table).pas(),
            mode == old(table).the_mode(),
            stages.len() == count - left + 1,
            outcomes.len() == count - left,
            stages[0] == (TableStage { pages: old(table)@, log: old(port).log() }),
            stages[count - left] == (TableStage { pages: table@, log: port.log() }),
            forall|i: int|
                0 <= i < count - left ==> run.step_unmapped(
                    pas,
                    mode,
                    stages,
                    i,
                    count - 1 - i,
                    #[trigger] outcomes[i],
                ),
        decreases left,
    {
        left -= 1;
        let outcome = table.unmap_page(port, run.iova + 4096 * left);
        proof {
            let shorter = stages;
            let fewer = outcomes;
            stages = stages.push(TableStage { pages: table@, log: port.log() });
            outcomes = outcomes.push(outcome);
            assert forall|i: int| 0 <= i < count - left implies run.step_unmapped(
                pas,
                mode,
                stages,
                i,
                count - 1 - i,
                #[trigger] outcomes[i],
            ) by {
                if i < count - left - 1 {
                    assert(outcomes[i] == fewer[i]);
                    assert(stages[i] == shorter[i] && stages[i + 1] == shorter[i + 1]);
                }
            }
        }
    }
    assert(run.rolled_from(
        old(table).pas(),
        old(table).the_mode(),
        old(table)@,
        old(port).log(),
        stages,
        outcomes,
        table@,
        port.log(),
        count,
    ));
}

/// How memory was mapped.
pub ghost struct MapRun {
    pub stages: Seq<TableStage>,
    pub replies: Seq<Seq<u64>>,
    pub mapped: TableStage,
    pub ok: bool,
    pub execution: Execution,
    pub executed: Result<(), HardwareError>,
    pub told: Seq<Exchange>,
    pub back: Seq<TableStage>,
    pub outcomes: Seq<Result<(), PageTableError>>,
    pub again: Execution,
    pub again_executed: Result<(), HardwareError>,
    pub again_told: Seq<Exchange>,
    pub unit: RiscvIommuCore,
}

/// How a mapping was removed.
pub ghost struct UnmapRun {
    pub at: int,
    pub stages: Seq<TableStage>,
    pub outcomes: Seq<Result<(), PageTableError>>,
    pub execution: Execution,
    pub executed: Result<(), HardwareError>,
    pub told: Seq<Exchange>,
}

/// Whether a record is the one of a mapping.
pub open spec fn is_for(record: MappingRecord, mapping: DmaMappedRegion) -> bool {
    record.token == mapping.token && record.dma_addr == mapping.dma_addr
}

/// The pages of a mapping.
pub open spec fn run_of(record: MappingRecord) -> PageRun {
    PageRun {
        iova: record.iova_base,
        paddr: 0,
        count: (record.length / 4096) as usize,
        writable: false,
    }
}

fn find_mapping(mappings: &Vec<MappingRecord>, mapping: DmaMappedRegion) -> (found: Option<usize>)
    ensures
        match found {
            Some(at) => at < mappings@.len() && is_for(mappings@[at as int], mapping),
            None => forall|i: int|
                0 <= i < mappings@.len() ==> !is_for(#[trigger] mappings@[i], mapping),
        },
{
    let mut i: usize = 0;
    while i < mappings.len()
        invariant
            i <= mappings@.len(),
            forall|k: int| 0 <= k < i ==> !is_for(#[trigger] mappings@[k], mapping),
        decreases mappings@.len() - i,
    {
        if mappings[i].token == mapping.token && mappings[i].dma_addr == mapping.dma_addr {
            return Some(i);
        }
        i += 1;
    }
    None
}

/// A device that is attached.
pub struct RiscvIommuDomain {
    pub device_id: u32,
    pub state: DomainState,
}

/// What is decided before anything is mapped.
#[derive(Clone, Copy)]
pub struct MapPlan {
    pub run: PageRun,
    pub dma_addr: usize,
    pub length: usize,
}

impl RiscvIommuDomain {
    pub open spec fn wf(&self) -> bool {
        self.state.wf()
    }

    /// The highest address that a device with these constraints can be given.
    pub open spec fn limit(&self, constraints: DmaConstraints) -> int {
        let top = page_table::top_of(self.state.page_table.the_mode()) as int;
        if constraints.address_mask < top {
            constraints.address_mask as int
        } else {
            top
        }
    }

    /// Whether memory can be mapped with its pages at an address.
    pub open spec fn can_map(
        &self,
        region: DmaRegion,
        constraints: DmaConstraints,
        base: int,
    ) -> bool {
        let (_, offset, length) = geometry_of(region)->0;
        &&& base + offset <= usize::MAX
        &&& base + length <= usize::MAX
        &&& base % 4096 == 0
        &&& is_free(self.state.mappings@, base, base + length)
        &&& accepts(constraints, base + offset, region.len as int)
    }

    /// Where memory goes: where it is asked to be, if that is the same place in a
    /// page, or else at the lowest addresses that fit.
    pub open spec fn planned_at(
        &self,
        region: DmaRegion,
        constraints: DmaConstraints,
        requested: Option<usize>,
        base: int,
    ) -> bool {
        let (_, offset, length) = geometry_of(region)->0;
        &&& match requested {
            Some(dma_addr) => dma_addr % 4096 == offset && base == dma_addr - offset,
            None => fits(self.state.mappings@, length, self.limit(constraints), base) && forall|
                lower: int,
            |
                #[trigger] fits(
                    self.state.mappings@,
                    length,
                    self.limit(constraints),
                    lower,
                ) ==> lower >= base,
        }
        &&& self.can_map(region, constraints, base)
    }

    /// Whether a plan is for memory at an address.
    pub open spec fn plan_is(plan: MapPlan, region: DmaRegion, base: int) -> bool {
        let (paddr, offset, length) = geometry_of(region)->0;
        &&& plan.run.iova == base
        &&& plan.run.paddr == paddr
        &&& plan.run.count * 4096 == length
        &&& plan.run.writable == (region.direction != DmaDirection::ToDevice)
        &&& plan.dma_addr == base + offset
        &&& plan.length == length
    }

    /// Decides where memory goes.
    pub fn plan(
        &self,
        region: DmaRegion,
        constraints: DmaConstraints,
        requested: Option<usize>,
    ) -> (result: Option<MapPlan>)
        requires
            self.wf(),
            geometry_of(region) is Some,
        ensures
            match result {
                Some(plan) => plan.run.wf() && plan.length > 0 && self.planned_at(
                    region,
                    constraints,
                    requested,
                    plan.run.iova as int,
                ) && Self::plan_is(plan, region, plan.run.iova as int),
                None => forall|base: int| !#[trigger]
                    self.planned_at(region, constraints, requested, base),
            },
    {
        let (paddr, offset, length): (usize, usize, usize) = match geometry(region) {
            Some(geometry) => geometry,
            None => {
                return None;
            },
        };
        let top: usize = self.state.page_table.max_iova();
        let limit: usize = if constraints.address_mask < top {
            constraints.address_mask
        } else {
            top
        };
        let base: usize = match requested {
            Some(dma_addr) => {
                if dma_addr % 4096 != offset {
                    return None;
                }
                dma_addr - offset
            },
            None => match self.state.first_fit(length, limit) {
                Some(base) => {
                    proof {
                        lemma_same_fits(
                            self.state.mappings@,
                            length as int,
                            limit as int,
                            self.limit(constraints),
                        );
                    }
                    base
                },
                None => {
                    proof {
                        lemma_same_fits(
                            self.state.mappings@,
                            length as int,
                            limit as int,
                            self.limit(constraints),
                        );
                        assert forall|base: int| !#[trigger]
                            self.planned_at(region, constraints, requested, base) by {
                            assert(!fits(
                                self.state.mappings@,
                                length as int,
                                limit as int,
                                base,
                            ));
                        }
                    }
                    return None;
                },
            },
        };
        let dma_addr: usize = match base.checked_add(offset) {
            Some(dma_addr) => dma_addr,
            None => {
                assert(!self.can_map(region, constraints, base as int));
                assert forall|other: int| !#[trigger]
                    self.planned_at(region, constraints, requested, other) by {
                    if self.planned_at(region, constraints, requested, other) {
                        self.lemma_one_place(
                            region,
                            constraints,
                            requested,
                            limit as int,
                            base as int,
                            other,
                        );
                    }
                }
                return None;
            },
        };
        if base % 4096 == 0 && !self.state.overlaps(base, length) && constraints_accepts(
            constraints,
            dma_addr,
            region.len,
        ) {
            let run = PageRun {
                iova: base,
                paddr,
                count: length / 4096,
                writable: region.direction != DmaDirection::ToDevice,
            };
            Some(MapPlan { run, dma_addr, length })
        } else {
            proof {
                assert(!self.can_map(region, constraints, base as int));
                assert forall|other: int| !#[trigger]
                    self.planned_at(region, constraints, requested, other) by {
                    if self.planned_at(region, constraints, requested, other) {
                        self.lemma_one_place(
                            region,
                            constraints,
                            requested,
                            limit as int,
                            base as int,
                            other,
                        );
                    }
                }
            }
            None
        }
    }

    /// Whether memory was mapped so. A token is used up as soon as the memory can be
    /// mapped at all. Pages are mapped in order, and the unit forgets what it cached;
    /// if a page is refused or the unit cannot be told, what was mapped is unmapped
    /// again.
    pub open spec fn map_done(
        &self,
        after: &RiscvIommuDomain,
        unit: &RiscvIommuCore,
        unit_after: &RiscvIommuCore,
        region: DmaRegion,
        constraints: DmaConstraints,
        requested: Option<usize>,
        w: MapRun,
        plan: Option<MapPlan>,
        result: Option<DmaMappedRegion>,
        log: Seq<Exchange>,
        now: Seq<Exchange>,
    ) -> bool {
        let token = self.state.next_token;
        let untouched = after.state.page_table == self.state.page_table && *unit_after == *unit
            && now == log;
        &&& after.device_id == self.device_id
        &&& if geometry_of(region) is None || token == u64::MAX {
            result is None && *after == *self && untouched
        } else {
            &&& after.state.next_token == token + 1
            &&& if token == 0 {
                result is None && after.state.mappings == self.state.mappings && untouched
            } else {
                match plan {
                    None => {
                        &&& forall|base: int| !#[trigger]
                            self.planned_at(region, constraints, requested, base)
                        &&& result is None
                        &&& after.state.mappings == self.state.mappings
                        &&& untouched
                    },
                    Some(plan) => {
                        &&& self.planned_at(
                            region,
                            constraints,
                            requested,
                            plan.run.iova as int,
                        )
                        &&& Self::plan_is(plan, region, plan.run.iova as int)
                        &&& self.tables_changed(after, unit, unit_after, plan, w, result, log, now)
                        &&& if result is Some {
                            &&& result == Some(DmaMappedRegion { dma_addr: plan.dma_addr, token })
                            &&& after.state.mappings@ == self.state.mappings@.push(
                                MappingRecord {
                                    token,
                                    dma_addr: plan.dma_addr,
                                    iova_base: plan.run.iova,
                                    length: plan.length,
                                },
                            )
                        } else {
                            after.state.mappings == self.state.mappings
                        }
                    },
                }
            }
        }
    }

    /// Whether the tables were changed for a plan.
    pub open spec fn tables_changed(
        &self,
        after: &RiscvIommuDomain,
        unit: &RiscvIommuCore,
        unit_after: &RiscvIommuCore,
        plan: MapPlan,
        w: MapRun,
        result: Option<DmaMappedRegion>,
        log: Seq<Exchange>,
        now: Seq<Exchange>,
    ) -> bool {
        let table = self.state.page_table;
        let pas = table.pas();
        let mode = table.the_mode();
        let pages = after.state.page_table@;
        &&& after.state.page_table.the_mode() == mode
        &&& after.state.page_table.pas() == pas
        &&& plan.run.mapped(pas, mode, w.stages, w.replies, w.mapped, w.ok)
        &&& w.stages[0] == (TableStage { pages: table@, log })
        &&& if !w.ok {
            &&& result is None
            &&& *unit_after == *unit
            &&& plan.run.rolled_from(
                pas,
                mode,
                w.mapped.pages,
                w.mapped.log,
                w.back,
                w.outcomes,
                pages,
                now,
                (w.stages.len() - 1) as usize,
            )
        } else {
            &&& unit.invalidated(&w.unit, w.execution, w.executed, w.told, result is Some)
            &&& if result is Some {
                *unit_after == w.unit && pages == w.mapped.pages && now == w.mapped.log + w.told
            } else {
                &&& w.back.len() > 0
                &&& plan.run.rolled_from(
                    pas,
                    mode,
                    w.mapped.pages,
                    w.mapped.log + w.told,
                    w.back,
                    w.outcomes,
                    pages,
                    w.back.last().log,
                    plan.run.count,
                )
                &&& w.unit.invalidated(
                    unit_after,
                    w.again,
                    w.again_executed,
                    w.again_told,
                    w.again_executed is Ok && !w.unit.quiesced,
                )
                &&& now == w.back.last().log + w.again_told
            }
        }
    }

    /// Maps memory, somewhere or at a given address.
    #[verifier::rlimit(80)]
    pub fn map<F: FnMut(Access) -> u64>(
        &mut self,
        port: &mut Port<F>,
        unit: &mut RiscvIommuCore,
        region: DmaRegion,
        constraints: DmaConstraints,
        requested: Option<usize>,
    ) -> (result: Option<DmaMappedRegion>)
        requires
            old(self).wf(),
            old(unit).wf(),
            old(port).wf(),
        ensures
            final(self).wf(),
            final(unit).wf(),
            final(port).wf(),
            final(port).performs() == old(port).performs(),
            exists|w: MapRun, plan: Option<MapPlan>| #[trigger]
                old(self).map_done(
                    final(self),
                    old(unit),
                    final(unit),
                    region,
                    constraints,
                    requested,
                    w,
                    plan,
                    result,
                    old(port).log(),
                    final(port).log(),
                ),
    {
        let ghost start = port.log();
        let ghost mut w: MapRun = arbitrary();
        if geometry(region).is_none() {
            assert(old(self).map_done(
                self,
                old(unit),
                unit,
                region,
                constraints,
                requested,
                w,
                None,
                None,
                start,
                port.log(),
            ));
            return None;
        }
        let token: u64 = match self.state.take_token() {
            Some(token) => token,
            None => {
                assert(old(self).map_done(
                    self,
                    old(unit),
                    unit,
                    region,
                    constraints,
                    requested,
                    w,
                    None,
                    None,
                    start,
                    port.log(),
                ));
                return None;
            },
        };
        let plan = match self.plan(region, constraints, requested) {
            Some(plan) => plan,
            None => {
                proof {
                    assert forall|base: int| !#[trigger]
                        old(self).planned_at(region, constraints, requested, base) by {
                        assert(!self.planned_at(region, constraints, requested, base));
                    }
                    assert(old(self).map_done(
                        self,
                        old(unit),
                        unit,
                        region,
                        constraints,
                        requested,
                        w,
                        None,
                        None,
                        start,
                        port.log(),
                    ));
                }
                return None;
            },
        };
        assert(old(self).planned_at(region, constraints, requested, plan.run.iova as int)) by {
            assert(self.planned_at(region, constraints, requested, plan.run.iova as int));
        }
        let ghost run = plan.run;
        let ghost pas = old(self).state.page_table.pas();
        let ghost mode = old(self).state.page_table.the_mode();
        let done: usize = map_pages(&mut self.state.page_table, port, plan.run);
        let ok = done == plan.run.count;
        proof {
            let (stages, replies) = choose|stages: Seq<TableStage>, replies: Seq<Seq<u64>>| #[trigger]
                run.mapped_from(
                    pas,
                    mode,
                    old(self).state.page_table@,
                    start,
                    stages,
                    replies,
                    self.state.page_table@,
                    port.log(),
                    done,
                );
            let mapped = TableStage { pages: self.state.page_table@, log: port.log() };
            w = MapRun { stages, replies, mapped, ok, ..w };
        }
        if !ok {
            roll_back(&mut self.state.page_table, port, plan.run, done);
            proof {
                let (back, outcomes) = choose|
                    back: Seq<TableStage>,
                    outcomes: Seq<Result<(), PageTableError>>,
                | #[trigger]
                    run.rolled_from(
                        pas,
                        mode,
                        w.mapped.pages,
                        w.mapped.log,
                        back,
                        outcomes,
                        self.state.page_table@,
                        port.log(),
                        done,
                    );
                w = MapRun { back, outcomes, ..w };
                assert(old(self).tables_changed(
                    self,
                    old(unit),
                    unit,
                    plan,
                    w,
                    None,
                    start,
                    port.log(),
                ));
                assert(old(self).map_done(
                    self,
                    old(unit),
                    unit,
                    region,
                    constraints,
                    requested,
                    w,
                    Some(plan),
                    None,
                    start,
                    port.log(),
                ));
            }
            return None;
        }
        let ghost before_told = port.log();
        let told = unit.invalidate_all(port);
        proof {
            let trace = port::since(port.log(), before_told);
            let (execution, executed) = choose|
                execution: Execution,
                executed: Result<(), HardwareError>,
            | #[trigger]
                old(unit).invalidated(unit, execution, executed, trace, told);
            w = MapRun { execution, executed, told: trace, unit: *unit, ..w };
        }
        if !told {
            let ghost before_back = port.log();
            roll_back(&mut self.state.page_table, port, plan.run, done);
            let ghost rolled = port.log();
            let ghost mid = *unit;
            proof {
                let (back, outcomes) = choose|
                    back: Seq<TableStage>,
                    outcomes: Seq<Result<(), PageTableError>>,
                | #[trigger]
                    run.rolled_from(
                        pas,
                        mode,
                        w.mapped.pages,
                        before_back,
                        back,
                        outcomes,
                        self.state.page_table@,
                        rolled,
                        done,
                    );
                w = MapRun { back, outcomes, ..w };
                assert(w.back.last() == (TableStage {
                    pages: self.state.page_table@,
                    log: rolled,
                }));
            }
            let again = unit.invalidate_all(port);
            proof {
                let trace = port::since(port.log(), rolled);
                let (execution, executed) = choose|
                    execution: Execution,
                    executed: Result<(), HardwareError>,
                | #[trigger]
                    mid.invalidated(unit, execution, executed, trace, again);
                w = MapRun {
                    again: execution,
                    again_executed: executed,
                    again_told: trace,
                    ..w
                };
                assert(again == (executed is Ok && !mid.quiesced));
                assert(old(self).tables_changed(
                    self,
                    old(unit),
                    unit,
                    plan,
                    w,
                    None,
                    start,
                    port.log(),
                ));
                assert(old(self).map_done(
                    self,
                    old(unit),
                    unit,
                    region,
                    constraints,
                    requested,
                    w,
                    Some(plan),
                    None,
                    start,
                    port.log(),
                ));
            }
            return None;
        }
        let record = MappingRecord {
            token,
            dma_addr: plan.dma_addr,
            iova_base: plan.run.iova,
            length: plan.length,
        };
        self.state.mappings.push(record);
        let mapped = Some(DmaMappedRegion { dma_addr: plan.dma_addr, token });
        proof {
            lemma_record_added(old(self).state.mappings@, self.state.mappings@, record, token);
            assert(old(self).tables_changed(
                self,
                old(unit),
                unit,
                plan,
                w,
                mapped,
                start,
                port.log(),
            ));
            assert(old(self).map_done(
                self,
                old(unit),
                unit,
                region,
                constraints,
                requested,
                w,
                Some(plan),
                mapped,
                start,
                port.log(),
            ));
        }
        mapped
    }

    /// Whether a mapping was removed so: its pages are unmapped in order and the unit
    /// forgets what it cached. If a page or the unit refuses, the mapping stays, so
    /// that it can be tried again.
    pub open spec fn unmap_done(
        &self,
        after: &RiscvIommuDomain,
        unit: &RiscvIommuCore,
        unit_after: &RiscvIommuCore,
        mapping: DmaMappedRegion,
        w: UnmapRun,
        ok: bool,
        log: Seq<Exchange>,
        now: Seq<Exchange>,
    ) -> bool {
        let table = self.state.page_table;
        let run = run_of(self.state.mappings@[w.at]);
        &&& after.device_id == self.device_id
        &&& after.state.next_token == self.state.next_token
        &&& if forall|i: int|
            0 <= i < self.state.mappings@.len() ==> !is_for(
                #[trigger] self.state.mappings@[i],
                mapping,
            ) {
            !ok && *after == *self && *unit_after == *unit && now == log
        } else {
            &&& 0 <= w.at < self.state.mappings@.len()
            &&& is_for(self.state.mappings@[w.at], mapping)
            &&& after.state.page_table.the_mode() == table.the_mode()
            &&& after.state.page_table.pas() == table.pas()
            &&& run.unmapped(table.pas(), table.the_mode(), w.stages, w.outcomes)
            &&& w.stages[0] == (TableStage { pages: table@, log })
            &&& w.stages.last().pages == after.state.page_table@
            &&& if w.outcomes.len() > 0 && w.outcomes.last() is Err {
                &&& !ok
                &&& *unit_after == *unit
                &&& after.state.mappings == self.state.mappings
                &&& now == w.stages.last().log
            } else {
                &&& w.outcomes.len() == run.count
                &&& unit.invalidated(unit_after, w.execution, w.executed, w.told, ok)
                &&& now == w.stages.last().log + w.told
                &&& after.state.mappings@ == (if ok {
                    self.state.mappings@.update(w.at, self.state.mappings@.last()).drop_last()
                } else {
                    self.state.mappings@
                })
            }
        }
    }

    /// Removes a mapping.
    #[verifier::rlimit(60)]
    pub fn unmap_region<F: FnMut(Access) -> u64>(
        &mut self,
        port: &mut Port<F>,
        unit: &mut RiscvIommuCore,
        mapping: DmaMappedRegion,
    ) -> (ok: bool)
        requires
            old(self).wf(),
            old(unit).wf(),
            old(port).wf(),
        ensures
            final(self).wf(),
            final(unit).wf(),
            final(port).wf(),
            final(port).performs() == old(port).performs(),
            exists|w: UnmapRun| #[trigger]
                old(self).unmap_done(
                    final(self),
                    old(unit),
                    final(unit),
                    mapping,
                    w,
                    ok,
                    old(port).log(),
                    final(port).log(),
                ),
    {
        let ghost start = port.log();
        let ghost mut w: UnmapRun = arbitrary();
        let at: usize = match find_mapping(&self.state.mappings, mapping) {
            Some(at) => at,
            None => {
                assert(old(self).unmap_done(
                    self,
                    old(unit),
                    unit,
                    mapping,
                    w,
                    false,
                    start,
                    port.log(),
                ));
                return false;
            },
        };
        assert(is_for(self.state.mappings@[at as int], mapping));
        let record = self.state.mappings[at];
        let run = PageRun {
            iova: record.iova_base,
            paddr: 0,
            count: record.length / 4096,
            writable: false,
        };
        assert(run == run_of(record));
        let ghost pas = old(self).state.page_table.pas();
        let ghost mode = old(self).state.page_table.the_mode();
        let done = unmap_pages(&mut self.state.page_table, port, run);
        proof {
            let (stages, outcomes) = choose|
                stages: Seq<TableStage>,
                outcomes: Seq<Result<(), PageTableError>>,
            | #[trigger]
                run.unmapped_from(
                    pas,
                    mode,
                    old(self).state.page_table@,
                    start,
                    stages,
                    outcomes,
                    self.state.page_table@,
                    port.log(),
                    done,
                );
            w = UnmapRun { at: at as int, stages, outcomes, ..w };
        }
        if !done {
            assert(old(self).unmap_done(
                self,
                old(unit),
                unit,
                mapping,
                w,
                false,
                start,
                port.log(),
            ));
            return false;
        }
        let ghost before = port.log();
        let told = unit.invalidate_all(port);
        proof {
            let trace = port::since(port.log(), before);
            let (execution, executed) = choose|
                execution: Execution,
                executed: Result<(), HardwareError>,
            | #[trigger]
                old(unit).invalidated(unit, execution, executed, trace, told);
            w = UnmapRun { execution, executed, told: trace, ..w };
        }
        if !told {
            assert(old(self).unmap_done(
                self,
                old(unit),
                unit,
                mapping,
                w,
                false,
                start,
                port.log(),
            ));
            return false;
        }
        let _ = self.state.mappings.swap_remove(at);
        proof {
            lemma_record_removed(old(self).state.mappings@, self.state.mappings@, at as int);
            assert(old(self).unmap_done(
                self,
                old(unit),
                unit,
                mapping,
                w,
                true,
                start,
                port.log(),
            ));
        }
        true
    }

    /// Detaches the device. Its tables are given back once the unit is done with
    /// them, and otherwise given up.
    pub fn release<F: FnMut(Access) -> u64>(self, port: &mut Port<F>, unit: &mut RiscvIommuCore) -> (detached:
        bool)
        requires
            self.wf(),
            old(unit).wf(),
            old(port).wf(),
        ensures
            final(unit).wf(),
            final(port).wf(),
            final(port).performs() == old(port).performs(),
            exists|w: AttachRun, t: Seq<Exchange>| #[trigger]
                old(unit).detached_as(final(unit), self.device_id, w, t, detached) && final(port).log() == (if detached {
                    old(port).log() + t + radix::release_trace(self.state.page_table@)
                } else {
                    old(port).log() + t
                }),
    {
        let ghost start = port.log();
        let detached = unit.detach(port, self.device_id);
        let ghost t = port::since(port.log(), start);
        let ghost w = choose|w: AttachRun| #[trigger]
            old(unit).detached_as(unit, self.device_id, w, t, detached);
        if detached {
            self.state.page_table.release(port);
        }
        assert(old(unit).detached_as(unit, self.device_id, w, t, detached));
        detached
    }

    proof fn lemma_one_place(
        &self,
        region: DmaRegion,
        constraints: DmaConstraints,
        requested: Option<usize>,
        limit: int,
        base: int,
        other: int,
    )
        requires
            self.planned_at(region, constraints, requested, other),
            geometry_of(region) is Some,
            limit == self.limit(constraints) || (limit == usize::MAX && self.limit(constraints)
                >= usize::MAX),
            match requested {
                Some(dma_addr) => base == dma_addr - (geometry_of(region)->0).1,
                None => fits(self.state.mappings@, (geometry_of(region)->0).2, limit, base)
                    && forall|lower: int|
                    #[trigger] fits(
                        self.state.mappings@,
                        (geometry_of(region)->0).2,
                        limit,
                        lower,
                    ) ==> lower >= base,
            },
        ensures
            base == other,
    {
        let length = (geometry_of(region)->0).2;
        if requested is None {
            lemma_same_fits(self.state.mappings@, length, limit, self.limit(constraints));
            assert(fits(self.state.mappings@, length, limit, other));
            assert(fits(self.state.mappings@, length, self.limit(constraints), base));
        }
    }
}

proof fn lemma_record_added(
    before: Seq<MappingRecord>,
    after: Seq<MappingRecord>,
    record: MappingRecord,
    token: u64,
)
    requires
        after == before.push(record),
        record.token == token,
        forall|i: int| 0 <= i < before.len() ==> (#[trigger] before[i]).token < token,
        is_free(before, record.iova_base as int, record.iova_base + record.length),
        forall|i: int, j: int|
            0 <= i < j < before.len() ==> (#[trigger] before[i]).token != (
            #[trigger] before[j]).token && !meets(
                before[i],
                before[j].iova_base as int,
                before[j].iova_base + before[j].length,
            ),
    ensures
        forall|i: int, j: int|
            0 <= i < j < after.len() ==> (#[trigger] after[i]).token != (#[trigger] after[j]).token
                && !meets(after[i], after[j].iova_base as int, after[j].iova_base + after[j].length),
{
    assert forall|i: int, j: int| 0 <= i < j < after.len() implies (#[trigger] after[i]).token != (
    #[trigger] after[j]).token && !meets(
        after[i],
        after[j].iova_base as int,
        after[j].iova_base + after[j].length,
    ) by {
        assert(after[i] == before[i]);
        if j < before.len() {
            assert(after[j] == before[j]);
        } else {
            assert(!meets(before[i], record.iova_base as int, record.iova_base + record.length));
        }
    }
}

proof fn lemma_same_fits(mappings: Seq<MappingRecord>, length: int, limit: int, other: int)
    requires
        limit == other || (limit == usize::MAX && other >= usize::MAX),
        length > 0,
    ensures
        forall|base: int|
            #[trigger] fits(mappings, length, limit, base) ==> fits(
                mappings,
                length,
                other,
                base,
            ),
        forall|base: int|
            #[trigger] fits(mappings, length, other, base) ==> fits(
                mappings,
                length,
                limit,
                base,
            ),
{
}

proof fn lemma_record_removed(before: Seq<MappingRecord>, after: Seq<MappingRecord>, at: int)
    requires
        0 <= at < before.len(),
        after == before.update(at, before.last()).drop_last(),
        forall|i: int, j: int|
            0 <= i < j < before.len() ==> (#[trigger] before[i]).token != (
            #[trigger] before[j]).token && !meets(
                before[i],
                before[j].iova_base as int,
                before[j].iova_base + before[j].length,
            ),
        forall|i: int| 0 <= i < before.len() ==> (#[trigger] before[i]).length > 0,
    ensures
        forall|i: int| 0 <= i < after.len() ==> before.contains(#[trigger] after[i]),
        forall|i: int, j: int|
            0 <= i < j < after.len() ==> (#[trigger] after[i]).token != (#[trigger] after[j]).token
                && !meets(after[i], after[j].iova_base as int, after[j].iova_base + after[j].length),
{
    let last = before.len() - 1;
    assert forall|i: int| 0 <= i < after.len() implies before.contains(#[trigger] after[i]) by {
        if i == at {
            assert(after[i] == before[last]);
        } else {
            assert(after[i] == before[i]);
        }
    }
    assert forall|i: int, j: int| 0 <= i < j < after.len() implies (#[trigger] after[i]).token != (
    #[trigger] after[j]).token && !meets(
        after[i],
        after[j].iova_base as int,
        after[j].iova_base + after[j].length,
    ) by {
        let x = if i == at {
            last
        } else {
            i
        };
        let y = if j == at {
            last
        } else {
            j
        };
        assert(after[i] == before[x] && after[j] == before[y]);
        if x < y {
            assert(before[x].token != before[y].token);
        } else {
            assert(before[y].token != before[x].token);
        }
    }
}

/// Attaches a device by its specifier, which is its number.
pub fn attach<F: FnMut(Access) -> u64>(
    unit: &mut RiscvIommuCore,
    port: &mut Port<F>,
    specifier: &[u32],
) -> (result: Result<RiscvIommuDomain, IommuError>)
    requires
        old(unit).wf(),
        old(port).wf(),
    ensures
        final(unit).wf(),
        final(port).wf(),
        final(port).performs() == old(port).performs(),
        result is Ok ==> result->Ok_0.wf(),
        if specifier@.len() != 1 || specifier@[0] >= 0x100_0000 {
            result == Err::<RiscvIommuDomain, IommuError>(IommuError::InvalidSpecifier) && *final(unit) == *old(unit) && final(port).log() == old(port).log()
        } else {
            exists|reply: u64| #[trigger]
                attach_done(
                    old(unit),
                    final(unit),
                    specifier@[0],
                    reply,
                    result,
                    old(port).log(),
                    final(port).log(),
                )
        },
{
    if specifier.len() != 1 || specifier[0] >= 0x100_0000 {
        return Err(IommuError::InvalidSpecifier);
    }
    let device_id: u32 = specifier[0];
    let ghost start = port.log();
    let made = PageTable::new(port, unit.features.translation_mode, unit.features.pas);
    let ghost reply = choose|reply: u64|
        port.log() == #[trigger] page_table::root_asked(start, reply) && (
        match page_table::root_fault(reply) {
            Some(fault) => made == Err::<PageTable, PageTableError>(fault),
            None => made matches Ok(table) && table.wf() && table.the_mode()
                == unit.features.translation_mode && table.pas() == unit.features.pas && table@
                == seq![radix::empty_page(reply)],
        });
    let table = match made {
        Ok(table) => table,
        Err(error) => {
            let fault = map_page_table_iommu_error(error);
            assert(attach_done(
                old(unit),
                unit,
                device_id,
                reply,
                Err(fault),
                start,
                port.log(),
            ));
            return Err(fault);
        },
    };
    let ghost asked = port.log();
    let attached = unit.attach_domain(port, device_id, table);
    let ghost t = port::since(port.log(), asked);
    let ghost w = choose|w: AttachRun| #[trigger]
        old(unit).attached_as(unit, device_id, table, w, t, attached);
    assert(attached_with(old(unit), unit, device_id, table, w, t, attached));
    match attached {
        Ok(table) => {
            let domain = RiscvIommuDomain { device_id, state: DomainState::new(table) };
            assert(attach_done(
                old(unit),
                unit,
                device_id,
                reply,
                Ok(domain),
                start,
                port.log(),
            ));
            Ok(domain)
        },
        Err(error) => {
            assert(attach_done(
                old(unit),
                unit,
                device_id,
                reply,
                Err(error),
                start,
                port.log(),
            ));
            Err(error)
        },
    }
}

/// Whether a device was attached with tables.
pub open spec fn attached_with(
    before: &RiscvIommuCore,
    after: &RiscvIommuCore,
    device_id: u32,
    table: PageTable,
    w: AttachRun,
    t: Seq<Exchange>,
    attached: Result<PageTable, IommuError>,
) -> bool {
    before.attached_as(after, device_id, table, w, t, attached)
}

/// Whether a device was attached with new tables, which begin empty.
pub open spec fn attach_done(
    before: &RiscvIommuCore,
    after: &RiscvIommuCore,
    device_id: u32,
    reply: u64,
    result: Result<RiscvIommuDomain, IommuError>,
    log: Seq<Exchange>,
    now: Seq<Exchange>,
) -> bool {
    let asked = page_table::root_asked(log, reply);
    if let Some(fault) = page_table::root_fault(reply) {
        result == Err::<RiscvIommuDomain, IommuError>(unit::table_fault(fault)) && *after == *before
            && now == asked
    } else {
        exists|
            table: PageTable,
            w: AttachRun,
            t: Seq<Exchange>,
            attached: Result<PageTable, IommuError>,
        | #[trigger]
            attached_with(before, after, device_id, table, w, t, attached) && table@ == seq![
                radix::empty_page(reply),
            ] && table.the_mode() == before.features.translation_mode && table.pas()
                == before.features.pas && now == asked + t && match attached {
                Ok(table) => result matches Ok(domain) && domain.device_id == device_id
                    && domain.state.page_table == table && domain.state.mappings@.len() == 0
                    && domain.state.next_token == 1,
                Err(error) => result == Err::<RiscvIommuDomain, IommuError>(error),
            }
    }
}

/// Mapping a run of pages makes exactly their addresses translate to their memory.
/// This holds whatever pages the tables got.
pub proof fn mapped_run_translates(
    run: PageRun,
    pas: u8,
    mode: u8,
    stages: Seq<TableStage>,
    replies: Seq<Seq<u64>>,
    count: int,
)
    requires
        8 <= mode <= 10,
        run.wf(),
        0 <= count <= run.count,
        stages.len() > count,
        forall|i: int|
            0 <= i < count ==> #[trigger] run.step_mapped(pas, mode, stages, replies, i),
        radix::is_tree(stages[0].pages, (page_table::levels_of(mode) - 1) as nat),
    ensures
        radix::is_tree(stages[count].pages, (page_table::levels_of(mode) - 1) as nat),
        forall|x: int|
            0 <= x <= page_table::top_of(mode) && x % 4096 == 0
                ==> #[trigger] page_table::translation(
                stages[count].pages,
                page_table::levels_of(mode),
                x,
            ) == (if run.iova <= x < run.iova + 4096 * count && run.iova % 4096 == 0 {
                page_table::leaf_entry((run.paddr + (x - run.iova)) as u64, run.writable)
            } else {
                page_table::translation(stages[0].pages, page_table::levels_of(mode), x)
            }),
    decreases count,
{
    if count > 0 {
        mapped_run_translates(run, pas, mode, stages, replies, count - 1);
        let i = count - 1;
        assert(run.step_mapped(pas, mode, stages, replies, i));
        page_table::mapping_is_exact(
            stages[i].pages,
            pas,
            mode,
            run.iova_at(i),
            run.paddr_at(i),
            run.writable,
            replies[i],
        );
        assert forall|x: int|
            0 <= x <= page_table::top_of(mode) && x % 4096 == 0 implies #[trigger]
        page_table::translation(stages[count].pages, page_table::levels_of(mode), x) == (if run.iova
            <= x < run.iova + 4096 * count && run.iova % 4096 == 0 {
            page_table::leaf_entry((run.paddr + (x - run.iova)) as u64, run.writable)
        } else {
            page_table::translation(stages[0].pages, page_table::levels_of(mode), x)
        }) by {
            assert(page_table::translation(
                stages[count].pages,
                page_table::levels_of(mode),
                x,
            ) == (if x == run.iova_at(i) {
                page_table::leaf_entry(run.paddr_at(i), run.writable)
            } else {
                page_table::translation(stages[i].pages, page_table::levels_of(mode), x)
            }));
        }
    }
}

/// Unmapping the pages of a run, if none is refused, makes exactly their addresses
/// translate to nothing.
pub proof fn unmapped_run_is_gone(
    run: PageRun,
    pas: u8,
    mode: u8,
    stages: Seq<TableStage>,
    outcomes: Seq<Result<(), PageTableError>>,
    count: int,
)
    requires
        8 <= mode <= 10,
        run.wf(),
        run.iova % 4096 == 0,
        0 <= count <= outcomes.len(),
        outcomes.len() <= run.count,
        stages.len() > count,
        forall|i: int|
            0 <= i < count ==> run.step_unmapped(
                pas,
                mode,
                stages,
                i,
                i,
                #[trigger] outcomes[i],
            ) && outcomes[i] is Ok,
        radix::is_tree(stages[0].pages, (page_table::levels_of(mode) - 1) as nat),
    ensures
        radix::is_tree(stages[count].pages, (page_table::levels_of(mode) - 1) as nat),
        forall|x: int|
            0 <= x <= page_table::top_of(mode) && x % 4096 == 0
                ==> #[trigger] page_table::translation(
                stages[count].pages,
                page_table::levels_of(mode),
                x,
            ) == (if run.iova <= x < run.iova + 4096 * count {
                0
            } else {
                page_table::translation(stages[0].pages, page_table::levels_of(mode), x)
            }),
    decreases count,
{
    if count > 0 {
        unmapped_run_is_gone(run, pas, mode, stages, outcomes, count - 1);
        let i = count - 1;
        assert(run.step_unmapped(pas, mode, stages, i, i, outcomes[i]));
        page_table::unmapping_is_exact(stages[i].pages, pas, mode, run.iova_at(i));
        assert forall|x: int|
            0 <= x <= page_table::top_of(mode) && x % 4096 == 0 implies #[trigger]
        page_table::translation(stages[count].pages, page_table::levels_of(mode), x) == (if run.iova
            <= x < run.iova + 4096 * count {
            0
        } else {
            page_table::translation(stages[0].pages, page_table::levels_of(mode), x)
        }) by {
            assert(page_table::translation(
                stages[count].pages,
                page_table::levels_of(mode),
                x,
            ) == (if x == run.iova_at(i) {
                0
            } else {
                page_table::translation(stages[i].pages, page_table::levels_of(mode), x)
            }));
        }
    }
}

} // verus!
