//! What a device reaches: the unit's own walk through the tables in memory, and what
//! mapping and unmapping mean to it.

use vstd::prelude::*;
use crate::iommu::bits;
use crate::iommu::domain;
use crate::iommu::domain::{
    DmaConstraints, DmaDirection, DmaMappedRegion, DmaRegion, MapPlan, MapRun, PageRun,
    RiscvIommuDomain, TableStage, UnmapRun,
};
use crate::iommu::page_table;
use crate::iommu::page_table::PageTableError;
use crate::iommu::radix;
use crate::iommu::radix::PageView;
use crate::iommu::unit::RiscvIommuCore;
use crate::port;
use crate::port::{Access, Exchange};

verus! {

/// How much address space an entry covers: a page at the lowest level, 512 times as much
/// one level up.
pub open spec fn entry_span(level: nat) -> int
    decreases level,
{
    if level == 0 {
        4096
    } else {
        512 * entry_span((level - 1) as nat)
    }
}

/// The place of the entry for an address in a table of a level.
pub open spec fn entry_index(level: nat, address: int) -> int {
    address / entry_span(level) % 512
}

/// A bit of an entry, by its worth.
pub open spec fn bit_of(entry: u64, worth: int) -> bool {
    entry as int / worth % 2 == 1
}

/// Where the page number of an entry points to: 44 bits from bit 10 on.
pub open spec fn target(entry: u64) -> int {
    entry as int / 1024 % 0x1000_0000_0000 * 4096
}

/// The entry of a page that the unit finds for an address, with the tables in memory and
/// the table of a level at `table`. An entry is not valid without bit 0; with no
/// permission to read, write or execute it leads to the next table.
pub open spec fn found(memory: Map<int, u64>, table: int, level: nat, address: int) -> Option<u64>
    decreases level,
{
    let entry = memory[table + 8 * entry_index(level, address)];
    if !bit_of(entry, 1) {
        None
    } else if bit_of(entry, 2) || bit_of(entry, 4) || bit_of(entry, 8) {
        if level == 0 {
            Some(entry)
        } else {
            None
        }
    } else if level == 0 {
        None
    } else {
        found(memory, target(entry), (level - 1) as nat, address)
    }
}

/// Whether an entry lets a device read, or write. The unit treats devices as users, and
/// takes an entry only if it is marked as accessed, and for a write as dirty.
pub open spec fn admits(entry: u64, write: bool) -> bool {
    &&& bit_of(entry, 0x10)
    &&& bit_of(entry, 0x40)
    &&& if write {
        bit_of(entry, 4) && bit_of(entry, 0x80)
    } else {
        bit_of(entry, 2)
    }
}

/// How many levels above the lowest the tables of a mode have: Sv39, Sv48 or Sv57.
pub open spec fn upper_levels(mode: u8) -> nat {
    if mode == 8 {
        2
    } else if mode == 9 {
        3
    } else {
        4
    }
}

/// The memory that a device reaches at an address, if any.
pub open spec fn reached(
    memory: Map<int, u64>,
    root: int,
    mode: u8,
    address: int,
    write: bool,
) -> Option<int> {
    match found(memory, root, upper_levels(mode), address) {
        Some(entry) => if admits(entry, write) {
            Some(target(entry) + address % 4096)
        } else {
            None
        },
        None => None,
    }
}

/// Whether memory holds the pages of tables.
pub open spec fn holds(memory: Map<int, u64>, pages: Seq<PageView>) -> bool {
    forall|i: int, k: int|
        0 <= i < pages.len() && 0 <= k < 512 ==> memory[pages[i].paddr + 8 * k]
            == #[trigger] pages[i].entries[k]
}

/// Memory after accesses.
pub open spec fn stored(memory: Map<int, u64>, trace: Seq<Exchange>) -> Map<int, u64>
    decreases trace.len(),
{
    if trace.len() == 0 {
        memory
    } else {
        let before = stored(memory, trace.drop_last());
        match trace.last().access {
            Access::Store64(at, value) => before.insert(at as int, value),
            _ => before,
        }
    }
}

proof fn lemma_spans()
    ensures
        entry_span(0) == 0x1000,
        entry_span(1) == 0x20_0000,
        entry_span(2) == 0x4000_0000,
        entry_span(3) == 0x80_0000_0000,
        entry_span(4) == 0x1_0000_0000_0000,
{
    reveal_with_fuel(entry_span, 5);
}

/// The entry of a page, if what a table has for an address is one.
pub open spec fn leaf_of(entry: u64) -> Option<u64> {
    if bit_of(entry, 1) && (bit_of(entry, 2) || bit_of(entry, 4) || bit_of(entry, 8)) {
        Some(entry)
    } else {
        None
    }
}

proof fn lemma_found(
    memory: Map<int, u64>,
    pages: Seq<PageView>,
    depth: nat,
    paths: Seq<Seq<usize>>,
    path: Seq<usize>,
    at: int,
    address: int,
)
    requires
        radix::tree(pages, depth, paths),
        holds(memory, pages),
        0 <= address,
        0 <= at < pages.len(),
        paths[at].len() + path.len() <= depth,
        radix::in_pages(path),
        forall|i: int|
            0 <= i < path.len() ==> #[trigger] path[i] == entry_index(
                (path.len() - i) as nat,
                address,
            ),
    ensures
        found(memory, pages[at].paddr as int, path.len(), address) == (match radix::reach(
            pages,
            path,
            at,
        ) {
            Some(p) => leaf_of(pages[p].entries[entry_index(0, address)]),
            None => None,
        }),
    decreases path.len(),
{
    if path.len() == 0 {
        let k = entry_index(0, address);
        assert(memory[pages[at].paddr + 8 * k] == pages[at].entries[k]);
    } else {
        let k = path[0] as int;
        assert(k == entry_index(path.len(), address));
        let entry = pages[at].entries[k];
        assert(memory[pages[at].paddr + 8 * k] == entry);
        assert(radix::entry_leads(pages, paths, at, k));
        if entry != 0 {
            assert(radix::is_link(entry));
            assert(bit_of(entry, 1) && !bit_of(entry, 2) && !bit_of(entry, 4) && !bit_of(entry, 8));
            let next = radix::page_at(pages, bits::paddr_of(entry))->0;
            radix::lemma_page_from(pages, bits::paddr_of(entry), 0);
            assert(pages[next].paddr == target(entry));
            let rest = path.skip(1);
            assert(radix::in_pages(rest));
            assert forall|i: int| 0 <= i < rest.len() implies #[trigger] rest[i] == entry_index(
                (rest.len() - i) as nat,
                address,
            ) by {
                assert(rest[i] == path[i + 1]);
            }
            assert(paths[next] == paths[at].push(k as usize));
            lemma_found(memory, pages, depth, paths, rest, next, address);
        }
    }
}

/// The unit finds what the tables hold.
proof fn lemma_unit_finds(memory: Map<int, u64>, pages: Seq<PageView>, mode: u8, address: int)
    requires
        8 <= mode <= 10,
        radix::is_tree(pages, (page_table::levels_of(mode) - 1) as nat),
        holds(memory, pages),
        0 <= address,
    ensures
        found(memory, pages[0].paddr as int, upper_levels(mode), address) == leaf_of(
            page_table::translation(
                pages,
                page_table::levels_of(mode),
                address - address % 4096,
            ),
        ),
{
    let levels = page_table::levels_of(mode);
    let depth = (levels - 1) as nat;
    let page = address - address % 4096;
    let paths = choose|paths: Seq<Seq<usize>>| #[trigger] radix::tree(pages, depth, paths);
    let path = page_table::path_of(levels, page);
    lemma_spans();
    page_table::lemma_path(levels, page);
    assert forall|i: int| 0 <= i < path.len() implies #[trigger] path[i] == entry_index(
        (path.len() - i) as nat,
        address,
    ) by {
        let level = levels - 1 - i;
        assert(level == 1 || level == 2 || level == 3 || level == 4);
        lemma_same_entry(level as nat, address);
    }
    lemma_same_entry(0, address);
    lemma_found(memory, pages, depth, paths, path, 0, address);
}

proof fn lemma_same_entry(level: nat, address: int)
    requires
        0 <= level <= 4,
        0 <= address,
    ensures
        (address - address % 4096) / page_table::span(level as int) % 512 == entry_index(
            level,
            address,
        ),
{
    lemma_spans();
    let page = address - address % 4096;
    let a = address / 4096;
    assert(page == a * 4096);
    assert(address == a * 4096 + address % 4096);
    if level == 1 {
        assert(page / 0x20_0000 == address / 0x20_0000);
    } else if level == 2 {
        assert(page / 0x4000_0000 == address / 0x4000_0000);
    } else if level == 3 {
        assert(page / 0x80_0000_0000 == address / 0x80_0000_0000);
    } else if level == 4 {
        assert(page / 0x1_0000_0000_0000 == address / 0x1_0000_0000_0000);
    }
}

/// What the entry of a page means to the unit.
proof fn lemma_leaf(paddr: u64, writable: bool)
    requires
        paddr % 4096 == 0,
        paddr < 0x100_0000_0000_0000,
    ensures
        ({
            let entry = page_table::leaf_entry(paddr, writable);
            &&& leaf_of(entry) == Some(entry)
            &&& target(entry) == paddr
            &&& admits(entry, false)
            &&& admits(entry, true) == writable
        }),
{
    let entry = page_table::leaf_entry(paddr, writable);
    let flags = page_table::flags_of(writable);
    assert(entry == paddr / 4096 * 1024 + flags);
    assert(entry as int / 1024 == paddr as int / 4096);
    assert(entry as int / 2 % 2 == flags as int / 2 % 2);
    assert(entry as int / 4 % 2 == flags as int / 4 % 2);
    assert(entry as int / 8 % 2 == flags as int / 8 % 2);
    assert(entry as int / 0x10 % 2 == flags as int / 0x10 % 2);
    assert(entry as int / 0x40 % 2 == flags as int / 0x40 % 2);
    assert(entry as int / 0x80 % 2 == flags as int / 0x80 % 2);
}

/// A page that was mapped is one that the unit can address.
proof fn lemma_mapped_is_reachable(run: PageRun, pas: u8, mode: u8, stages: Seq<TableStage>, replies: Seq<Seq<u64>>, i: int)
    requires
        pas <= 56,
        run.step_mapped(pas, mode, stages, replies, i),
    ensures
        run.paddr_at(i) % 4096 == 0,
        run.paddr_at(i) < 0x100_0000_0000_0000,
        run.iova_at(i) <= page_table::top_of(mode),
        run.iova_at(i) % 4096 == 0,
{
    assert(page_table::page_reachable(pas, run.paddr_at(i)));
    vstd::arithmetic::power2::lemma2_to64();
    vstd::arithmetic::power2::lemma2_to64_rest();
    if pas < 56 {
        vstd::arithmetic::power2::lemma_pow2_strictly_increases(pas as nat, 56);
    }
}

/// The pages of a region: the first, and how many there are.
pub open spec fn page_of(address: int) -> int {
    address - address % 4096
}

/// Memory that was mapped is what the device reaches at the address that it was given,
/// byte for byte: it may read it, and it may write it exactly if data is to come from the
/// device.
pub proof fn mapped_memory_is_reached(
    before: RiscvIommuDomain,
    after: RiscvIommuDomain,
    unit: RiscvIommuCore,
    unit_after: RiscvIommuCore,
    region: DmaRegion,
    constraints: DmaConstraints,
    requested: Option<usize>,
    w: MapRun,
    plan: Option<MapPlan>,
    mapped: DmaMappedRegion,
    log: Seq<Exchange>,
    now: Seq<Exchange>,
    memory: Map<int, u64>,
    k: int,
)
    requires
        before.wf(),
        before.map_done(
            &after,
            &unit,
            &unit_after,
            region,
            constraints,
            requested,
            w,
            plan,
            Some(mapped),
            log,
            now,
        ),
        before.state.page_table.pas() <= 56,
        holds(memory, after.state.page_table@),
        0 <= k < region.len,
    ensures
        requested is Some ==> mapped.dma_addr == requested->0,
        reached(
            memory,
            after.state.page_table@[0].paddr as int,
            before.state.page_table.the_mode(),
            mapped.dma_addr + k,
            false,
        ) == Some(region.paddr + k),
        reached(
            memory,
            after.state.page_table@[0].paddr as int,
            before.state.page_table.the_mode(),
            mapped.dma_addr + k,
            true,
        ) == (match region.direction {
            DmaDirection::ToDevice => None,
            DmaDirection::FromDevice => Some(region.paddr + k),
            DmaDirection::Bidirectional => Some(region.paddr + k),
        }),
{
    let table = before.state.page_table;
    let mode = table.the_mode();
    let pas = table.pas();
    let run = plan->0.run;
    table.tables_form_a_tree();
    let (base, offset, length) = domain::geometry_of(region)->0;
    assert(length >= offset + region.len);
    assert(run.wf()) by {
        assert(run.iova + length <= usize::MAX);
        assert(base + length <= usize::MAX);
    }
    domain::mapped_run_translates(run, pas, mode, w.stages, w.replies, run.count as int);
    let pages = after.state.page_table@;
    assert(pages == w.stages[run.count as int].pages);
    let address = mapped.dma_addr + k;
    let page = address - address % 4096;
    let i = (offset + k) / 4096;
    assert(address == run.iova + offset + k);
    assert(run.iova % 4096 == 0);
    assert(address % 4096 == (offset + k) % 4096);
    assert(page == run.iova + 4096 * i);
    assert(0 <= i < run.count) by {
        assert(offset + k < length);
        assert(run.count * 4096 == length);
    }
    assert(run.step_mapped(pas, mode, w.stages, w.replies, i));
    lemma_mapped_is_reachable(run, pas, mode, w.stages, w.replies, i);
    let paddr = (run.paddr + (page - run.iova)) as u64;
    assert(paddr == run.paddr_at(i));
    lemma_unit_finds(memory, pages, mode, address);
    assert(page_table::translation(pages, page_table::levels_of(mode), page)
        == page_table::leaf_entry(paddr, run.writable));
    lemma_leaf(paddr, run.writable);
    assert(paddr + address % 4096 == region.paddr + k);
}

/// Whether an address belongs to the pages of a region that was mapped.
pub open spec fn in_mapping(mapped: DmaMappedRegion, len: int, address: int) -> bool {
    page_of(mapped.dma_addr as int) <= address < page_of(mapped.dma_addr + len + 4095)
}

/// Mapping memory changes nothing of what the device reaches elsewhere.
pub proof fn mapping_changes_nothing_else(
    before: RiscvIommuDomain,
    after: RiscvIommuDomain,
    unit: RiscvIommuCore,
    unit_after: RiscvIommuCore,
    region: DmaRegion,
    constraints: DmaConstraints,
    requested: Option<usize>,
    w: MapRun,
    plan: Option<MapPlan>,
    mapped: DmaMappedRegion,
    log: Seq<Exchange>,
    now: Seq<Exchange>,
    memory: Map<int, u64>,
    memory_after: Map<int, u64>,
    address: int,
    write: bool,
)
    requires
        before.wf(),
        before.map_done(
            &after,
            &unit,
            &unit_after,
            region,
            constraints,
            requested,
            w,
            plan,
            Some(mapped),
            log,
            now,
        ),
        holds(memory, before.state.page_table@),
        holds(memory_after, after.state.page_table@),
        0 <= address <= page_table::top_of(before.state.page_table.the_mode()),
        !in_mapping(mapped, region.len as int, address),
    ensures
        reached(
            memory_after,
            after.state.page_table@[0].paddr as int,
            before.state.page_table.the_mode(),
            address,
            write,
        ) == reached(
            memory,
            before.state.page_table@[0].paddr as int,
            before.state.page_table.the_mode(),
            address,
            write,
        ),
{
    let table = before.state.page_table;
    let mode = table.the_mode();
    let pas = table.pas();
    let run = plan->0.run;
    table.tables_form_a_tree();
    let (base, offset, length) = domain::geometry_of(region)->0;
    assert(run.wf()) by {
        assert(run.iova + length <= usize::MAX);
        assert(base + length <= usize::MAX);
    }
    domain::mapped_run_translates(run, pas, mode, w.stages, w.replies, run.count as int);
    let pages = after.state.page_table@;
    let page = address - address % 4096;
    lemma_unit_finds(memory, table@, mode, address);
    lemma_unit_finds(memory_after, pages, mode, address);
    assert(mapped.dma_addr == run.iova + offset);
    assert(run.iova % 4096 == 0);
    assert(page_of(mapped.dma_addr as int) == run.iova);
    assert(page_of(mapped.dma_addr + region.len + 4095) == run.iova + length) by {
        let s = offset + region.len + 4095;
        assert((run.iova + s) % 4096 == s % 4096);
        assert(s - s % 4096 == s / 4096 * 4096);
    }
    assert(!(run.iova <= page < run.iova + 4096 * run.count));
}

/// A page that is mapped can be unmapped.
proof fn lemma_mapped_unmaps(pages: Seq<PageView>, pas: u8, mode: u8, iova: u64, paddr: u64, writable: bool)
    requires
        8 <= mode <= 10,
        radix::is_tree(pages, (page_table::levels_of(mode) - 1) as nat),
        iova <= page_table::top_of(mode),
        iova % 4096 == 0,
        page_table::translation(pages, page_table::levels_of(mode), iova as int)
            == page_table::leaf_entry(paddr, writable),
    ensures
        page_table::page_unmapped(pages, pas, mode, iova).outcome is Ok,
{
    let levels = page_table::levels_of(mode);
    let path = page_table::path_of(levels, iova as int);
    let entry = page_table::leaf_entry(paddr, writable);
    assert(entry != 0 && entry % 2 == 1 && bits::is_leaf(entry)) by {
        let flags = page_table::flags_of(writable);
        assert(entry == paddr / 4096 * 1024 + flags);
        assert(entry as int / 2 % 8 == flags as int / 2 % 8);
    }
    radix::lemma_reached_walk(pages, pas, path, 0, false, Seq::empty());
}

proof fn lemma_rolled_back(
    run: PageRun,
    pas: u8,
    mode: u8,
    stages: Seq<TableStage>,
    outcomes: Seq<Result<(), PageTableError>>,
    first: Seq<PageView>,
    total: int,
    count: int,
)
    requires
        8 <= mode <= 10,
        run.wf(),
        run.iova % 4096 == 0,
        0 <= count <= total <= run.count,
        total > 0 ==> run.iova + 4096 * (total - 1) <= page_table::top_of(mode),
        run.rolled_back(pas, mode, stages, outcomes, total),
        radix::is_tree(stages[0].pages, (page_table::levels_of(mode) - 1) as nat),
        forall|x: int|
            0 <= x <= page_table::top_of(mode) && x % 4096 == 0
                ==> #[trigger] page_table::translation(
                stages[0].pages,
                page_table::levels_of(mode),
                x,
            ) == (if run.iova <= x < run.iova + 4096 * total {
                page_table::leaf_entry((run.paddr + (x - run.iova)) as u64, run.writable)
            } else {
                page_table::translation(first, page_table::levels_of(mode), x)
            }),
        forall|x: int|
            run.iova <= x < run.iova + 4096 * total && x % 4096 == 0
                ==> #[trigger] page_table::translation(first, page_table::levels_of(mode), x) == 0,
    ensures
        radix::is_tree(stages[count].pages, (page_table::levels_of(mode) - 1) as nat),
        forall|x: int|
            0 <= x <= page_table::top_of(mode) && x % 4096 == 0
                ==> #[trigger] page_table::translation(
                stages[count].pages,
                page_table::levels_of(mode),
                x,
            ) == (if run.iova <= x < run.iova + 4096 * (total - count) {
                page_table::leaf_entry((run.paddr + (x - run.iova)) as u64, run.writable)
            } else {
                page_table::translation(first, page_table::levels_of(mode), x)
            }),
    decreases count,
{
    if count > 0 {
        lemma_rolled_back(run, pas, mode, stages, outcomes, first, total, count - 1);
        let i = count - 1;
        let levels = page_table::levels_of(mode);
        let page = total - 1 - i;
        let iova = run.iova_at(page);
        assert(run.step_unmapped(pas, mode, stages, i, page, outcomes[i]));
        assert(page_table::translation(stages[i].pages, levels, iova as int)
            == page_table::leaf_entry(
            (run.paddr + (iova - run.iova)) as u64,
            run.writable,
        ));
        lemma_mapped_unmaps(
            stages[i].pages,
            pas,
            mode,
            iova,
            (run.paddr + (iova - run.iova)) as u64,
            run.writable,
        );
        page_table::unmapping_is_exact(stages[i].pages, pas, mode, iova);
        assert forall|x: int|
            0 <= x <= page_table::top_of(mode) && x % 4096 == 0 implies #[trigger]
        page_table::translation(stages[count].pages, levels, x) == (if run.iova <= x < run.iova
            + 4096 * (total - count) {
            page_table::leaf_entry((run.paddr + (x - run.iova)) as u64, run.writable)
        } else {
            page_table::translation(first, levels, x)
        }) by {
            assert(page_table::translation(stages[count].pages, levels, x) == (if x == iova {
                0
            } else {
                page_table::translation(stages[i].pages, levels, x)
            }));
        }
    }
}

proof fn lemma_was_free(
    run: PageRun,
    pas: u8,
    mode: u8,
    stages: Seq<TableStage>,
    replies: Seq<Seq<u64>>,
    count: int,
    x: int,
)
    requires
        8 <= mode <= 10,
        run.wf(),
        run.iova % 4096 == 0,
        0 <= count <= run.count,
        stages.len() > count,
        forall|i: int|
            0 <= i < count ==> #[trigger] run.step_mapped(pas, mode, stages, replies, i),
        radix::is_tree(stages[0].pages, (page_table::levels_of(mode) - 1) as nat),
        run.iova <= x < run.iova + 4096 * count,
        x % 4096 == 0,
    ensures
        page_table::translation(stages[0].pages, page_table::levels_of(mode), x) == 0,
        x <= page_table::top_of(mode),
{
    let levels = page_table::levels_of(mode);
    let i = (x - run.iova) / 4096;
    assert(x == run.iova + 4096 * i);
    assert(run.step_mapped(pas, mode, stages, replies, i));
    domain::mapped_run_translates(run, pas, mode, stages, replies, i);
    page_table::mapping_is_exact(
        stages[i].pages,
        pas,
        mode,
        run.iova_at(i),
        run.paddr_at(i),
        run.writable,
        replies[i],
    );
    assert(run.iova_at(i) == x);
    assert(page_table::translation(stages[i].pages, levels, x) == 0);
    assert(page_table::translation(stages[i].pages, levels, x) == page_table::translation(
        stages[0].pages,
        levels,
        x,
    ));
}

/// A request that was refused changes nothing of what the device reaches, however far it
/// got.
#[verifier::spinoff_prover]
#[verifier::rlimit(60)]
pub proof fn refused_mapping_changes_nothing(
    before: RiscvIommuDomain,
    after: RiscvIommuDomain,
    unit: RiscvIommuCore,
    unit_after: RiscvIommuCore,
    region: DmaRegion,
    constraints: DmaConstraints,
    requested: Option<usize>,
    w: MapRun,
    plan: Option<MapPlan>,
    log: Seq<Exchange>,
    now: Seq<Exchange>,
    memory: Map<int, u64>,
    memory_after: Map<int, u64>,
    address: int,
    write: bool,
)
    requires
        before.wf(),
        before.map_done(
            &after,
            &unit,
            &unit_after,
            region,
            constraints,
            requested,
            w,
            plan,
            None,
            log,
            now,
        ),
        holds(memory, before.state.page_table@),
        holds(memory_after, after.state.page_table@),
        0 <= address <= page_table::top_of(before.state.page_table.the_mode()),
    ensures
        reached(
            memory_after,
            after.state.page_table@[0].paddr as int,
            before.state.page_table.the_mode(),
            address,
            write,
        ) == reached(
            memory,
            before.state.page_table@[0].paddr as int,
            before.state.page_table.the_mode(),
            address,
            write,
        ),
        after.state.mappings@ == before.state.mappings@,
{
    let table = before.state.page_table;
    let mode = table.the_mode();
    let pas = table.pas();
    let pages = after.state.page_table@;
    let page = address - address % 4096;
    let levels = page_table::levels_of(mode);
    table.tables_form_a_tree();
    lemma_unit_finds(memory, table@, mode, address);
    if after.state.page_table == table {
        lemma_unit_finds(memory_after, pages, mode, address);
    } else {
        let run = plan->0.run;
        let (base, offset, length) = domain::geometry_of(region)->0;
        assert(run.wf()) by {
            assert(run.iova + length <= usize::MAX);
            assert(base + length <= usize::MAX);
        }
        assert(run.iova % 4096 == 0);
        let done = w.stages.len() - 1;
        domain::mapped_run_translates(run, pas, mode, w.stages, w.replies, done);
        assert forall|x: int|
            run.iova <= x < run.iova + 4096 * done && x % 4096 == 0 implies #[trigger]
        page_table::translation(table@, page_table::levels_of(mode), x) == 0 by {
            lemma_was_free(run, pas, mode, w.stages, w.replies, done, x);
        }
        if done > 0 {
            lemma_was_free(
                run,
                pas,
                mode,
                w.stages,
                w.replies,
                done,
                run.iova + 4096 * (done - 1),
            );
        }
        if !w.ok {
            let error = choose|error: PageTableError| #[trigger]
                page_table::map_done(
                    w.stages[done].pages,
                    pas,
                    mode,
                    run.iova_at(done),
                    run.paddr_at(done),
                    run.writable,
                    w.replies[done],
                    w.mapped.pages,
                    Err(error),
                    w.stages[done].log,
                    w.mapped.log,
                );
            page_table::mapping_is_exact(
                w.stages[done].pages,
                pas,
                mode,
                run.iova_at(done),
                run.paddr_at(done),
                run.writable,
                w.replies[done],
            );
        }
        assert(w.back[0].pages == w.mapped.pages);
        lemma_rolled_back(run, pas, mode, w.back, w.outcomes, table@, done, done);
        assert(pages == w.back[done].pages);
        lemma_unit_finds(memory_after, pages, mode, address);
        assert(page_table::translation(pages, levels, page) == page_table::translation(
            table@,
            levels,
            page,
        ));
    }
}

/// After a mapping was removed, the device reaches nothing at its pages, and elsewhere
/// what it reached before.
pub proof fn unmapped_memory_is_out_of_reach(
    before: RiscvIommuDomain,
    after: RiscvIommuDomain,
    unit: RiscvIommuCore,
    unit_after: RiscvIommuCore,
    mapping: DmaMappedRegion,
    w: UnmapRun,
    log: Seq<Exchange>,
    now: Seq<Exchange>,
    memory: Map<int, u64>,
    memory_after: Map<int, u64>,
    address: int,
    write: bool,
)
    requires
        before.wf(),
        before.unmap_done(&after, &unit, &unit_after, mapping, w, true, log, now),
        holds(memory, before.state.page_table@),
        holds(memory_after, after.state.page_table@),
        0 <= address <= page_table::top_of(before.state.page_table.the_mode()),
    ensures
        0 <= w.at < before.state.mappings@.len(),
        before.state.mappings@[w.at].token == mapping.token,
        before.state.mappings@[w.at].dma_addr == mapping.dma_addr,
        reached(
            memory_after,
            after.state.page_table@[0].paddr as int,
            before.state.page_table.the_mode(),
            address,
            write,
        ) == ({
            let record = before.state.mappings@[w.at];
            if record.iova_base <= address < record.iova_base + record.length {
                None
            } else {
                reached(
                    memory,
                    before.state.page_table@[0].paddr as int,
                    before.state.page_table.the_mode(),
                    address,
                    write,
                )
            }
        }),
{
    let table = before.state.page_table;
    let mode = table.the_mode();
    let pas = table.pas();
    let pages = after.state.page_table@;
    let page = address - address % 4096;
    let levels = page_table::levels_of(mode);
    let record = before.state.mappings@[w.at];
    let run = domain::run_of(record);
    table.tables_form_a_tree();
    let count = w.outcomes.len() as int;
    assert(run.iova % 4096 == 0);
    assert(run.count * 4096 == record.length);
    assert forall|i: int| 0 <= i < count implies run.step_unmapped(
        pas,
        mode,
        w.stages,
        i,
        i,
        #[trigger] w.outcomes[i],
    ) && w.outcomes[i] is Ok by {
        if i == count - 1 {
            assert(w.outcomes.last() == w.outcomes[i]);
        }
    }
    domain::unmapped_run_is_gone(run, pas, mode, w.stages, w.outcomes, count);
    lemma_unit_finds(memory, table@, mode, address);
    assert(w.stages.last() == w.stages[count]);
    lemma_unit_finds(memory_after, pages, mode, address);
    assert(record.iova_base <= address < record.iova_base + record.length <==> run.iova <= page
        < run.iova + 4096 * count);
}

proof fn lemma_stored_concat(memory: Map<int, u64>, a: Seq<Exchange>, b: Seq<Exchange>)
    ensures
        stored(memory, a + b) == stored(stored(memory, a), b),
    decreases b.len(),
{
    if b.len() == 0 {
        assert(a + b =~= a);
    } else {
        assert((a + b).drop_last() =~= a + b.drop_last());
        lemma_stored_concat(memory, a, b.drop_last());
    }
}

/// A word of a page is no word of another page.
proof fn lemma_words_are_distinct(pages: Seq<PageView>, i: int, k: int, j: int, m: int)
    requires
        radix::sound(pages),
        0 <= i < pages.len(),
        0 <= j < pages.len(),
        0 <= k < 512,
        0 <= m < 512,
        pages[i].paddr + 8 * k == pages[j].paddr + 8 * m,
    ensures
        i == j,
        k == m,
{
    assert(radix::is_page(pages[i].paddr) && radix::is_page(pages[j].paddr));
    assert(pages[i].paddr == pages[j].paddr);
    if i < j {
        assert(pages[i].paddr != pages[j].paddr);
    } else if j < i {
        assert(pages[j].paddr != pages[i].paddr);
    }
}

proof fn lemma_write_is_stored(
    memory: Map<int, u64>,
    pages: Seq<PageView>,
    at: int,
    index: int,
    value: u64,
)
    requires
        usize::MAX == u64::MAX,
        radix::sound(pages),
        0 <= at < pages.len(),
        0 <= index < 512,
    ensures
        stored(memory, radix::write_trace(pages[at], index, value)) == memory.insert(
            pages[at].paddr + 8 * index,
            value,
        ),
        holds(memory, pages) ==> holds(
            stored(memory, radix::write_trace(pages[at], index, value)),
            radix::written(pages, at, index, value),
        ),
{
    let trace = radix::write_trace(pages[at], index, value);
    let word = pages[at].paddr + 8 * index;
    assert(radix::is_page(pages[at].paddr));
    assert(trace.drop_last() =~= seq![trace[0]]);
    assert(trace.last() == trace[1]);
    assert(seq![trace[0]].drop_last() =~= Seq::empty());
    reveal_with_fuel(stored, 3);
    let after = stored(memory, trace);
    assert(after == memory.insert(word, value));
    if holds(memory, pages) {
        let now = radix::written(pages, at, index, value);
        assert forall|i: int, k: int| 0 <= i < now.len() && 0 <= k < 512 implies after[now[i].paddr
            + 8 * k] == #[trigger] now[i].entries[k] by {
            assert(now[i].paddr == pages[i].paddr);
            assert(memory[pages[i].paddr + 8 * k] == pages[i].entries[k]);
            if pages[i].paddr + 8 * k == word {
                lemma_words_are_distinct(pages, i, k, at, index);
            }
        }
    }
}

/// Whether the pages that tables got besides those they had are filled with zeros.
pub open spec fn new_pages_are_zero(
    memory: Map<int, u64>,
    before: Seq<PageView>,
    after: Seq<PageView>,
) -> bool {
    forall|i: int, k: int|
        before.len() <= i < after.len() && 0 <= k < 512 ==> memory[(#[trigger] after[i]).paddr
            + #[trigger] word_offset(k)] == 0
}

/// Where a word stands in its page.
pub open spec fn word_offset(k: int) -> int {
    8 * k
}

#[verifier::rlimit(40)]
proof fn lemma_walk_is_stored(
    memory: Map<int, u64>,
    pages: Seq<PageView>,
    pas: u8,
    indexes: Seq<usize>,
    at: int,
    create: bool,
    replies: Seq<u64>,
)
    requires
        usize::MAX == u64::MAX,
        radix::sound(pages),
        radix::in_pages(indexes),
        0 <= at < pages.len(),
        holds(memory, pages),
        new_pages_are_zero(
            memory,
            pages,
            radix::walked(pages, pas, indexes, at, create, replies).pages,
        ),
    ensures
        holds(
            stored(memory, radix::walked(pages, pas, indexes, at, create, replies).trace),
            radix::walked(pages, pas, indexes, at, create, replies).pages,
        ),
    decreases indexes.len(),
{
    let walk = radix::walked(pages, pas, indexes, at, create, replies);
    reveal_with_fuel(stored, 3);
    if indexes.len() > 0 {
        assert(radix::in_pages(indexes.skip(1)));
        let index = indexes[0] as int;
        let entry = pages[at].entries[index];
        if entry % 2 == 1 {
            if radix::is_link(entry) {
                radix::lemma_page_from(pages, bits::paddr_of(entry), 0);
                match radix::page_at(pages, bits::paddr_of(entry)) {
                    Some(next) => {
                        lemma_walk_is_stored(
                            memory,
                            pages,
                            pas,
                            indexes.skip(1),
                            next,
                            create,
                            replies,
                        );
                    },
                    None => {},
                }
            }
        } else if entry == 0 && create {
            let reply = replies[0];
            let asked = seq![port::allocated(reply)];
            assert(asked.drop_last() =~= Seq::empty());
            assert(asked.last() == port::allocated(reply));
            assert(stored(memory, asked) == memory);
            if radix::usable(pages, pas, reply) {
                let n = pages.len() as int;
                let more = pages.push(radix::empty_page(reply));
                let grown = radix::linked(pages, at, index, reply);
                let link = radix::link_to(reply);
                radix::lemma_walk_sound(pages, pas, indexes, at, create, replies);
                lemma_grown_is_sound(pages, reply);
                radix::lemma_written_sound(more, at, index, link);
                radix::lemma_walk_keeps(
                    grown,
                    pas,
                    indexes.skip(1),
                    n,
                    create,
                    replies.skip(1),
                );
                assert(grown[n].paddr == reply);
                assert(walk.pages[n].paddr == reply);
                assert forall|i: int, k: int| 0 <= i < more.len() && 0 <= k < 512 implies memory[
                more[i].paddr + 8 * k] == #[trigger] more[i].entries[k] by {
                    if i < n {
                        assert(memory[pages[i].paddr + 8 * k] == pages[i].entries[k]);
                    } else {
                        assert(memory[walk.pages[n].paddr + word_offset(k)] == 0);
                    }
                }
                lemma_write_is_stored(memory, more, at, index, link);
                let trace = radix::write_trace(pages[at], index, link);
                assert(more[at] == pages[at]);
                let linked_memory = stored(memory, trace);
                assert(grown == radix::written(more, at, index, link));
                assert forall|i: int, k: int|
                    grown.len() <= i < walk.pages.len() && 0 <= k < 512 implies linked_memory[(
                #[trigger] walk.pages[i]).paddr + #[trigger] word_offset(k)] == 0 by {
                    assert(memory[walk.pages[i].paddr + word_offset(k)] == 0);
                    assert(walk.pages[at].paddr == grown[at].paddr);
                    assert(grown[at].paddr == pages[at].paddr);
                    if walk.pages[i].paddr + 8 * k == pages[at].paddr + 8 * index {
                        lemma_words_are_distinct(walk.pages, i, k, at, index);
                    }
                }
                lemma_walk_is_stored(
                    linked_memory,
                    grown,
                    pas,
                    indexes.skip(1),
                    n,
                    create,
                    replies.skip(1),
                );
                let rest = radix::walked(
                    grown,
                    pas,
                    indexes.skip(1),
                    n,
                    create,
                    replies.skip(1),
                );
                lemma_stored_concat(memory, asked, trace);
                lemma_stored_concat(memory, asked + trace, rest.trace);
            } else if reply != port::NO_PAGE && (!radix::reachable(pas, reply) || !radix::is_page(
                reply,
            )) {
                let back = seq![port::released(reply)];
                assert(back.drop_last() =~= Seq::empty());
                assert(back.last() == port::released(reply));
                lemma_stored_concat(memory, asked, back);
            }
        }
    }
}

proof fn lemma_grown_is_sound(pages: Seq<PageView>, reply: u64)
    requires
        radix::sound(pages),
        radix::is_page(reply),
        radix::page_at(pages, reply) is None,
    ensures
        radix::sound(pages.push(radix::empty_page(reply))),
{
    let more = pages.push(radix::empty_page(reply));
    radix::lemma_page_from(pages, reply, 0);
    assert forall|i: int| 0 <= i < more.len() implies (#[trigger] more[i]).entries.len() == 512
        && radix::is_page(more[i].paddr) by {
        if i < pages.len() {
            assert(pages[i].entries.len() == 512 && radix::is_page(pages[i].paddr));
        }
    }
    assert forall|i: int, j: int| 0 <= i < j < more.len() implies (#[trigger] more[i]).paddr != (
    #[trigger] more[j]).paddr by {
        assert(more[i] == pages[i]);
        if j < pages.len() {
            assert(pages[i].paddr != pages[j].paddr);
        }
    }
}

/// Memory holds the tables: after a page was mapped it holds the tables as they then are,
/// by the stores that were made, if the pages that they got were filled with zeros.
pub proof fn mapping_is_stored(
    memory: Map<int, u64>,
    pages: Seq<PageView>,
    pas: u8,
    mode: u8,
    iova: u64,
    paddr: u64,
    writable: bool,
    replies: Seq<u64>,
)
    requires
        usize::MAX == u64::MAX,
        8 <= mode <= 10,
        radix::is_tree(pages, (page_table::levels_of(mode) - 1) as nat),
        holds(memory, pages),
        new_pages_are_zero(
            memory,
            pages,
            page_table::page_mapped(pages, pas, mode, iova, paddr, writable, replies).pages,
        ),
    ensures
        holds(
            stored(
                memory,
                page_table::page_mapped(pages, pas, mode, iova, paddr, writable, replies).trace,
            ),
            page_table::page_mapped(pages, pas, mode, iova, paddr, writable, replies).pages,
        ),
{
    let levels = page_table::levels_of(mode);
    let depth = (levels - 1) as nat;
    let path = page_table::path_of(levels, iova as int);
    let change = page_table::page_mapped(pages, pas, mode, iova, paddr, writable, replies);
    reveal_with_fuel(stored, 2);
    if page_table::page_reachable(pas, paddr) && iova <= page_table::top_of(mode) && iova % 4096
        == 0 {
        let walk = radix::walked(pages, pas, path, 0, true, replies);
        page_table::lemma_path(levels, iova as int);
        radix::lemma_tree_is_sound(pages, depth);
        radix::lemma_walk_sound(pages, pas, path, 0, true, replies);
        radix::walking_keeps_values(pages, pas, path, true, replies);
        if walk.outcome is Ok {
            radix::lemma_reach_in_pages(walk.pages, path);
        }
        assert(change.pages.len() == walk.pages.len());
        assert forall|i: int, k: int|
            pages.len() <= i < walk.pages.len() && 0 <= k < 512 implies memory[(
        #[trigger] walk.pages[i]).paddr + #[trigger] word_offset(k)] == 0 by {
            assert(change.pages[i].paddr == walk.pages[i].paddr);
            assert(memory[change.pages[i].paddr + word_offset(k)] == 0);
        }
        lemma_walk_is_stored(memory, pages, pas, path, 0, true, replies);
        if change.outcome is Ok {
            let at = walk.outcome->Ok_0;
            let slot = page_table::slot_of(iova as int);
            let entry = page_table::leaf_entry(paddr, writable);
            lemma_write_is_stored(stored(memory, walk.trace), walk.pages, at, slot, entry);
            lemma_stored_concat(
                memory,
                walk.trace,
                radix::write_trace(walk.pages[at], slot, entry),
            );
        }
    }
}

/// Memory holds the tables after a page was unmapped.
pub proof fn unmapping_is_stored(
    memory: Map<int, u64>,
    pages: Seq<PageView>,
    pas: u8,
    mode: u8,
    iova: u64,
)
    requires
        usize::MAX == u64::MAX,
        8 <= mode <= 10,
        radix::is_tree(pages, (page_table::levels_of(mode) - 1) as nat),
        holds(memory, pages),
    ensures
        holds(
            stored(memory, page_table::page_unmapped(pages, pas, mode, iova).trace),
            page_table::page_unmapped(pages, pas, mode, iova).pages,
        ),
{
    let levels = page_table::levels_of(mode);
    let depth = (levels - 1) as nat;
    let path = page_table::path_of(levels, iova as int);
    let change = page_table::page_unmapped(pages, pas, mode, iova);
    reveal_with_fuel(stored, 2);
    if iova <= page_table::top_of(mode) && iova % 4096 == 0 {
        let walk = radix::walked(pages, pas, path, 0, false, Seq::empty());
        page_table::lemma_path(levels, iova as int);
        radix::lemma_tree_is_sound(pages, depth);
        radix::lemma_plain_walk(pages, pas, path, 0, Seq::empty(), Seq::empty());
        radix::walking_keeps_values(pages, pas, path, false, Seq::empty());
        if walk.outcome is Ok {
            let at = walk.outcome->Ok_0;
            radix::lemma_reach_in_pages(pages, path);
            lemma_write_is_stored(memory, pages, at, page_table::slot_of(iova as int), 0);
        }
    }
}

/// Tables that begin with an empty root reach nothing.
pub proof fn new_tables_reach_nothing(
    memory: Map<int, u64>,
    paddr: u64,
    mode: u8,
    address: int,
    write: bool,
)
    requires
        8 <= mode <= 10,
        radix::is_page(paddr),
        0 <= address,
        holds(memory, seq![radix::empty_page(paddr)]),
    ensures
        reached(memory, paddr as int, mode, address, write) is None,
{
    let pages = seq![radix::empty_page(paddr)];
    let depth = (page_table::levels_of(mode) - 1) as nat;
    radix::root_is_tree(paddr, depth);
    lemma_unit_finds(memory, pages, mode, address);
    let page = address - address % 4096;
    page_table::lemma_path(page_table::levels_of(mode), page);
}

} // verus!
