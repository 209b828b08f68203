//! What the unit makes of its directory, its registers and its queues.

use vstd::prelude::*;
use crate::iommu::bits::{Command, FaultRecord};
use crate::iommu::directory;
use crate::iommu::directory::DeviceDirectory;
use crate::iommu::queue;
use crate::iommu::queue::{CommandQueue, FaultPass};
use crate::iommu::radix;
use crate::iommu::radix::PageView;
use crate::iommu::unit;
use crate::port::{Access, Exchange};

verus! {

/// The number of the device whose context the unit takes from a place: seven bits of it, or
/// six of contexts that are twice as long, count the contexts of a page, and nine bits the
/// entries of each table above.
pub open spec fn device_at(extended: bool, path: Seq<usize>, word: int) -> int {
    let low = if extended {
        word / 8
    } else {
        word / 4
    };
    let unit = if extended {
        64int
    } else {
        128
    };
    if path.len() == 0 {
        low
    } else if path.len() == 1 {
        path[0] * unit + low
    } else {
        path[0] * 512 * unit + path[1] * unit + low
    }
}

/// The context of a device is where the unit looks for it.
pub proof fn context_is_where_the_unit_looks(extended: bool, mode: u8, device_id: u32)
    requires
        2 <= mode <= 4,
        device_id < directory::device_limit(extended, directory::levels_of(mode)),
    ensures
        ({
            let path = directory::path_for(extended, directory::levels_of(mode), device_id);
            let word = directory::word_for(extended, device_id);
            &&& path.len() == mode - 2
            &&& device_at(extended, path, word) == device_id
            &&& forall|i: int| 0 <= i < path.len() ==> #[trigger] path[i] < 512
            &&& 0 <= word <= 512 - (if extended {
                8int
            } else {
                4
            })
            &&& word % (if extended {
                8int
            } else {
                4
            }) == 0
        }),
{
    let id = device_id as int;
    if extended {
        assert(id / 64 / 512 == id / 32768) by (nonlinear_arith);
        assert(id == id / 64 * 64 + id % 64);
        assert(id / 64 == id / 64 / 512 * 512 + id / 64 % 512);
    } else {
        assert(id / 128 / 512 == id / 65536) by (nonlinear_arith);
        assert(id == id / 128 * 128 + id % 128);
        assert(id / 128 == id / 128 / 512 * 512 + id / 128 % 512);
    }
}

/// A context that was installed is valid and has its pointer to the tables in its fourth
/// word, and nothing else. It becomes valid only when the rest is there.
pub proof fn context_holds_its_pointer(
    devices: DeviceDirectory,
    after: Seq<PageView>,
    device_id: u32,
    fsc: u64,
    replies: Seq<u64>,
    trace: Seq<Exchange>,
    k: int,
)
    requires
        devices.install_done(after, device_id, fsc, replies, Ok(()), trace),
        radix::sound(devices.locating(device_id, replies).pages),
        devices.locating(device_id, replies).outcome matches Ok((at, _)) ==> 0 <= at
            < devices.locating(device_id, replies).pages.len(),
        0 <= k < (if devices.extended {
            8int
        } else {
            4
        }),
    ensures
        devices.locating(device_id, replies).outcome matches Ok((at, word)) && {
            let n = trace.len();
            &&& after[at].entries[word + k] == (if k == 0 {
                1
            } else if k == 3 {
                fsc
            } else {
                0
            })
            &&& n >= 2
            &&& trace[n - 2].access == Access::Store64((after[at].paddr + 8 * word) as usize, 1)
        },
{
    let way = devices.locating(device_id, replies);
    let (at, word) = way.outcome->Ok_0;
    let words = directory::words_of(devices.extended);
    lemma_zeroed(way.pages, at, word, words, k);
    context_is_where_the_unit_looks(devices.extended, devices.mode, device_id);
}

proof fn lemma_zeroed(pages: Seq<PageView>, at: int, word: int, count: int, k: int)
    requires
        0 <= at < pages.len(),
        pages[at].entries.len() == 512,
        0 <= word,
        0 <= count,
        word + count <= 512,
    ensures
        directory::zeroed(pages, at, word, count).len() == pages.len(),
        directory::zeroed(pages, at, word, count)[at].entries.len() == 512,
        directory::zeroed(pages, at, word, count)[at].paddr == pages[at].paddr,
        0 <= k < count ==> directory::zeroed(pages, at, word, count)[at].entries[word + k] == 0,
    decreases count,
{
    if count > 0 {
        lemma_zeroed(pages, at, word, count - 1, k);
    }
}

/// The pointer of a context names the mode and the first page of the tables of a device.
pub proof fn context_points_to_its_tables(mode: u8, root: u64)
    requires
        mode < 16,
        root % 4096 == 0,
        root < 0x100_0000_0000_0000,
    ensures
        ({
            let fsc = unit::context_of(mode, root) as int;
            &&& fsc / 0x1000_0000_0000_0000 == mode
            &&& fsc % 0x1000_0000_0000 * 4096 == root
        }),
{
    let fsc = mode * 0x1000_0000_0000_0000 + root / 4096;
    assert(0 <= fsc <= u64::MAX);
    assert(fsc % 0x1000_0000_0000 == root / 4096);
}

/// The register of the directory names the first page of the directory and its levels.
pub proof fn directory_register_names_its_root(root: u64, mode: int)
    requires
        0 <= mode < 16,
        root % 4096 == 0,
        root < 0x100_0000_0000_0000,
    ensures
        unit::ddtp(root, mode) as int % 16 == mode,
        unit::ddtp(root, mode) as int / 1024 % 0x1000_0000_0000 * 4096 == root,
{
    let value = root / 4096 * 1024 + mode;
    assert(0 <= value <= u64::MAX);
    assert(value / 1024 == root / 4096);
    assert(value % 16 == mode);
}

/// A queue takes a page of 64 entries, of which the register names the address; the mask of
/// a queue that is shorter is that of its own length.
pub proof fn queue_register_names_its_page(paddr: u64, log2: u64)
    requires
        paddr % 4096 == 0,
        paddr < 0x100_0000_0000_0000,
        log2 <= 5,
    ensures
        queue::queue_base(paddr) as int / 1024 % 0x1000_0000_0000 * 4096 == paddr,
        queue::queue_base(paddr) as int % 32 == 5,
        queue::mask_of(0) == 1,
        log2 > 0 ==> queue::mask_of(log2) == 2 * queue::mask_of((log2 - 1) as u64) + 1,
{
    let value = paddr / 4096 * 1024 + 5;
    assert(0 <= value <= u64::MAX);
    assert(value / 1024 == paddr / 4096);
    assert(value % 32 == 5);
}

/// What a command says: its opcode, and its function.
pub open spec fn opcode(command: Command) -> (int, int) {
    (command.dword0 as int % 128, command.dword0 as int / 128 % 8)
}

/// After a change of a device's context the unit is told to forget that device's context,
/// and then every translation.
pub proof fn changed_device_is_forgotten(device_id: u32)
    requires
        device_id < 0x100_0000,
    ensures
        ({
            let commands = unit::device_commands(device_id);
            &&& commands.len() == 2
            &&& opcode(commands[0]) == (3int, 0int)
            &&& commands[0].dword0 as int / 0x2_0000_0000 % 2 == 1
            &&& commands[0].dword0 as int / 0x100_0000_0000 == device_id
            &&& commands[1].dword0 == 1
        }),
{
    let word = 0x2_0000_0003 + device_id * 0x100_0000_0000;
    assert(0 <= word <= u64::MAX);
    assert(word / 0x100_0000_0000 == device_id);
    assert(word / 0x2_0000_0000 == device_id * 128 + 1);
    assert(word % 128 == 3);
    assert(word / 128 % 8 == 0);
}

/// At the start the unit forgets every context and every translation.
pub proof fn everything_is_forgotten_at_first()
    ensures
        ({
            let commands = unit::first_commands();
            &&& commands.len() == 2
            &&& opcode(commands[0]) == (3int, 0int)
            &&& commands[0].dword0 as int / 0x2_0000_0000 % 2 == 0
            &&& opcode(commands[1]) == (1int, 0int)
            &&& commands[1].dword0 as int / 1024 == 0
        }),
{
}

/// A command is in the slot of the tail before the tail moves on to the next slot.
pub proof fn command_is_there_before_the_unit_hears(
    memory: u64,
    mask: u32,
    tail: u32,
    command: Command,
)
    requires
        queue::sized(mask),
        tail <= mask,
    ensures
        ({
            let trace = CommandQueue::handed(memory, mask, tail, command);
            &&& trace[0].access == Access::Store64((memory + 16 * tail) as usize, command.dword0)
            &&& trace[1].access == Access::Store64(
                (memory + 16 * tail + 8) as usize,
                command.dword1,
            )
            &&& trace[3].access is Barrier
            &&& trace[4].access == Access::Write32(0x24, ((tail + 1) % (mask + 1)) as u32)
        }),
{
    if tail == mask {
        assert((tail + 1) % (mask + 1) == 0) by (nonlinear_arith)
            requires
                tail == mask,
        ;
    } else {
        assert((tail + 1) % (mask + 1) == tail + 1) by (nonlinear_arith)
            requires
                tail < mask,
        ;
    }
}

/// The faults that a pass takes come from the slots from the head on, one behind the other
/// and round the end, with the four words of each in their order.
pub proof fn faults_come_from_their_slots(
    memory: u64,
    mask: u32,
    head: int,
    records: Seq<FaultRecord>,
    i: int,
)
    requires
        0 <= head <= mask,
        records.len() <= mask,
        0 <= i < records.len(),
    ensures
        ({
            let trace = queue::records_trace(memory, mask, head, records);
            let at = memory + 32 * ((head + i) % (mask + 1));
            &&& trace.len() == 4 * records.len()
            &&& trace[4 * i].access == Access::Load64(at as usize)
            &&& trace[4 * i].reply == records[i].header
            &&& trace[4 * i + 1].access == Access::Load64((at + 8) as usize)
            &&& trace[4 * i + 2].access == Access::Load64((at + 16) as usize)
            &&& trace[4 * i + 2].reply == records[i].iotval
            &&& trace[4 * i + 3].access == Access::Load64((at + 24) as usize)
            &&& trace[4 * i + 3].reply == records[i].iotval2
        }),
    decreases records.len(),
{
    let front = queue::records_trace(memory, mask, head, records.drop_last());
    let trace = queue::records_trace(memory, mask, head, records);
    lemma_records_len(memory, mask, head, records.drop_last());
    assert((head + i) % (mask + 1) == queue::wrapped(head + i, mask)) by {
        if head + i > mask {
            assert((head + i) % (mask + 1) == head + i - (mask + 1)) by (nonlinear_arith)
                requires
                    mask + 1 <= head + i < 2 * (mask + 1),
            ;
        } else {
            assert((head + i) % (mask + 1) == head + i) by (nonlinear_arith)
                requires
                    0 <= head + i < mask + 1,
            ;
        }
    }
    if i < records.len() - 1 {
        faults_come_from_their_slots(memory, mask, head, records.drop_last(), i);
        assert(trace[4 * i] == front[4 * i]);
        assert(trace[4 * i + 1] == front[4 * i + 1]);
        assert(trace[4 * i + 2] == front[4 * i + 2]);
        assert(trace[4 * i + 3] == front[4 * i + 3]);
    }
}

proof fn lemma_records_len(memory: u64, mask: u32, head: int, records: Seq<FaultRecord>)
    ensures
        queue::records_trace(memory, mask, head, records).len() == 4 * records.len(),
    decreases records.len(),
{
    if records.len() > 0 {
        lemma_records_len(memory, mask, head, records.drop_last());
    }
}

/// The unit is told that a pass took everything up to the tail that it had named.
pub proof fn taken_faults_are_given_back(memory: u64, mask: u32, head: int, pass: FaultPass)
    requires
        queue::sized(mask),
        0 <= head <= mask,
    ensures
        ({
            let trace = queue::pass_trace(memory, mask, head, pass);
            let n = trace.len();
            &&& trace[0].access == Access::Read32(0x34)
            &&& trace[0].reply == pass.tail
            &&& n >= 4
            &&& trace[n - 3].access == Access::Write32(0x30, (pass.tail as int % (mask + 1)) as u32)
        }),
{
}

/// Whether capabilities name a mode of translation, with three, four or five levels.
pub open spec fn has_mode(capabilities: u64, mode: u8) -> bool {
    ||| mode == 8 && capabilities / 0x200 % 2 == 1
    ||| mode == 9 && capabilities / 0x400 % 2 == 1
    ||| mode == 10 && capabilities / 0x800 % 2 == 1
}

/// The mode that is taken is the largest that the unit has.
pub proof fn largest_mode_is_taken(capabilities: u64, other: u8)
    ensures
        has_mode(capabilities, other) ==> unit::mode_of(capabilities) is Some,
        unit::mode_of(capabilities) matches Some(mode) ==> {
            &&& has_mode(capabilities, mode)
            &&& has_mode(capabilities, other) ==> other <= mode
        },
{
}

} // verus!
