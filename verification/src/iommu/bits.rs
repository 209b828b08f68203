//! The registers of the translation unit and the words in its tables and queues.

use vstd::prelude::*;

verus! {

pub const REG_CAP: usize = 0x0000;

pub const REG_FCTL: usize = 0x0008;

pub const REG_DDTP: usize = 0x0010;

pub const REG_CQB: usize = 0x0018;

pub const REG_CQH: usize = 0x0020;

pub const REG_CQT: usize = 0x0024;

pub const REG_FQB: usize = 0x0028;

pub const REG_FQH: usize = 0x0030;

pub const REG_FQT: usize = 0x0034;

pub const REG_CQCSR: usize = 0x0048;

pub const REG_FQCSR: usize = 0x004c;

pub const REG_PQCSR: usize = 0x0050;

pub const REG_IPSR: usize = 0x0054;

pub const REG_IOCOUNTOVF: usize = 0x0058;

pub const REG_IOHPMCYCLES: usize = 0x0060;

pub const REG_IOHPMEVT_BASE: usize = 0x0160;

pub const REG_ICVEC: usize = 0x02f8;

pub const REG_SIZE: usize = 0x1000;

pub const CAP_VERSION_MASK: u64 = 0xff;

pub const CAP_SUPPORTED_MAJOR: u8 = 1;

pub const CAP_SV39: u64 = 0x200;

pub const CAP_SV48: u64 = 0x400;

pub const CAP_SV57: u64 = 0x800;

pub const CAP_MSI_FLAT: u64 = 0x400000;

pub const CAP_ATS: u64 = 0x2000000;

pub const CAP_HPM: u64 = 0x40000000;

pub const FCTL_BE: u32 = 1;

pub const FCTL_WSI: u32 = 2;

pub const DDTP_MODE_MASK: u64 = 0xf;

pub const DDTP_BUSY: u64 = 0x10;

pub const DDTP_MODE_OFF: u8 = 0;

pub const DDTP_MODE_BARE: u8 = 1;

pub const DDTP_MODE_1LVL: u8 = 2;

pub const DDTP_MODE_2LVL: u8 = 3;

pub const DDTP_MODE_3LVL: u8 = 4;

pub const QUEUE_ENABLE: u32 = 1;

pub const QUEUE_INTERRUPT_ENABLE: u32 = 2;

pub const QUEUE_MEM_FAULT: u32 = 0x100;

pub const QUEUE_OVERFLOW: u32 = 0x200;

pub const QUEUE_ACTIVE: u32 = 0x10000;

pub const QUEUE_BUSY: u32 = 0x20000;

pub const CQCSR_TIMEOUT: u32 = 0x200;

pub const CQCSR_ILLEGAL: u32 = 0x400;

pub const CQCSR_FENCE_WRITE_PENDING: u32 = 0x800;

pub const IPSR_CQ: u32 = 1;

pub const IPSR_FQ: u32 = 2;

pub const IPSR_PM: u32 = 4;

pub const IPSR_PQ: u32 = 8;

pub const IPSR_ALL: u32 = 0xf;

pub const INTERRUPT_CAUSE_COUNT: usize = 4;

pub const ICVEC_FIELD_MASK: u64 = 0xf;

pub const HPM_OVERFLOW: u64 = 0x8000000000000000;

pub const HPM_EVENT_COUNTERS: usize = 31;

pub const DC_TC_VALID: u64 = 1;

pub const DDTE_VALID: u64 = 1;

pub const CMD_IOTINVAL_VMA: u64 = 1;

pub const CMD_IOFENCE_C: u64 = 0x3002;

pub const CMD_IODIR_DDT: u64 = 3;

pub const CMD_IODIR_DV: u64 = 0x200000000;

pub const PTE_VALID: u64 = 1;

pub const PTE_READ: u64 = 2;

pub const PTE_WRITE: u64 = 4;

pub const PTE_EXECUTE: u64 = 8;

pub const PTE_USER: u64 = 0x10;

pub const PTE_ACCESSED: u64 = 0x40;

pub const PTE_DIRTY: u64 = 0x80;

pub const PTE_PPN_MASK: u64 = 0x3ffffffffffc00;

pub const POLL_LIMIT: u32 = 1000000;

pub const QUEUE_LOG2SZ: u64 = 5;

pub const PAGE_SIZE: u64 = 0x1000;

/// Whether the unit is of the supported major version. Later minor versions keep
/// what earlier ones had.
pub fn capability_version_supported(capabilities: u64) -> (supported: bool)
    ensures
        supported == (capabilities / 16 % 16 == CAP_SUPPORTED_MAJOR),
{
    capabilities / 16 % 16 == CAP_SUPPORTED_MAJOR as u64
}

/// The vector of each cause of interrupts when there are `vector_count` of them.
pub open spec fn folded(cause: int, vector_count: int) -> int {
    cause % vector_count
}

/// The register that spreads the four causes over the vectors in turn.
pub fn interrupt_vector_layout(vector_count: usize) -> (layout: Option<u64>)
    ensures
        layout is Some <==> 1 <= vector_count <= INTERRUPT_CAUSE_COUNT,
        layout is Some ==> layout->0 == folded(1, vector_count as int) * 0x10 + folded(
            2,
            vector_count as int,
        ) * 0x100 + folded(3, vector_count as int) * 0x1000,
{
    if vector_count == 0 || vector_count > INTERRUPT_CAUSE_COUNT {
        return None;
    }
    let count: u64 = vector_count as u64;
    let fq: u64 = 1 % count;
    let pm: u64 = 2 % count;
    let pq: u64 = 3 % count;
    Some(fq * 0x10 + pm * 0x100 + pq * 0x1000)
}

/// The vector of a cause in the register.
pub open spec fn vector_of(layout: u64, cause: int) -> int {
    if cause == 0 {
        layout as int % 16
    } else if cause == 1 {
        layout as int / 0x10 % 16
    } else if cause == 2 {
        layout as int / 0x100 % 16
    } else {
        layout as int / 0x1000 % 16
    }
}

/// Whether no cause goes to a vector that is not there.
pub open spec fn layout_fits(layout: u64, vector_count: int) -> bool {
    &&& 1 <= vector_count <= INTERRUPT_CAUSE_COUNT
    &&& forall|cause: int| 0 <= cause < 4 ==> #[trigger] vector_of(layout, cause) < vector_count
}

pub fn interrupt_vector_layout_valid(layout: u64, vector_count: usize) -> (valid: bool)
    ensures
        valid == layout_fits(layout, vector_count as int),
{
    if vector_count == 0 || vector_count > INTERRUPT_CAUSE_COUNT {
        return false;
    }
    let count: u64 = vector_count as u64;
    assert(vector_of(layout, 0) == layout % 16);
    assert(vector_of(layout, 1) == layout / 0x10 % 16);
    assert(vector_of(layout, 2) == layout / 0x100 % 16);
    assert(vector_of(layout, 3) == layout / 0x1000 % 16);
    layout % 16 < count && layout / 0x10 % 16 < count && layout / 0x100 % 16 < count && layout
        / 0x1000 % 16 < count
}

/// The register that spreads the causes over the vectors always fits them.
pub proof fn folded_layout_fits(layout: u64, vector_count: int)
    requires
        1 <= vector_count <= INTERRUPT_CAUSE_COUNT,
        layout == folded(1, vector_count) * 0x10 + folded(2, vector_count) * 0x100 + folded(
            3,
            vector_count,
        ) * 0x1000,
    ensures
        layout_fits(layout, vector_count),
        forall|cause: int|
            0 <= cause < 4 ==> #[trigger] vector_of(layout, cause) == folded(cause, vector_count),
{
    assert(vector_count == 1 || vector_count == 2 || vector_count == 3 || vector_count == 4);
    assert forall|cause: int| 0 <= cause < 4 implies #[trigger] vector_of(layout, cause) == folded(
        cause,
        vector_count,
    ) && vector_of(layout, cause) < vector_count by {
        assert(cause == 0 || cause == 1 || cause == 2 || cause == 3);
    }
}

/// A command to the unit.
#[derive(Clone, Copy, PartialEq, Eq, Structural, Debug)]
pub struct Command {
    pub dword0: u64,
    pub dword1: u64,
}

impl Default for Command {
    fn default() -> (command: Self)
        ensures
            command == (Command { dword0: 0, dword1: 0 }),
    {
        Command { dword0: 0, dword1: 0 }
    }
}

impl Command {
    /// Forget every cached translation.
    pub fn iotinval_all() -> (command: Self)
        ensures
            command == (Command { dword0: CMD_IOTINVAL_VMA, dword1: 0 }),
    {
        Command { dword0: CMD_IOTINVAL_VMA, dword1: 0 }
    }

    /// Forget the cached context of a device; a device number has 24 bits.
    pub open spec fn for_device(device_id: u32) -> Command {
        Command {
            dword0: (CMD_IODIR_DDT + CMD_IODIR_DV + device_id as int % 0x100_0000
                * 0x100_0000_0000) as u64,
            dword1: 0,
        }
    }

    pub fn iodir_device(device_id: u32) -> (command: Self)
        ensures
            command == Self::for_device(device_id),
    {
        let id: u64 = (device_id % 0x100_0000) as u64;
        Command { dword0: CMD_IODIR_DDT + CMD_IODIR_DV + id * 0x100_0000_0000, dword1: 0 }
    }

    /// Forget the cached contexts of all devices.
    pub fn iodir_all() -> (command: Self)
        ensures
            command == (Command { dword0: CMD_IODIR_DDT, dword1: 0 }),
    {
        Command { dword0: CMD_IODIR_DDT, dword1: 0 }
    }

    /// Finish every earlier command.
    pub fn iofence() -> (command: Self)
        ensures
            command == (Command { dword0: CMD_IOFENCE_C, dword1: 0 }),
    {
        Command { dword0: CMD_IOFENCE_C, dword1: 0 }
    }
}

/// What the unit says of an access that it refused.
#[derive(Clone, Copy, PartialEq, Eq, Structural, Debug)]
pub struct FaultRecord {
    pub header: u64,
    pub reserved: u64,
    pub iotval: u64,
    pub iotval2: u64,
}

impl Default for FaultRecord {
    fn default() -> (record: Self)
        ensures
            record == (FaultRecord { header: 0, reserved: 0, iotval: 0, iotval2: 0 }),
    {
        FaultRecord { header: 0, reserved: 0, iotval: 0, iotval2: 0 }
    }
}

impl FaultRecord {
    pub fn cause(&self) -> (cause: u64)
        ensures
            cause == self.header % 0x1000,
    {
        self.header % 0x1000
    }

    /// The number of the device.
    pub fn device_id(&self) -> (id: u64)
        ensures
            id == self.header / 0x100_0000_0000,
    {
        self.header / 0x100_0000_0000
    }
}

/// The page number of a table entry for an address.
pub open spec fn ppn(paddr: int) -> int {
    paddr / 4096 * 1024
}

pub fn encode_ppn(paddr: usize) -> (entry: u64)
    ensures
        entry == ppn(paddr as int),
{
    let address: u64 = paddr as u64;
    address / 4096 * 1024
}

/// The address in a table entry.
pub open spec fn paddr_of(entry: u64) -> u64 {
    (entry as int / 1024 % 0x1000_0000_0000 * 4096) as u64
}

pub fn decode_pte_paddr(pte: u64) -> (paddr: usize)
    ensures
        paddr == paddr_of(pte) as usize,
{
    let address: u64 = pte / 1024 % 0x1000_0000_0000 * 4096;
    address as usize
}

/// The address of a page comes back from its entry, whatever the low bits hold.
pub proof fn ppn_round_trip(paddr: u64, flags: int)
    requires
        paddr % 4096 == 0,
        paddr < 0x100_0000_0000_0000,
        0 <= flags < 1024,
    ensures
        paddr_of((ppn(paddr as int) + flags) as u64) == paddr,
{
}

/// Whether an entry may be read, written or executed through.
pub open spec fn is_leaf(pte: u64) -> bool {
    pte as int / 2 % 8 != 0
}

pub fn pte_is_leaf(pte: u64) -> (leaf: bool)
    ensures
        leaf == is_leaf(pte),
{
    pte / 2 % 8 != 0
}

} // verus!
