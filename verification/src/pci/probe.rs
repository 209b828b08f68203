//! Sizes and addresses of base address registers.

use vstd::prelude::*;
use crate::pci::bar;
use crate::pci::bar::{
    PciBarAddressWidth, PciBarAllocation, PciBarKind, probed_20bit_memory_bar_size,
};
use crate::pci::config_port;
use crate::pci::config_port::{ConfigAccess, ConfigExchange, ConfigPort, ConfigReply, PciBdf};

verus! {

pub const PCI_BAR0_OFFSET: u16 = 0x10;

pub const PCI_BAR_STRIDE: u16 = 4;

pub const PCI_BAR_PROBE_VALUE: u32 = 0xffff_ffff;

/// A base address register and where it was placed.
#[derive(Clone, Copy, PartialEq, Eq, Structural, Debug)]
pub struct PciBarResource {
    pub index: u16,
    pub kind: PciBarKind,
    pub width: PciBarAddressWidth,
    pub size: u64,
    pub original_low: u32,
    pub original_high: Option<u32>,
    pub original_address: u64,
    pub allocation: Option<PciBarAllocation>,
}

/// Offset of a base address register.
pub open spec fn bar_offset(index: u16) -> int {
    0x10 + index * 4
}

/// Size and address of an I/O register by what it reads back after all ones
/// were written; nothing if it is not there. Bits 0 and 1 are not part of the
/// address.
pub open spec fn io_bar_of(size_raw: u32, original: u32) -> Option<(u64, u64)> {
    if size_raw / 4 == 0 {
        None
    } else {
        Some(((0x1_0000_0000 - size_raw / 4 * 4) as u64, (original / 4 * 4) as u64))
    }
}

/// Size and address of an I/O register by what it reads back.
pub fn io_bar_size(size_raw: u32, original: u32) -> (result: Option<(u64, u64)>)
    ensures
        result == io_bar_of(size_raw, original),
        result matches Some(bar) ==> 4 <= bar.0 <= 0x1_0000_0000,
{
    if size_raw / 4 == 0 {
        return None;
    }
    Some((0x1_0000_0000 - (size_raw / 4 * 4) as u64, (original / 4 * 4) as u64))
}

/// Size of a memory register by what its halves read back; zero if it is not
/// there. Bits 0 to 3 are not part of the address.
pub open spec fn memory_size_of(width: PciBarAddressWidth, low: u32, high: u32) -> int {
    match width {
        PciBarAddressWidth::Bits20 => 0x10_0000 - (low % 0x10_0000) / 0x10 * 0x10,
        PciBarAddressWidth::Bits32 => if low / 0x10 == 0 {
            0
        } else {
            0x1_0000_0000 - low / 0x10 * 0x10
        },
        PciBarAddressWidth::Bits64 => if low / 0x10 == 0 && high == 0 {
            0
        } else {
            0x1_0000_0000_0000_0000 - (high * 0x1_0000_0000 + low / 0x10 * 0x10)
        },
    }
}

/// Address that firmware put into a memory register.
pub open spec fn memory_address_of(width: PciBarAddressWidth, low: u32, high: Option<u32>) -> int {
    let upper = match high {
        Some(high) => high * 0x1_0000_0000,
        None => 0,
    };
    if width == PciBarAddressWidth::Bits20 {
        upper + low % 0x10_0000 / 0x10 * 0x10
    } else {
        upper + low / 0x10 * 0x10
    }
}

/// Size of a memory register by what its halves read back.
pub fn memory_bar_size(width: PciBarAddressWidth, low: u32, high: u32) -> (size: u64)
    ensures
        size == memory_size_of(width, low, high),
{
    match width {
        PciBarAddressWidth::Bits20 => probed_20bit_memory_bar_size(low),
        PciBarAddressWidth::Bits32 => if low / 0x10 == 0 {
            0
        } else {
            0x1_0000_0000 - (low / 0x10 * 0x10) as u64
        },
        PciBarAddressWidth::Bits64 => {
            let bits: u64 = high as u64 * 0x1_0000_0000 + (low / 0x10 * 0x10) as u64;
            if bits == 0 {
                0
            } else {
                (u64::MAX - bits) + 1
            }
        },
    }
}

/// Address that firmware put into a memory register.
pub fn memory_bar_address(width: PciBarAddressWidth, low: u32, high: Option<u32>) -> (address: u64)
    ensures
        address == memory_address_of(width, low, high),
{
    let upper: u64 = match high {
        Some(high) => high as u64 * 0x1_0000_0000,
        None => 0,
    };
    if width == PciBarAddressWidth::Bits20 {
        upper + (low % 0x10_0000 / 0x10 * 0x10) as u64
    } else {
        upper + (low / 0x10 * 0x10) as u64
    }
}

/// What probing a register came to.
#[derive(Clone, Copy, PartialEq, Eq, Structural, Debug)]
pub enum BarProbe {
    /// An access failed.
    Failed,
    /// The register is not implemented.
    Absent,
    /// The register asks for `size` bytes and held `address`.
    Found { size: u64, address: u64, high: Option<u32> },
}

/// The accesses of an I/O probe: all ones in, read back, original in again.
pub open spec fn io_probe(
    trace: Seq<ConfigExchange>,
    bdf: PciBdf,
    offset: u16,
    original: u32,
    result: BarProbe,
) -> bool {
    if trace.len() == 1 {
        trace[0] == config_port::cw32(bdf, offset, PCI_BAR_PROBE_VALUE, false) && result
            == BarProbe::Failed
    } else {
        &&& trace.len() == 3
        &&& trace[0] == config_port::cw32(bdf, offset, PCI_BAR_PROBE_VALUE, true)
        &&& trace[1].access == ConfigAccess::Read32(bdf, offset)
        &&& trace[2].access == ConfigAccess::Write32(bdf, offset, original)
        &&& match (trace[1].reply, trace[2].reply) {
            (ConfigReply::Value(raw), ConfigReply::Done) => result == match io_bar_of(
                raw,
                original,
            ) {
                None => BarProbe::Absent,
                Some((size, address)) => BarProbe::Found { size, address, high: None },
            },
            _ => result == BarProbe::Failed,
        }
    }
}

/// Finds out size and address of an I/O register.
pub fn probe_io_bar<F: FnMut(ConfigAccess) -> ConfigReply>(
    port: &mut ConfigPort<F>,
    bdf: PciBdf,
    offset: u16,
    original: u32,
) -> (result: BarProbe)
    requires
        old(port).wf(),
    ensures
        final(port).wf(),
        final(port).performs() == old(port).performs(),
        exists|trace: Seq<ConfigExchange>|
            final(port).log() == old(port).log() + trace && #[trigger] io_probe(
                trace,
                bdf,
                offset,
                original,
                result,
            ),
        result matches BarProbe::Found { size, .. } ==> 4 <= size <= 0x1_0000_0000,
{
    let ghost before = port.log();
    if !port.write32(bdf, offset, PCI_BAR_PROBE_VALUE) {
        proof {
            let trace = seq![config_port::cw32(bdf, offset, PCI_BAR_PROBE_VALUE, false)];
            assert(port.log() =~= before + trace);
            assert(io_probe(trace, bdf, offset, original, BarProbe::Failed));
        }
        return BarProbe::Failed;
    }
    let size_raw = port.read32(bdf, offset);
    let restored = port.write32(bdf, offset, original);
    let result = match size_raw {
        Some(raw) => if restored {
            match io_bar_size(raw, original) {
                None => BarProbe::Absent,
                Some((size, address)) => BarProbe::Found { size, address, high: None },
            }
        } else {
            BarProbe::Failed
        },
        None => BarProbe::Failed,
    };
    proof {
        let trace = seq![
            config_port::cw32(bdf, offset, PCI_BAR_PROBE_VALUE, true),
            config_port::cr32(bdf, offset, size_raw),
            config_port::cw32(bdf, offset, original, restored),
        ];
        assert(port.log() =~= before + trace);
        assert(io_probe(trace, bdf, offset, original, result));
    }
    result
}

/// The result of a memory probe by what its accesses gave back.
pub open spec fn memory_probe_result(
    width: PciBarAddressWidth,
    original_low: u32,
    original_high: Option<u32>,
    low: Option<u32>,
    high: Option<u32>,
    restored: bool,
) -> BarProbe {
    let is_64bit = width == PciBarAddressWidth::Bits64;
    if low is None || (is_64bit && high is None) || !restored {
        BarProbe::Failed
    } else {
        let size = memory_size_of(
            width,
            low->0,
            if is_64bit {
                high->0
            } else {
                0
            },
        );
        if size == 0 {
            BarProbe::Absent
        } else {
            BarProbe::Found {
                size: size as u64,
                address: memory_address_of(width, original_low, original_high) as u64,
                high: original_high,
            }
        }
    }
}

/// Finds out size and address of a memory register. Whatever fails on the way,
/// each half that was overwritten gets its original value again; the accesses
/// are those of [`memory_probe`].
pub fn probe_memory_bar<F: FnMut(ConfigAccess) -> ConfigReply>(
    port: &mut ConfigPort<F>,
    bdf: PciBdf,
    offset: u16,
    original_low: u32,
    width: PciBarAddressWidth,
) -> (result: BarProbe)
    requires
        old(port).wf(),
        offset <= 0xfff0,
    ensures
        final(port).wf(),
        final(port).performs() == old(port).performs(),
        exists|trace: Seq<ConfigExchange>|
            final(port).log() == old(port).log() + trace && #[trigger] memory_probe(
                trace,
                bdf,
                offset,
                original_low,
                width,
                result,
            ),
        result matches BarProbe::Found { size, .. } ==> size >= 0x10,
{
    let ghost before = port.log();
    let is_64bit = width == PciBarAddressWidth::Bits64;
    let high_offset: u16 = offset + PCI_BAR_STRIDE;
    let mut original_high: Option<u32> = None;
    if is_64bit {
        original_high = port.read32(bdf, high_offset);
        if original_high.is_none() {
            proof {
                let trace = seq![config_port::cr32(bdf, high_offset, None)];
                assert(port.log() =~= before + trace);
                assert(memory_probe(trace, bdf, offset, original_low, width, BarProbe::Failed));
            }
            return BarProbe::Failed;
        }
    }
    let ghost head = if is_64bit {
        seq![config_port::cr32(bdf, high_offset, original_high)]
    } else {
        Seq::empty()
    };
    assert(port.log() =~= before + head);
    if !port.write32(bdf, offset, PCI_BAR_PROBE_VALUE) {
        proof {
            let trace = head.push(config_port::cw32(bdf, offset, PCI_BAR_PROBE_VALUE, false));
            assert(port.log() =~= before + trace);
            assert(memory_probe(trace, bdf, offset, original_low, width, BarProbe::Failed));
        }
        return BarProbe::Failed;
    }
    if is_64bit {
        if !port.write32(bdf, high_offset, PCI_BAR_PROBE_VALUE) {
            let undone = port.write32(bdf, offset, original_low);
            proof {
                let trace = head.push(
                    config_port::cw32(bdf, offset, PCI_BAR_PROBE_VALUE, true),
                ).push(config_port::cw32(bdf, high_offset, PCI_BAR_PROBE_VALUE, false)).push(
                    config_port::cw32(bdf, offset, original_low, undone),
                );
                assert(port.log() =~= before + trace);
                assert(memory_probe(trace, bdf, offset, original_low, width, BarProbe::Failed));
            }
            return BarProbe::Failed;
        }
        let low = port.read32(bdf, offset);
        let high = port.read32(bdf, high_offset);
        let restored_low = port.write32(bdf, offset, original_low);
        let high_value: u32 = original_high.unwrap();
        let restored_high = port.write32(bdf, high_offset, high_value);
        let result = evaluate_memory_probe(
            width,
            original_low,
            original_high,
            low,
            high,
            restored_low && restored_high,
        );
        proof {
            let trace = seq![
                config_port::cr32(bdf, high_offset, original_high),
                config_port::cw32(bdf, offset, PCI_BAR_PROBE_VALUE, true),
                config_port::cw32(bdf, high_offset, PCI_BAR_PROBE_VALUE, true),
                config_port::cr32(bdf, offset, low),
                config_port::cr32(bdf, high_offset, high),
                config_port::cw32(bdf, offset, original_low, restored_low),
                config_port::cw32(bdf, high_offset, high_value, restored_high),
            ];
            assert(port.log() =~= before + trace);
            assert(memory_probe(trace, bdf, offset, original_low, width, result));
        }
        return result;
    }
    let low = port.read32(bdf, offset);
    let restored = port.write32(bdf, offset, original_low);
    let result = evaluate_memory_probe(width, original_low, None, low, None, restored);
    proof {
        let trace = seq![
            config_port::cw32(bdf, offset, PCI_BAR_PROBE_VALUE, true),
            config_port::cr32(bdf, offset, low),
            config_port::cw32(bdf, offset, original_low, restored),
        ];
        assert(port.log() =~= before + trace);
        assert(memory_probe(trace, bdf, offset, original_low, width, result));
    }
    result
}

/// The value of a reply to a read.
pub open spec fn reply_value(reply: ConfigReply) -> Option<u32> {
    match reply {
        ConfigReply::Value(value) => Some(value),
        _ => None,
    }
}

/// The accesses of a memory probe and its result.
pub open spec fn memory_probe(
    trace: Seq<ConfigExchange>,
    bdf: PciBdf,
    offset: u16,
    original_low: u32,
    width: PciBarAddressWidth,
    result: BarProbe,
) -> bool {
    let high_offset = (offset + 4) as u16;
    if width == PciBarAddressWidth::Bits64 {
        let original_high = reply_value(trace[0].reply);
        &&& trace.len() >= 1
        &&& trace[0].access == ConfigAccess::Read32(bdf, high_offset)
        &&& if trace.len() == 1 {
            trace[0].reply == ConfigReply::Failed && result == BarProbe::Failed
        } else if trace.len() == 2 {
            trace[1] == config_port::cw32(bdf, offset, PCI_BAR_PROBE_VALUE, false) && result
                == BarProbe::Failed
        } else if trace.len() == 4 {
            &&& trace[1] == config_port::cw32(bdf, offset, PCI_BAR_PROBE_VALUE, true)
            &&& trace[2] == config_port::cw32(bdf, high_offset, PCI_BAR_PROBE_VALUE, false)
            &&& trace[3].access == ConfigAccess::Write32(bdf, offset, original_low)
            &&& result == BarProbe::Failed
        } else {
            &&& trace.len() == 7
            &&& original_high is Some
            &&& trace[1] == config_port::cw32(bdf, offset, PCI_BAR_PROBE_VALUE, true)
            &&& trace[2] == config_port::cw32(bdf, high_offset, PCI_BAR_PROBE_VALUE, true)
            &&& trace[3].access == ConfigAccess::Read32(bdf, offset)
            &&& trace[4].access == ConfigAccess::Read32(bdf, high_offset)
            &&& trace[5].access == ConfigAccess::Write32(bdf, offset, original_low)
            &&& trace[6].access == ConfigAccess::Write32(bdf, high_offset, original_high->0)
            &&& result == memory_probe_result(
                width,
                original_low,
                original_high,
                reply_value(trace[3].reply),
                reply_value(trace[4].reply),
                trace[5].reply == ConfigReply::Done && trace[6].reply == ConfigReply::Done,
            )
        }
    } else if trace.len() == 1 {
        trace[0] == config_port::cw32(bdf, offset, PCI_BAR_PROBE_VALUE, false) && result
            == BarProbe::Failed
    } else {
        &&& trace.len() == 3
        &&& trace[0] == config_port::cw32(bdf, offset, PCI_BAR_PROBE_VALUE, true)
        &&& trace[1].access == ConfigAccess::Read32(bdf, offset)
        &&& trace[2].access == ConfigAccess::Write32(bdf, offset, original_low)
        &&& result == memory_probe_result(
            width,
            original_low,
            None,
            reply_value(trace[1].reply),
            None,
            trace[2].reply == ConfigReply::Done,
        )
    }
}

fn evaluate_memory_probe(
    width: PciBarAddressWidth,
    original_low: u32,
    original_high: Option<u32>,
    low: Option<u32>,
    high: Option<u32>,
    restored: bool,
) -> (result: BarProbe)
    ensures
        result == memory_probe_result(width, original_low, original_high, low, high, restored),
        result matches BarProbe::Found { size, .. } ==> size >= 0x10,
{
    let is_64bit = width == PciBarAddressWidth::Bits64;
    let low_value: u32 = match low {
        Some(value) => value,
        None => {
            return BarProbe::Failed;
        },
    };
    let high_value: u32 = if is_64bit {
        match high {
            Some(value) => value,
            None => {
                return BarProbe::Failed;
            },
        }
    } else {
        0
    };
    if !restored {
        return BarProbe::Failed;
    }
    let size: u64 = memory_bar_size(width, low_value, high_value);
    if size == 0 {
        return BarProbe::Absent;
    }
    BarProbe::Found {
        size,
        address: memory_bar_address(width, original_low, original_high),
        high: original_high,
    }
}

/// In every memory probe the last write to a half that was overwritten puts its
/// original value back.
pub proof fn memory_probe_restores(
    trace: Seq<ConfigExchange>,
    bdf: PciBdf,
    offset: u16,
    original_low: u32,
    width: PciBarAddressWidth,
    result: BarProbe,
    at: int,
)
    requires
        memory_probe(trace, bdf, offset, original_low, width, result),
        0 <= at < trace.len(),
        trace[at] == config_port::cw32(bdf, offset, PCI_BAR_PROBE_VALUE, true),
        offset <= 0xfff0,
    ensures
        exists|last: int|
            at <= last < trace.len() && (#[trigger] trace[last]).access == ConfigAccess::Write32(
                bdf,
                offset,
                original_low,
            ) && (forall|k: int|
                last < k < trace.len() ==> !writes_register(#[trigger] trace[k], bdf, offset)),
{
    if width == PciBarAddressWidth::Bits64 {
        if trace.len() == 4 {
            assert(trace[3].access == ConfigAccess::Write32(bdf, offset, original_low));
        } else if trace.len() == 7 {
            assert(trace[5].access == ConfigAccess::Write32(bdf, offset, original_low));
        }
    } else if trace.len() == 3 {
        assert(trace[2].access == ConfigAccess::Write32(bdf, offset, original_low));
    }
}

/// Whether an access writes the register.
pub open spec fn writes_register(exchange: ConfigExchange, bdf: PciBdf, offset: u16) -> bool {
    exchange.access matches ConfigAccess::Write32(b, o, _) && b == bdf && o == offset
}

/// The low half that places a register at `address`: the address bits that the
/// register has, and its type bits unchanged.
pub open spec fn low_value_of(bar: PciBarResource, address: u64) -> u32 {
    match bar.kind {
        PciBarKind::Io => (address % 0x1_0000_0000 / 4 * 4 + bar.original_low % 4) as u32,
        PciBarKind::Memory { .. } => if bar.width == PciBarAddressWidth::Bits20 {
            (address % 0x10_0000 / 0x10 * 0x10 + bar.original_low % 0x10) as u32
        } else {
            (address % 0x1_0000_0000 / 0x10 * 0x10 + bar.original_low % 0x10) as u32
        },
    }
}

/// The low half that places a register at `address`.
pub fn bar_low_value(bar: &PciBarResource, address: u64) -> (low: u32)
    ensures
        low == low_value_of(*bar, address),
{
    match bar.kind {
        PciBarKind::Io => (address % 0x1_0000_0000 / 4 * 4) as u32 + bar.original_low % 4,
        PciBarKind::Memory { .. } => if bar.width == PciBarAddressWidth::Bits20 {
            (address % 0x10_0000 / 0x10 * 0x10) as u32 + bar.original_low % 0x10
        } else {
            (address % 0x1_0000_0000 / 0x10 * 0x10) as u32 + bar.original_low % 0x10
        },
    }
}

/// The writes of a transaction on both halves of a register: the low half, the
/// high half, and where the high half fails, both original values again.
pub open spec fn pair_write(
    writes: Seq<(bool, u32, bool)>,
    original_low: u32,
    original_high: u32,
    new_low: u32,
    new_high: u32,
    ok: bool,
) -> bool {
    if writes.len() == 1 {
        writes[0] == (false, new_low, false) && !ok
    } else if writes.len() == 2 {
        writes[0] == (false, new_low, true) && writes[1] == (true, new_high, true) && ok
    } else {
        &&& writes.len() == 4
        &&& writes[0] == (false, new_low, true)
        &&& writes[1] == (true, new_high, false)
        &&& writes[2].0 == false && writes[2].1 == original_low
        &&& writes[3].0 == true && writes[3].1 == original_high
        &&& !ok
    }
}

/// Writes both halves of a register, or puts both original values back.
pub fn write_bar_u64_transactional<F: FnMut(ConfigAccess) -> ConfigReply>(
    port: &mut ConfigPort<F>,
    bdf: PciBdf,
    offset: u16,
    original_low: u32,
    original_high: u32,
    new_low: u32,
    new_high: u32,
) -> (ok: bool)
    requires
        old(port).wf(),
        offset <= 0xfff0,
    ensures
        final(port).wf(),
        final(port).performs() == old(port).performs(),
        exists|writes: Seq<(bool, u32, bool)>| #[trigger]
            pair_write(writes, original_low, original_high, new_low, new_high, ok) && final(port).log() == old(port).log() + writes.map_values(
                |write: (bool, u32, bool)| half_write(bdf, offset, write),
            ),
{
    let ghost before = port.log();
    let ghost f = |write: (bool, u32, bool)| half_write(bdf, offset, write);
    if !port.write32(bdf, offset, new_low) {
        proof {
            let writes = seq![(false, new_low, false)];
            assert(port.log() =~= before + writes.map_values(f));
            assert(pair_write(writes, original_low, original_high, new_low, new_high, false));
        }
        return false;
    }
    if !port.write32(bdf, offset + PCI_BAR_STRIDE, new_high) {
        let undone_low = port.write32(bdf, offset, original_low);
        let undone_high = port.write32(bdf, offset + PCI_BAR_STRIDE, original_high);
        proof {
            let writes = seq![
                (false, new_low, true),
                (true, new_high, false),
                (false, original_low, undone_low),
                (true, original_high, undone_high),
            ];
            assert(port.log() =~= before + writes.map_values(f));
            assert(pair_write(writes, original_low, original_high, new_low, new_high, false));
        }
        return false;
    }
    proof {
        let writes = seq![(false, new_low, true), (true, new_high, true)];
        assert(port.log() =~= before + writes.map_values(f));
        assert(pair_write(writes, original_low, original_high, new_low, new_high, true));
    }
    true
}

/// The access of one half of a register.
pub open spec fn half_write(bdf: PciBdf, offset: u16, write: (bool, u32, bool)) -> ConfigExchange {
    config_port::cw32(
        bdf,
        if write.0 {
            (offset + 4) as u16
        } else {
            offset
        },
        write.1,
        write.2,
    )
}

/// The accesses that place a register at `address`.
pub open spec fn placing(
    trace: Seq<ConfigExchange>,
    bdf: PciBdf,
    bar: PciBarResource,
    address: u64,
    ok: bool,
) -> bool {
    let offset = bar_offset(bar.index) as u16;
    match bar.original_high {
        Some(high) => exists|writes: Seq<(bool, u32, bool)>| #[trigger]
            pair_write(
                writes,
                bar.original_low,
                high,
                low_value_of(bar, address),
                (address / 0x1_0000_0000) as u32,
                ok,
            ) && trace == writes.map_values(
                |write: (bool, u32, bool)| half_write(bdf, offset, write),
            ),
        None => trace == seq![config_port::cw32(bdf, offset, low_value_of(bar, address), ok)],
    }
}

/// Writes `address` into a register.
pub fn write_bar_address<F: FnMut(ConfigAccess) -> ConfigReply>(
    port: &mut ConfigPort<F>,
    bdf: PciBdf,
    bar: &PciBarResource,
    address: u64,
) -> (ok: bool)
    requires
        old(port).wf(),
        bar.index < 256,
    ensures
        final(port).wf(),
        final(port).performs() == old(port).performs(),
        exists|trace: Seq<ConfigExchange>|
            final(port).log() == old(port).log() + trace && #[trigger] placing(
                trace,
                bdf,
                *bar,
                address,
                ok,
            ),
{
    let ghost before = port.log();
    let offset: u16 = PCI_BAR0_OFFSET + bar.index * PCI_BAR_STRIDE;
    let low: u32 = bar_low_value(bar, address);
    match bar.original_high {
        Some(original_high) => {
            let high: u32 = (address / 0x1_0000_0000) as u32;
            let ok = write_bar_u64_transactional(
                port,
                bdf,
                offset,
                bar.original_low,
                original_high,
                low,
                high,
            );
            proof {
                let writes = choose|writes: Seq<(bool, u32, bool)>| #[trigger]
                    pair_write(writes, bar.original_low, original_high, low, high, ok)
                        && port.log() == before + writes.map_values(
                        |write: (bool, u32, bool)| half_write(bdf, offset, write),
                    );
                let trace = writes.map_values(
                    |write: (bool, u32, bool)| half_write(bdf, offset, write),
                );
                assert(placing(trace, bdf, *bar, address, ok));
            }
            ok
        },
        None => {
            let ok = port.write32(bdf, offset, low);
            proof {
                let trace = seq![config_port::cw32(bdf, offset, low, ok)];
                assert(port.log() =~= before + trace);
                assert(placing(trace, bdf, *bar, address, ok));
            }
            ok
        },
    }
}

/// What was written last to a register of a function, if anything was.
pub open spec fn last_written(
    trace: Seq<ConfigExchange>,
    bdf: PciBdf,
    offset: int,
) -> Option<u32>
    decreases trace.len(),
{
    if trace.len() == 0 {
        None
    } else {
        match trace.last().access {
            ConfigAccess::Write32(b, o, value) if b == bdf && o == offset => Some(value),
            _ => last_written(trace.drop_last(), bdf, offset),
        }
    }
}

/// The address that a function decodes with these halves of a memory register: the
/// lowest four bits of the low half say what the register is.
pub open spec fn decoded_address(low: u32, high: Option<u32>) -> int {
    low as int - low as int % 16 + match high {
        Some(high) => high * 0x1_0000_0000,
        None => 0,
    }
}

proof fn lemma_last_of_one(exchange: ConfigExchange, bdf: PciBdf, offset: int)
    ensures
        last_written(seq![exchange], bdf, offset) == (match exchange.access {
            ConfigAccess::Write32(b, o, value) if b == bdf && o == offset => Some(value),
            _ => None,
        }),
{
    let trace = seq![exchange];
    assert(trace.last() == exchange);
    assert(trace.drop_last() =~= Seq::empty());
    reveal_with_fuel(last_written, 2);
}

proof fn lemma_last_of_two(
    first: ConfigExchange,
    second: ConfigExchange,
    bdf: PciBdf,
    offset: int,
)
    ensures
        last_written(seq![first, second], bdf, offset) == (match second.access {
            ConfigAccess::Write32(b, o, value) if b == bdf && o == offset => Some(value),
            _ => last_written(seq![first], bdf, offset),
        }),
{
    let trace = seq![first, second];
    assert(trace.last() == second);
    assert(trace.drop_last() =~= seq![first]);
}

/// A memory register that was placed decodes the address that it was placed at, for
/// every address that it can hold, and stays what it was.
pub proof fn placed_register_decodes_its_address(
    trace: Seq<ConfigExchange>,
    bdf: PciBdf,
    bar: PciBarResource,
    address: u64,
)
    requires
        placing(trace, bdf, bar, address, true),
        bar.kind is Memory,
        bar.index < 256,
        address % 16 == 0,
        bar.original_high is None ==> address < 0x1_0000_0000,
        bar.width == PciBarAddressWidth::Bits20 ==> address < 0x10_0000,
    ensures
        ({
            let low = last_written(trace, bdf, 0x10 + 4 * bar.index);
            let high = last_written(trace, bdf, 0x14 + 4 * bar.index);
            &&& low is Some
            &&& (high is Some) == (bar.original_high is Some)
            &&& decoded_address(low->0, high) == address
            &&& low->0 % 16 == bar.original_low % 16
        }),
        forall|i: int| 0 <= i < trace.len() ==> (#[trigger] trace[i]).reply == ConfigReply::Done,
{
    let offset = bar_offset(bar.index) as u16;
    let low = 0x10 + 4 * bar.index;
    let high = 0x14 + 4 * bar.index;
    match bar.original_high {
        Some(original) => {
            let f = |write: (bool, u32, bool)| half_write(bdf, offset, write);
            let writes = choose|writes: Seq<(bool, u32, bool)>| #[trigger]
                pair_write(
                    writes,
                    bar.original_low,
                    original,
                    low_value_of(bar, address),
                    (address / 0x1_0000_0000) as u32,
                    true,
                ) && trace == writes.map_values(f);
            assert(trace =~= seq![trace[0], trace[1]]);
            lemma_last_of_two(trace[0], trace[1], bdf, low);
            lemma_last_of_two(trace[0], trace[1], bdf, high);
            lemma_last_of_one(trace[0], bdf, low);
        },
        None => {
            assert(trace =~= seq![trace[0]]);
            lemma_last_of_one(trace[0], bdf, low);
            lemma_last_of_one(trace[0], bdf, high);
        },
    }
}

/// An I/O register that was placed decodes the address that it was placed at, and
/// stays what it was.
pub proof fn placed_io_register_decodes_its_address(
    trace: Seq<ConfigExchange>,
    bdf: PciBdf,
    bar: PciBarResource,
    address: u64,
)
    requires
        placing(trace, bdf, bar, address, true),
        bar.kind == PciBarKind::Io,
        bar.original_high is None,
        bar.index < 256,
        address % 4 == 0,
        address < 0x1_0000_0000,
    ensures
        last_written(trace, bdf, 0x10 + 4 * bar.index) == Some(
            (address + bar.original_low % 4) as u32,
        ),
        forall|offset: int|
            offset != 0x10 + 4 * bar.index ==> #[trigger] last_written(trace, bdf, offset) is None,
{
    assert(trace =~= seq![trace[0]]);
    lemma_last_of_one(trace[0], bdf, 0x10 + 4 * bar.index);
    assert forall|offset: int| offset != 0x10 + 4 * bar.index implies #[trigger] last_written(
        trace,
        bdf,
        offset,
    ) is None by {
        lemma_last_of_one(trace[0], bdf, offset);
    }
}

/// A register that could not be placed is left as it was: its one write was refused, or
/// what was written last to each half is what the half held before.
pub proof fn failed_placement_leaves_the_register(
    trace: Seq<ConfigExchange>,
    bdf: PciBdf,
    bar: PciBarResource,
    address: u64,
)
    requires
        placing(trace, bdf, bar, address, false),
        bar.index < 256,
    ensures
        (trace.len() == 1 && trace[0].reply == ConfigReply::Failed) || (last_written(
            trace,
            bdf,
            0x10 + 4 * bar.index,
        ) == Some(bar.original_low) && last_written(trace, bdf, 0x14 + 4 * bar.index)
            == bar.original_high && bar.original_high is Some),
{
    let offset = bar_offset(bar.index) as u16;
    let low = 0x10 + 4 * bar.index;
    let high = 0x14 + 4 * bar.index;
    if let Some(original) = bar.original_high {
        let f = |write: (bool, u32, bool)| half_write(bdf, offset, write);
        let writes = choose|writes: Seq<(bool, u32, bool)>| #[trigger]
            pair_write(
                writes,
                bar.original_low,
                original,
                low_value_of(bar, address),
                (address / 0x1_0000_0000) as u32,
                false,
            ) && trace == writes.map_values(f);
        if trace.len() == 4 {
            assert(trace.last() == trace[3]);
            let three = trace.drop_last();
            assert(three.last() == trace[2]);
            reveal_with_fuel(last_written, 3);
        }
    }
}

/// A register of `size` bytes is found with that size and the address that it held. A
/// register whose address bits begin at its size reads back all ones from there on;
/// `kind` stands for the bits below.
pub proof fn probe_finds_the_size(
    trace: Seq<ConfigExchange>,
    bdf: PciBdf,
    offset: u16,
    original_low: u32,
    width: PciBarAddressWidth,
    result: BarProbe,
    size: int,
    kind: int,
)
    requires
        memory_probe(trace, bdf, offset, original_low, width, result),
        offset <= 0xfff0,
        result != BarProbe::Failed,
        width != PciBarAddressWidth::Bits20,
        16 <= size,
        size % 16 == 0,
        0 <= kind < 16,
        width == PciBarAddressWidth::Bits32 ==> size < 0x1_0000_0000,
        size < 0x1_0000_0000_0000_0000,
        forall|i: int|
            1 <= i < trace.len() && (#[trigger] trace[i]).access == ConfigAccess::Read32(bdf, offset)
                ==> trace[i].reply == ConfigReply::Value(
                ((0x1_0000_0000_0000_0000 - size) % 0x1_0000_0000 + kind) as u32,
            ),
        forall|i: int|
            1 <= i < trace.len() && (#[trigger] trace[i]).access == ConfigAccess::Read32(
                bdf,
                (offset + 4) as u16,
            ) ==> trace[i].reply == ConfigReply::Value(
                ((0x1_0000_0000_0000_0000 - size) / 0x1_0000_0000) as u32,
            ),
    ensures
        result matches BarProbe::Found { size: found, address, high } && found == size && address
            == decoded_address(original_low, high) && (high is Some) == (width
            == PciBarAddressWidth::Bits64) && (high is Some ==> trace[0] == config_port::cr32(
            bdf,
            (offset + 4) as u16,
            high,
        )),
        forall|i: int|
            1 <= i < trace.len() && (#[trigger] trace[i]).access == ConfigAccess::Read32(bdf, offset)
                ==> last_written(trace.take(i), bdf, offset as int) == Some(0xffff_ffffu32),
        last_written(trace, bdf, offset as int) == Some(original_low),
{
    let high_offset = (offset + 4) as u16;
    reveal_with_fuel(last_written, 5);
    if width == PciBarAddressWidth::Bits64 {
        assert(trace.len() == 7);
        let low = (((0x1_0000_0000_0000_0000 - size) % 0x1_0000_0000) + kind) as u32;
        let high = ((0x1_0000_0000_0000_0000 - size) / 0x1_0000_0000) as u32;
        assert((0x1_0000_0000_0000_0000 - size) % 16 == 0);
        assert((0x1_0000_0000_0000_0000 - size) % 0x1_0000_0000 % 16 == 0);
        assert(low / 16 * 16 == (0x1_0000_0000_0000_0000 - size) % 0x1_0000_0000);
        assert(trace[3].reply == ConfigReply::Value(low));
        assert(trace[4].reply == ConfigReply::Value(high));
        let before = trace.take(3);
        assert(before.last() == trace[2]);
        assert(before.drop_last().last() == trace[1]);
        assert(last_written(before, bdf, offset as int) == Some(0xffff_ffffu32));
        assert(trace.last() == trace[6]);
        assert(trace.drop_last().last() == trace[5]);
    } else {
        assert(trace.len() == 3);
        let low = (((0x1_0000_0000_0000_0000 - size) % 0x1_0000_0000) + kind) as u32;
        assert((0x1_0000_0000_0000_0000 - size) % 0x1_0000_0000 == 0x1_0000_0000 - size);
        assert(low / 16 * 16 == 0x1_0000_0000 - size);
        assert(trace[1].reply == ConfigReply::Value(low));
        assert(trace.take(1).last() == trace[0]);
        assert(trace.last() == trace[2]);
    }
}

} // verus!
