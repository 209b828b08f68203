//! Where interrupt files and registers are.

use vstd::prelude::*;
use crate::aia::config;
use crate::aia::config::{AiaConfigError, validate_aplic_hart_indexes};

verus! {

pub const APLIC_DOMAINCFG: usize = 0x0000;

pub const APLIC_SOURCECFG_BASE: usize = 0x0004;

pub const APLIC_SETIPNUM_LE: usize = 0x2000;

pub const APLIC_SETIENUM: usize = 0x1edc;

pub const APLIC_CLRIENUM: usize = 0x1fdc;

pub const APLIC_TARGET_BASE: usize = 0x3004;

pub const APLIC_IDC_BASE: usize = 0x4000;

pub const APLIC_IDC_SIZE: usize = 0x20;

pub const APLIC_IDC_IDELIVERY: usize = 0x00;

pub const APLIC_IDC_ITHRESHOLD: usize = 0x08;

pub const APLIC_IDC_CLAIMI: usize = 0x1c;

pub const APLIC_DOMAINCFG_IE: u32 = 0x100;

pub const APLIC_DOMAINCFG_DM: u32 = 0x4;

/// Place of the CPU number in a target register.
pub const APLIC_TARGET_HART_SHIFT: u32 = 18;

/// Registers of a device.
#[derive(Clone, Copy, Debug, PartialEq, Eq, Structural)]
pub struct MmioRange {
    pub phys: u64,
    pub size: u64,
}

/// How the address of an interrupt file is made up: from the page up, the guest
/// number, then the CPU number; the group number has a place of its own.
#[derive(Clone, Copy, Debug, PartialEq, Eq, Structural)]
pub struct ImsicAddressScheme {
    pub guest_index_bits: u8,
    pub hart_index_bits: u8,
    pub group_index_bits: u8,
    pub group_index_shift: u8,
    pub base_addr: u64,
}

/// A number with its lowest bits set.
pub open spec fn low_mask(bits: int) -> u64 {
    if bits == 0 {
        0
    } else {
        ((1u64 << (bits as u64)) - 1) as u64
    }
}

fn checked_mask(bits: u8) -> (result: Option<u64>)
    ensures
        result == (if bits <= 63 {
            Some(low_mask(bits as int))
        } else {
            None
        }),
{
    if bits == 0 {
        return Some(0);
    }
    if bits > 63 {
        return None;
    }
    let shift: u64 = bits as u64;
    assert(1u64 << shift >= 1) by (bit_vector)
        requires
            shift < 64,
    ;
    Some((1u64 << shift) - 1)
}

impl ImsicAddressScheme {
    /// Number of bits below the CPU number's end.
    pub open spec fn low_bits(self) -> int {
        12 + self.guest_index_bits + self.hart_index_bits
    }

    /// Whether the fields can be told apart from an address at all.
    pub open spec fn readable(self) -> bool {
        self.low_bits() <= 63 && self.group_index_bits <= 63 && self.group_index_shift <= 63
    }

    /// What is left of an address without its numbers.
    pub open spec fn base_of(self, address: u64) -> u64 {
        let group = low_mask(self.group_index_bits as int) << (self.group_index_shift as u64);
        address & !low_mask(self.low_bits()) & !group
    }

    pub fn normalized_base(self, address: u64) -> (result: Option<u64>)
        ensures
            result == (if self.readable() {
                Some(self.base_of(address))
            } else {
                None
            }),
    {
        let low_bits: u8 = match 12u8.checked_add(self.guest_index_bits) {
            Some(bits) => match bits.checked_add(self.hart_index_bits) {
                Some(bits) => bits,
                None => {
                    return None;
                },
            },
            None => {
                return None;
            },
        };
        let low: u64 = match checked_mask(low_bits) {
            Some(low) => low,
            None => {
                return None;
            },
        };
        let group: u64 = match checked_mask(self.group_index_bits) {
            Some(group) => group,
            None => {
                return None;
            },
        };
        if self.group_index_shift >= 64 {
            return None;
        }
        let group_mask: u64 = group << (self.group_index_shift as u64);
        Some(address & !low & !group_mask)
    }

    /// The guest number of a file.
    pub open spec fn guest_of(self, address: u64) -> u64 {
        (address >> 12u64) & low_mask(self.guest_index_bits as int)
    }

    /// The CPU number of a file, with the group number above it.
    pub open spec fn hart_of(self, address: u64) -> u64 {
        let low = ((address >> 12u64) >> (self.guest_index_bits as u64)) & low_mask(
            self.hart_index_bits as int,
        );
        let group = (address >> (self.group_index_shift as u64)) & low_mask(
            self.group_index_bits as int,
        );
        low | (group << (self.hart_index_bits as u64))
    }

    /// Whether an address can be a file of the scheme.
    pub open spec fn holds(self, address: u64) -> bool {
        address % config::IMSIC_PAGE_SIZE == 0 && self.readable() && self.base_of(address)
            == self.base_addr
    }

    /// Guest and CPU number of a file.
    pub fn interrupt_file_key(self, address: u64) -> (result: Option<(u64, u64)>)
        ensures
            result == (if self.holds(address) {
                Some((self.guest_of(address), self.hart_of(address)))
            } else {
                None
            }),
    {
        if address % config::IMSIC_PAGE_SIZE != 0 {
            return None;
        }
        match self.normalized_base(address) {
            Some(base) => if base != self.base_addr {
                return None;
            },
            None => {
                return None;
            },
        }
        let ppn: u64 = address >> 12u64;
        let guest_mask: u64 = match checked_mask(self.guest_index_bits) {
            Some(mask) => mask,
            None => {
                return None;
            },
        };
        let hart_mask: u64 = match checked_mask(self.hart_index_bits) {
            Some(mask) => mask,
            None => {
                return None;
            },
        };
        let group_mask: u64 = match checked_mask(self.group_index_bits) {
            Some(mask) => mask,
            None => {
                return None;
            },
        };
        let guest: u64 = ppn & guest_mask;
        let low_hart: u64 = (ppn >> (self.guest_index_bits as u64)) & hart_mask;
        let group: u64 = (address >> (self.group_index_shift as u64)) & group_mask;
        Some((guest, low_hart | (group << (self.hart_index_bits as u64))))
    }

    /// Whether target registers can name a file and an identity.
    pub open spec fn can_target(self, address: u64, eiid: u32) -> bool {
        &&& self.guest_index_bits <= 7
        &&& self.hart_index_bits <= 15
        &&& self.group_index_bits <= 7
        &&& 24 <= self.group_index_shift <= 55
        &&& 1 <= eiid <= 0x7ff
        &&& self.holds(address)
        &&& self.guest_of(address) <= 0x3f
        &&& self.hart_of(address) <= 0x3fff
    }

    /// The target register for a file and an identity: CPU number, guest number
    /// and identity, from the top down.
    pub fn encode_aplic_target(self, address: u64, eiid: u32) -> (result: Option<u32>)
        ensures
            result == (if self.can_target(address, eiid) {
                Some(
                    (self.hart_of(address) * 0x4_0000 + self.guest_of(address) * 0x1000
                        + eiid) as u32,
                )
            } else {
                None
            }),
    {
        if self.guest_index_bits > 7 || self.hart_index_bits > 15 || self.group_index_bits > 7
            || self.group_index_shift < 24 || self.group_index_shift > 55 || eiid == 0 || eiid
            > 0x7ff {
            return None;
        }
        match self.interrupt_file_key(address) {
            Some((guest, hart)) => {
                if guest > 0x3f || hart > 0x3fff {
                    return None;
                }
                Some(hart as u32 * 0x4_0000 + guest as u32 * 0x1000 + eiid)
            },
            None => None,
        }
    }
}

/// Two interrupts have the same target register only if they go to the same CPU,
/// guest and identity.
pub proof fn targets_are_distinct(
    scheme: ImsicAddressScheme,
    address: u64,
    eiid: u32,
    other: u64,
    other_eiid: u32,
)
    requires
        scheme.can_target(address, eiid),
        scheme.can_target(other, other_eiid),
        scheme.hart_of(address) * 0x4_0000 + scheme.guest_of(address) * 0x1000 + eiid
            == scheme.hart_of(other) * 0x4_0000 + scheme.guest_of(other) * 0x1000 + other_eiid,
    ensures
        scheme.hart_of(address) == scheme.hart_of(other),
        scheme.guest_of(address) == scheme.guest_of(other),
        eiid == other_eiid,
{
}

/// The interrupt files of a controller.
#[derive(Debug, PartialEq, Eq)]
pub struct ImsicLayout {
    pub scheme: ImsicAddressScheme,
    pub interrupt_files: Vec<u64>,
}

/// Number of bits that a number takes.
pub open spec fn bit_length(value: nat) -> nat
    decreases value,
{
    if value == 0 {
        0
    } else {
        1 + bit_length(value / 2)
    }
}

/// The number of bits that tell `contexts` CPUs apart.
pub fn default_hart_index_bits(contexts: usize) -> (bits: u8)
    requires
        contexts > 0,
    ensures
        bits == bit_length((contexts - 1) as nat),
        bits <= 64,
{
    let mut rest: usize = contexts - 1;
    let mut bits: u8 = 0;
    proof {
        lemma_bit_length_bound((contexts - 1) as nat);
    }
    while rest > 0
        invariant
            bits + bit_length(rest as nat) == bit_length((contexts - 1) as nat),
            bit_length((contexts - 1) as nat) <= 64,
        decreases rest,
    {
        rest = rest / 2;
        bits += 1;
    }
    bits
}

proof fn lemma_bit_length_bound(value: nat)
    requires
        value <= u64::MAX,
    ensures
        bit_length(value) <= 64,
{
    vstd::arithmetic::power2::lemma2_to64();
    vstd::arithmetic::power2::lemma2_to64_rest();
    lemma_bit_length_power(value, 64);
}

proof fn lemma_bit_length_power(value: nat, bits: nat)
    requires
        value < vstd::arithmetic::power2::pow2(bits),
    ensures
        bit_length(value) <= bits,
    decreases bits,
{
    if value > 0 {
        if bits == 0 {
            vstd::arithmetic::power2::lemma2_to64();
        } else {
            vstd::arithmetic::power2::lemma_pow2_unfold(bits);
            lemma_bit_length_power(value / 2, (bits - 1) as nat);
        }
    }
}

/// Where a file is that lies `relative` bytes behind the start of the ranges from
/// `from` on. Every range counts as a whole number of spans; a file must lie in
/// its range with a whole page.
pub open spec fn file_at(ranges: Seq<MmioRange>, span: u64, relative: int, from: int) -> Result<
    u64,
    AiaConfigError,
>
    decreases ranges.len() - from,
{
    if from >= ranges.len() {
        Err(AiaConfigError::MmioWindowTooSmall)
    } else {
        let range = ranges[from];
        if relative < range.size {
            if relative + config::IMSIC_PAGE_SIZE > u64::MAX {
                Err(AiaConfigError::AddressOverflow)
            } else if relative + config::IMSIC_PAGE_SIZE > range.size {
                Err(AiaConfigError::MmioWindowTooSmall)
            } else if range.phys + relative > u64::MAX {
                Err(AiaConfigError::AddressOverflow)
            } else {
                Ok((range.phys + relative) as u64)
            }
        } else if range.size + (span - 1) > u64::MAX {
            Err(AiaConfigError::AddressOverflow)
        } else {
            let aligned = (range.size + span - 1) / (span as int) * span;
            if relative < aligned {
                Err(AiaConfigError::MmioWindowTooSmall)
            } else {
                file_at(ranges, span, relative - aligned, from + 1)
            }
        }
    }
}

fn locate_file(ranges: &[MmioRange], span: u64, offset: u64) -> (result: Result<
    u64,
    AiaConfigError,
>)
    requires
        span > 0,
    ensures
        result == file_at(ranges@, span, offset as int, 0),
{
    let mut relative: u64 = offset;
    let mut i: usize = 0;
    while i < ranges.len()
        invariant
            i <= ranges@.len(),
            span > 0,
            file_at(ranges@, span, offset as int, 0) == file_at(
                ranges@,
                span,
                relative as int,
                i as int,
            ),
        decreases ranges@.len() - i,
    {
        let range = ranges[i];
        if relative < range.size {
            let end: u64 = match relative.checked_add(config::IMSIC_PAGE_SIZE) {
                Some(end) => end,
                None => {
                    return Err(AiaConfigError::AddressOverflow);
                },
            };
            if end > range.size {
                return Err(AiaConfigError::MmioWindowTooSmall);
            }
            return match range.phys.checked_add(relative) {
                Some(address) => Ok(address),
                None => Err(AiaConfigError::AddressOverflow),
            };
        }
        let padded: u64 = match range.size.checked_add(span - 1) {
            Some(padded) => padded,
            None => {
                return Err(AiaConfigError::AddressOverflow);
            },
        };
        proof {
            assert(0 <= padded / span * span <= padded) by (nonlinear_arith)
                requires
                    span > 0,
                    padded >= 0,
            ;
        }
        let aligned: u64 = padded / span * span;
        if relative < aligned {
            return Err(AiaConfigError::MmioWindowTooSmall);
        }
        relative = relative - aligned;
        i += 1;
    }
    Err(AiaConfigError::MmioWindowTooSmall)
}

/// The first `count` files, or what is wrong with one of them.
pub open spec fn files_of(ranges: Seq<MmioRange>, span: u64, count: int) -> Result<
    Seq<u64>,
    AiaConfigError,
>
    decreases count,
{
    if count <= 0 {
        Ok(Seq::empty())
    } else {
        match files_of(ranges, span, count - 1) {
            Err(error) => Err(error),
            Ok(files) => if (count - 1) * span > u64::MAX {
                Err(AiaConfigError::AddressOverflow)
            } else {
                match file_at(ranges, span, (count - 1) * span, 0) {
                    Err(error) => Err(error),
                    Ok(address) => if files.contains(address) {
                        Err(AiaConfigError::DuplicateInterruptFile)
                    } else {
                        Ok(files.push(address))
                    },
                }
            },
        }
    }
}

/// What is wrong with the ranges from `from` on, if anything.
pub open spec fn ranges_error(ranges: Seq<MmioRange>, from: int) -> Option<AiaConfigError>
    decreases ranges.len() - from,
{
    if from >= ranges.len() {
        None
    } else if ranges[from].size == 0 || ranges[from].phys % config::IMSIC_PAGE_SIZE != 0 {
        Some(AiaConfigError::UnalignedMmio)
    } else if ranges[from].phys + ranges[from].size > u64::MAX {
        Some(AiaConfigError::AddressOverflow)
    } else {
        ranges_error(ranges, from + 1)
    }
}

/// What is wrong with the numbers of the first `count` files, if anything: each
/// must be the one of a CPU itself, and no two may be of the same CPU.
pub open spec fn keys_error(scheme: ImsicAddressScheme, files: Seq<u64>, count: int) -> Option<
    AiaConfigError,
>
    decreases count,
{
    if count <= 0 {
        None
    } else {
        match keys_error(scheme, files, count - 1) {
            Some(error) => Some(error),
            None => {
                let address = files[count - 1];
                if !scheme.holds(address) || scheme.guest_of(address) != 0 {
                    Some(AiaConfigError::InvalidAddressScheme)
                } else if keys_of(scheme, files, count - 1).contains(scheme.hart_of(address)) {
                    Some(AiaConfigError::DuplicateInterruptFile)
                } else {
                    None
                }
            },
        }
    }
}

/// The CPU numbers of the first `count` files.
pub open spec fn keys_of(scheme: ImsicAddressScheme, files: Seq<u64>, count: int) -> Seq<u64> {
    Seq::new(count as nat, |i: int| scheme.hart_of(files[i]))
}

/// The scheme that firmware describes, without its base; absent numbers of bits
/// are zero, but for the CPU's, which is as large as needed.
pub open spec fn described_scheme(
    context_count: usize,
    guest: Option<u32>,
    hart: Option<u32>,
    group: Option<u32>,
    shift: Option<u32>,
) -> Option<ImsicAddressScheme> {
    let guest_bits = if guest is Some {
        guest->0 as int
    } else {
        0
    };
    let hart_bits = if hart is Some {
        hart->0 as int
    } else {
        bit_length((context_count - 1) as nat) as int
    };
    let group_bits = if group is Some {
        group->0 as int
    } else {
        0
    };
    let group_shift = if shift is Some {
        shift->0 as int
    } else {
        24
    };
    if guest_bits > 7 || hart_bits > 15 || group_bits > 7 || group_shift > 55 {
        None
    } else {
        Some(
            ImsicAddressScheme {
                guest_index_bits: guest_bits as u8,
                hart_index_bits: hart_bits as u8,
                group_index_bits: group_bits as u8,
                group_index_shift: group_shift as u8,
                base_addr: 0,
            },
        )
    }
}

/// The layout that firmware describes, or the first thing that is wrong with it.
pub open spec fn described_layout(
    ranges: Seq<MmioRange>,
    context_count: usize,
    guest: Option<u32>,
    hart: Option<u32>,
    group: Option<u32>,
    shift: Option<u32>,
) -> Result<(ImsicAddressScheme, Seq<u64>), AiaConfigError> {
    if ranges.len() == 0 {
        Err(AiaConfigError::MissingMmio)
    } else if context_count == 0 {
        Err(AiaConfigError::MissingSupervisorContext)
    } else {
        match described_scheme(context_count, guest, hart, group, shift) {
            None => Err(AiaConfigError::InvalidAddressScheme),
            Some(provisional) => {
                let span = config::IMSIC_PAGE_SIZE << (provisional.guest_index_bits as u64);
                match ranges_error(ranges, 0) {
                    Some(error) => Err(error),
                    None => match files_of(ranges, span, context_count as int) {
                        Err(error) => Err(error),
                        Ok(files) => {
                            let base = provisional.base_of(files[0]);
                            let scheme = ImsicAddressScheme { base_addr: base, ..provisional };
                            if exists|i: int|
                                0 <= i < ranges.len() && scheme.base_of(
                                    (#[trigger] ranges[i]).phys,
                                ) != base {
                                Err(AiaConfigError::InvalidAddressScheme)
                            } else {
                                match keys_error(scheme, files, files.len() as int) {
                                    Some(error) => Err(error),
                                    None => Ok((scheme, files)),
                                }
                            }
                        },
                    },
                }
            },
        }
    }
}

fn small(bits: Option<u32>, absent: u8) -> (value: Option<u8>)
    ensures
        value == (match bits {
            None => Some(absent),
            Some(bits) => if bits <= u8::MAX {
                Some(bits as u8)
            } else {
                None
            },
        }),
{
    match bits {
        None => Some(absent),
        Some(bits) => if bits <= 255 {
            Some(bits as u8)
        } else {
            None
        },
    }
}

fn check_ranges(ranges: &[MmioRange]) -> (result: Result<(), AiaConfigError>)
    ensures
        match result {
            Ok(()) => ranges_error(ranges@, 0) is None,
            Err(error) => ranges_error(ranges@, 0) == Some(error),
        },
{
    let mut i: usize = 0;
    while i < ranges.len()
        invariant
            i <= ranges@.len(),
            ranges_error(ranges@, 0) == ranges_error(ranges@, i as int),
        decreases ranges@.len() - i,
    {
        let range = ranges[i];
        if range.size == 0 || range.phys % config::IMSIC_PAGE_SIZE != 0 {
            return Err(AiaConfigError::UnalignedMmio);
        }
        if range.phys.checked_add(range.size).is_none() {
            return Err(AiaConfigError::AddressOverflow);
        }
        i += 1;
    }
    Ok(())
}

fn listed(values: &Vec<u64>, value: u64) -> (found: bool)
    ensures
        found == values@.contains(value),
{
    let mut i: usize = 0;
    while i < values.len()
        invariant
            i <= values@.len(),
            forall|k: int| 0 <= k < i ==> #[trigger] values@[k] != value,
        decreases values@.len() - i,
    {
        if values[i] == value {
            return true;
        }
        i += 1;
    }
    false
}

proof fn lemma_files_error(ranges: Seq<MmioRange>, span: u64, count: int, total: int)
    requires
        0 <= count <= total,
        files_of(ranges, span, count) is Err,
    ensures
        files_of(ranges, span, total) == files_of(ranges, span, count),
    decreases total - count,
{
    if count < total {
        lemma_files_error(ranges, span, count, total - 1);
    }
}

proof fn lemma_files_len(ranges: Seq<MmioRange>, span: u64, count: int)
    requires
        count >= 0,
        files_of(ranges, span, count) is Ok,
    ensures
        files_of(ranges, span, count)->Ok_0.len() == count,
    decreases count,
{
    if count > 0 {
        lemma_files_len(ranges, span, count - 1);
    }
}

fn locate_files(ranges: &[MmioRange], span: u64, count: usize) -> (result: Result<
    Vec<u64>,
    AiaConfigError,
>)
    requires
        span > 0,
    ensures
        match result {
            Ok(files) => files_of(ranges@, span, count as int) == Ok::<Seq<u64>, AiaConfigError>(
                files@,
            ) && files@.len() == count,
            Err(error) => files_of(ranges@, span, count as int) == Err::<
                Seq<u64>,
                AiaConfigError,
            >(error),
        },
{
    let mut files: Vec<u64> = Vec::new();
    let mut i: usize = 0;
    assert(files@ =~= Seq::empty());
    while i < count
        invariant
            i <= count,
            span > 0,
            files@.len() == i,
            files_of(ranges@, span, i as int) == Ok::<Seq<u64>, AiaConfigError>(files@),
        decreases count - i,
    {
        let offset: u64 = match (i as u64).checked_mul(span) {
            Some(offset) => offset,
            None => {
                proof {
                    lemma_files_error(ranges@, span, i + 1, count as int);
                }
                return Err(AiaConfigError::AddressOverflow);
            },
        };
        let address: u64 = match locate_file(ranges, span, offset) {
            Ok(address) => address,
            Err(error) => {
                proof {
                    lemma_files_error(ranges@, span, i + 1, count as int);
                }
                return Err(error);
            },
        };
        if listed(&files, address) {
            proof {
                lemma_files_error(ranges@, span, i + 1, count as int);
            }
            return Err(AiaConfigError::DuplicateInterruptFile);
        }
        files.push(address);
        i += 1;
    }
    Ok(files)
}

proof fn lemma_keys_error(scheme: ImsicAddressScheme, files: Seq<u64>, count: int, total: int)
    requires
        0 <= count <= total,
        keys_error(scheme, files, count) is Some,
    ensures
        keys_error(scheme, files, total) == keys_error(scheme, files, count),
    decreases total - count,
{
    if count < total {
        lemma_keys_error(scheme, files, count, total - 1);
    }
}

fn check_keys(scheme: ImsicAddressScheme, files: &Vec<u64>) -> (result: Result<(), AiaConfigError>)
    ensures
        match result {
            Ok(()) => keys_error(scheme, files@, files@.len() as int) is None,
            Err(error) => keys_error(scheme, files@, files@.len() as int) == Some(error),
        },
{
    let mut keys: Vec<u64> = Vec::new();
    let mut i: usize = 0;
    assert(keys@ =~= keys_of(scheme, files@, 0));
    while i < files.len()
        invariant
            i <= files@.len(),
            keys@ == keys_of(scheme, files@, i as int),
            keys_error(scheme, files@, i as int) is None,
        decreases files@.len() - i,
    {
        match scheme.interrupt_file_key(files[i]) {
            Some((guest, key)) => {
                if guest != 0 {
                    proof {
                        lemma_keys_error(scheme, files@, i + 1, files@.len() as int);
                    }
                    return Err(AiaConfigError::InvalidAddressScheme);
                }
                if listed(&keys, key) {
                    proof {
                        lemma_keys_error(scheme, files@, i + 1, files@.len() as int);
                    }
                    return Err(AiaConfigError::DuplicateInterruptFile);
                }
                keys.push(key);
                assert(keys@ =~= keys_of(scheme, files@, i + 1));
            },
            None => {
                proof {
                    lemma_keys_error(scheme, files@, i + 1, files@.len() as int);
                }
                return Err(AiaConfigError::InvalidAddressScheme);
            },
        }
        i += 1;
    }
    Ok(())
}

impl ImsicLayout {
    /// The interrupt files that firmware describes.
    pub fn new(
        ranges: &[MmioRange],
        context_count: usize,
        guest_index_bits: Option<u32>,
        hart_index_bits: Option<u32>,
        group_index_bits: Option<u32>,
        group_index_shift: Option<u32>,
    ) -> (result: Result<Self, AiaConfigError>)
        ensures
            match result {
                Ok(layout) => described_layout(
                    ranges@,
                    context_count,
                    guest_index_bits,
                    hart_index_bits,
                    group_index_bits,
                    group_index_shift,
                ) == Ok::<(ImsicAddressScheme, Seq<u64>), AiaConfigError>(
                    (layout.scheme, layout.interrupt_files@),
                ) && layout.interrupt_files@.len() == context_count,
                Err(error) => described_layout(
                    ranges@,
                    context_count,
                    guest_index_bits,
                    hart_index_bits,
                    group_index_bits,
                    group_index_shift,
                ) == Err::<(ImsicAddressScheme, Seq<u64>), AiaConfigError>(error),
            },
    {
        if ranges.len() == 0 {
            return Err(AiaConfigError::MissingMmio);
        }
        if context_count == 0 {
            return Err(AiaConfigError::MissingSupervisorContext);
        }
        let guest: u8 = match small(guest_index_bits, 0) {
            Some(bits) => bits,
            None => {
                return Err(AiaConfigError::InvalidAddressScheme);
            },
        };
        let hart: u8 = match small(hart_index_bits, default_hart_index_bits(context_count)) {
            Some(bits) => bits,
            None => {
                return Err(AiaConfigError::InvalidAddressScheme);
            },
        };
        let group: u8 = match small(group_index_bits, 0) {
            Some(bits) => bits,
            None => {
                return Err(AiaConfigError::InvalidAddressScheme);
            },
        };
        let shift: u8 = match small(group_index_shift, 24) {
            Some(bits) => bits,
            None => {
                return Err(AiaConfigError::InvalidAddressScheme);
            },
        };
        if guest > 7 || hart > 15 || group > 7 || shift > 55 {
            return Err(AiaConfigError::InvalidAddressScheme);
        }
        let wide: u64 = guest as u64;
        assert(0x1000u64 << wide >= 0x1000) by (bit_vector)
            requires
                wide <= 7,
        ;
        let span: u64 = config::IMSIC_PAGE_SIZE << wide;
        match check_ranges(ranges) {
            Ok(()) => {},
            Err(error) => {
                return Err(error);
            },
        }
        let files = match locate_files(ranges, span, context_count) {
            Ok(files) => files,
            Err(error) => {
                return Err(error);
            },
        };
        let provisional = ImsicAddressScheme {
            guest_index_bits: guest,
            hart_index_bits: hart,
            group_index_bits: group,
            group_index_shift: shift,
            base_addr: 0,
        };
        let base: u64 = match provisional.normalized_base(files[0]) {
            Some(base) => base,
            None => {
                return Err(AiaConfigError::InvalidAddressScheme);
            },
        };
        let scheme = ImsicAddressScheme {
            guest_index_bits: guest,
            hart_index_bits: hart,
            group_index_bits: group,
            group_index_shift: shift,
            base_addr: base,
        };
        let mut i: usize = 0;
        while i < ranges.len()
            invariant
                i <= ranges@.len(),
                scheme.readable(),
                scheme.base_addr == base,
                forall|k: int|
                    0 <= k < i ==> scheme.base_of((#[trigger] ranges@[k]).phys) == base,
                ranges@.len() > 0,
                context_count > 0,
                described_scheme(
                    context_count,
                    guest_index_bits,
                    hart_index_bits,
                    group_index_bits,
                    group_index_shift,
                ) == Some(provisional),
                scheme == (ImsicAddressScheme { base_addr: base, ..provisional }),
                ranges_error(ranges@, 0) is None,
                span == config::IMSIC_PAGE_SIZE << (provisional.guest_index_bits as u64),
                files_of(ranges@, span, context_count as int) == Ok::<Seq<u64>, AiaConfigError>(
                    files@,
                ),
                base == provisional.base_of(files@[0]),
            decreases ranges@.len() - i,
        {
            match scheme.normalized_base(ranges[i].phys) {
                Some(found) => {
                    if found != base {
                        assert(scheme.base_of(ranges@[i as int].phys) != base);
                        return Err(AiaConfigError::InvalidAddressScheme);
                    }
                },
                None => {
                    return Err(AiaConfigError::InvalidAddressScheme);
                },
            }
            i += 1;
        }
        match check_keys(scheme, &files) {
            Ok(()) => {},
            Err(error) => {
                return Err(error);
            },
        }
        Ok(ImsicLayout { scheme, interrupt_files: files })
    }
}

/// The files of a layout are distinct, each is the one of a CPU itself, and no
/// two are of the same CPU.
pub proof fn layout_files_are_distinct(
    ranges: Seq<MmioRange>,
    context_count: usize,
    guest: Option<u32>,
    hart: Option<u32>,
    group: Option<u32>,
    shift: Option<u32>,
    scheme: ImsicAddressScheme,
    files: Seq<u64>,
    i: int,
    j: int,
)
    requires
        described_layout(ranges, context_count, guest, hart, group, shift) == Ok::<
            (ImsicAddressScheme, Seq<u64>),
            AiaConfigError,
        >((scheme, files)),
        0 <= i < j < files.len(),
    ensures
        files[i] != files[j],
        scheme.holds(files[i]) && scheme.guest_of(files[i]) == 0,
        scheme.hart_of(files[i]) != scheme.hart_of(files[j]),
{
    lemma_keys_ok(scheme, files, files.len() as int, i);
    lemma_keys_ok(scheme, files, files.len() as int, j);
    assert(keys_of(scheme, files, j)[i] == scheme.hart_of(files[i]));
}

proof fn lemma_keys_ok(scheme: ImsicAddressScheme, files: Seq<u64>, count: int, at: int)
    requires
        keys_error(scheme, files, count) is None,
        0 <= at < count,
    ensures
        scheme.holds(files[at]) && scheme.guest_of(files[at]) == 0,
        !keys_of(scheme, files, at).contains(scheme.hart_of(files[at])),
    decreases count,
{
    if at < count - 1 {
        lemma_keys_ok(scheme, files, count - 1, at);
    }
}

/// How a wired interrupt is read.
#[derive(Clone, Copy, Debug, PartialEq, Eq, Structural)]
pub enum AplicSourceMode {
    Inactive,
    EdgeRise,
    EdgeFall,
    LevelHigh,
    LevelLow,
}

impl AplicSourceMode {
    /// The value of the source register.
    pub open spec fn value(self) -> u32 {
        match self {
            AplicSourceMode::Inactive => 0,
            AplicSourceMode::EdgeRise => 4,
            AplicSourceMode::EdgeFall => 5,
            AplicSourceMode::LevelHigh => 6,
            AplicSourceMode::LevelLow => 7,
        }
    }

    pub fn code(self) -> (code: u32)
        ensures
            code == self.value(),
    {
        match self {
            AplicSourceMode::Inactive => 0,
            AplicSourceMode::EdgeRise => 4,
            AplicSourceMode::EdgeFall => 5,
            AplicSourceMode::LevelHigh => 6,
            AplicSourceMode::LevelLow => 7,
        }
    }
}

/// How firmware says that an interrupt is read.
pub open spec fn mode_of(flags: u32) -> Result<AplicSourceMode, AiaConfigError> {
    if flags == 1 {
        Ok(AplicSourceMode::EdgeRise)
    } else if flags == 2 {
        Ok(AplicSourceMode::EdgeFall)
    } else if flags == 4 {
        Ok(AplicSourceMode::LevelHigh)
    } else if flags == 8 {
        Ok(AplicSourceMode::LevelLow)
    } else {
        Err(AiaConfigError::UnsupportedIrqType)
    }
}

pub fn aplic_source_mode(flags: u32) -> (result: Result<AplicSourceMode, AiaConfigError>)
    ensures
        result == mode_of(flags),
{
    match flags {
        1 => Ok(AplicSourceMode::EdgeRise),
        2 => Ok(AplicSourceMode::EdgeFall),
        4 => Ok(AplicSourceMode::LevelHigh),
        8 => Ok(AplicSourceMode::LevelLow),
        _ => Err(AiaConfigError::UnsupportedIrqType),
    }
}

/// The registers of the sources.
#[derive(Clone, Copy, Debug, PartialEq, Eq, Structural)]
pub struct AplicLayout {
    num_sources: u32,
}

/// What is wrong with the registers of a controller, if anything.
pub open spec fn aplic_error(num_sources: u32, phys: usize, size: usize, virt: usize) -> Option<
    AiaConfigError,
> {
    let required = APLIC_TARGET_BASE + num_sources * 4;
    if num_sources == 0 || num_sources > config::APLIC_MAX_SOURCE {
        Some(AiaConfigError::InvalidNumSources)
    } else if phys % 4 != 0 || virt % 4 != 0 {
        Some(AiaConfigError::UnalignedMmio)
    } else if phys + size > usize::MAX {
        Some(AiaConfigError::AddressOverflow)
    } else if size < required {
        Some(AiaConfigError::MmioWindowTooSmall)
    } else if virt + required > usize::MAX {
        Some(AiaConfigError::AddressOverflow)
    } else {
        None
    }
}

impl AplicLayout {
    pub closed spec fn sources(&self) -> u32 {
        self.num_sources
    }

    pub open spec fn wf(&self) -> bool {
        1 <= self.sources() <= config::APLIC_MAX_SOURCE
    }

    pub fn new(num_sources: u32, phys: usize, size: usize, virt: usize) -> (result: Result<
        Self,
        AiaConfigError,
    >)
        ensures
            match result {
                Ok(layout) => aplic_error(num_sources, phys, size, virt) is None && layout.wf()
                    && layout.sources() == num_sources,
                Err(error) => aplic_error(num_sources, phys, size, virt) == Some(error),
            },
    {
        if num_sources == 0 || num_sources > config::APLIC_MAX_SOURCE {
            return Err(AiaConfigError::InvalidNumSources);
        }
        if phys % 4 != 0 || virt % 4 != 0 {
            return Err(AiaConfigError::UnalignedMmio);
        }
        if phys.checked_add(size).is_none() {
            return Err(AiaConfigError::AddressOverflow);
        }
        let required: usize = APLIC_TARGET_BASE + num_sources as usize * 4;
        if size < required {
            return Err(AiaConfigError::MmioWindowTooSmall);
        }
        if virt.checked_add(required).is_none() {
            return Err(AiaConfigError::AddressOverflow);
        }
        Ok(AplicLayout { num_sources })
    }

    pub open spec fn sourcecfg_at(self, source: int) -> int {
        APLIC_SOURCECFG_BASE + (source - 1) * 4
    }

    pub open spec fn target_at(self, source: int) -> int {
        APLIC_TARGET_BASE + (source - 1) * 4
    }

    pub fn sourcecfg_offset(self, source: u32) -> (result: Option<usize>)
        requires
            self.wf(),
        ensures
            result == (if 1 <= source <= self.sources() {
                Some(self.sourcecfg_at(source as int) as usize)
            } else {
                None
            }),
    {
        if source != 0 && source <= self.num_sources {
            Some(APLIC_SOURCECFG_BASE + (source as usize - 1) * 4)
        } else {
            None
        }
    }

    pub fn target_offset(self, source: u32) -> (result: Option<usize>)
        requires
            self.wf(),
        ensures
            result == (if 1 <= source <= self.sources() {
                Some(self.target_at(source as int) as usize)
            } else {
                None
            }),
    {
        if source != 0 && source <= self.num_sources {
            Some(APLIC_TARGET_BASE + (source as usize - 1) * 4)
        } else {
            None
        }
    }
}

/// The registers of a source lie in the window and are no other source's, nor
/// one of the registers that all sources share.
pub proof fn source_registers_are_distinct(layout: AplicLayout, source: int, other: int)
    requires
        layout.wf(),
        1 <= source <= layout.sources(),
        1 <= other <= layout.sources(),
    ensures
        APLIC_DOMAINCFG < layout.sourcecfg_at(source) < APLIC_SETIENUM < APLIC_CLRIENUM
            < APLIC_SETIPNUM_LE < layout.target_at(other),
        layout.sourcecfg_at(source) == layout.sourcecfg_at(other) ==> source == other,
        layout.target_at(source) == layout.target_at(other) ==> source == other,
        layout.target_at(source) + 4 <= APLIC_TARGET_BASE + layout.sources() * 4,
{
}

/// The delivery registers of the CPUs, and the CPU that serves interrupts.
#[derive(Clone, Copy, Debug, PartialEq, Eq, Structural)]
pub struct AplicDirectLayout {
    max_hart_index: u32,
    service_hart_index: Option<u32>,
}

/// The highest of some numbers.
pub open spec fn highest(values: Seq<u32>) -> u32
    decreases values.len(),
{
    if values.len() == 0 {
        0
    } else {
        let front = highest(values.drop_last());
        if values.last() > front {
            values.last()
        } else {
            front
        }
    }
}

proof fn lemma_highest_bound(values: Seq<u32>, bound: u32)
    requires
        forall|i: int| 0 <= i < values.len() ==> #[trigger] values[i] <= bound,
    ensures
        highest(values) <= bound,
    decreases values.len(),
{
    if values.len() > 0 {
        let front = values.drop_last();
        assert forall|i: int| 0 <= i < front.len() implies #[trigger] front[i] <= bound by {
            assert(front[i] == values[i]);
        }
        lemma_highest_bound(front, bound);
        assert(values[values.len() - 1] <= bound);
    }
}

/// What is wrong with the delivery registers of a controller, if anything.
pub open spec fn direct_error(
    hart_indexes: Seq<u32>,
    service: Option<u32>,
    size: usize,
    virt: usize,
) -> Option<AiaConfigError> {
    let required = APLIC_IDC_BASE + (highest(hart_indexes) + 1) * APLIC_IDC_SIZE;
    match config::hart_indexes_error(hart_indexes) {
        Some(error) => Some(error),
        None => if service is Some && !hart_indexes.contains(service->0) {
            Some(AiaConfigError::InvalidHartIndex)
        } else if size < required {
            Some(AiaConfigError::MmioWindowTooSmall)
        } else if virt + required > usize::MAX {
            Some(AiaConfigError::AddressOverflow)
        } else {
            None
        },
    }
}

impl AplicDirectLayout {
    /// The CPU that serves interrupts.
    pub closed spec fn service(&self) -> Option<u32> {
        self.service_hart_index
    }

    pub open spec fn wf(&self) -> bool {
        self.service() matches Some(index) ==> index <= 0x3fff
    }

    pub fn new(
        hart_indexes: &[u32],
        service_hart_index: Option<u32>,
        size: usize,
        virt: usize,
    ) -> (result: Result<Self, AiaConfigError>)
        ensures
            match result {
                Ok(layout) => direct_error(hart_indexes@, service_hart_index, size, virt) is None
                    && layout.wf() && layout.service() == service_hart_index,
                Err(error) => direct_error(hart_indexes@, service_hart_index, size, virt) == Some(
                    error,
                ),
            },
    {
        match validate_aplic_hart_indexes(hart_indexes) {
            Ok(()) => {},
            Err(error) => {
                return Err(error);
            },
        }
        let mut max_hart_index: u32 = 0;
        let mut found = false;
        let mut i: usize = 0;
        assert(hart_indexes@.take(0) =~= Seq::empty());
        while i < hart_indexes.len()
            invariant
                i <= hart_indexes@.len(),
                max_hart_index == highest(hart_indexes@.take(i as int)),
                found == (service_hart_index is Some && hart_indexes@.take(i as int).contains(
                    service_hart_index->0,
                )),
            decreases hart_indexes@.len() - i,
        {
            let index: u32 = hart_indexes[i];
            proof {
                let past = hart_indexes@.take(i as int);
                let now = hart_indexes@.take(i + 1);
                assert(now.drop_last() =~= past);
                assert(now[i as int] == index);
                if service_hart_index is Some {
                    let wanted = service_hart_index->0;
                    if past.contains(wanted) {
                        let k = choose|k: int| 0 <= k < past.len() && past[k] == wanted;
                        assert(now[k] == wanted);
                    }
                    if now.contains(wanted) && index != wanted {
                        let k = choose|k: int| 0 <= k < now.len() && now[k] == wanted;
                        assert(past[k] == wanted);
                    }
                }
            }
            if index > max_hart_index {
                max_hart_index = index;
            }
            if let Some(wanted) = service_hart_index {
                if index == wanted {
                    found = true;
                }
            }
            i += 1;
        }
        proof {
            assert(hart_indexes@.take(i as int) =~= hart_indexes@);
            assert forall|k: int| 0 <= k < hart_indexes@.len() implies #[trigger] hart_indexes@[k]
                <= 0x3fff by {
                if k == 0 {
                    if hart_indexes@.len() == 1 {
                        assert(config::indexes_error(hart_indexes@, 0) is None);
                    } else {
                        assert(config::indexes_error(hart_indexes@, 0) is None);
                    }
                } else {
                    config::accepted_indexes_are_distinct(hart_indexes@, 0, k);
                }
            }
            lemma_highest_bound(hart_indexes@, 0x3fff);
        }
        if service_hart_index.is_some() && !found {
            return Err(AiaConfigError::InvalidHartIndex);
        }
        let required: usize = APLIC_IDC_BASE + (max_hart_index as usize + 1) * APLIC_IDC_SIZE;
        if size < required {
            return Err(AiaConfigError::MmioWindowTooSmall);
        }
        if virt.checked_add(required).is_none() {
            return Err(AiaConfigError::AddressOverflow);
        }
        Ok(AplicDirectLayout { max_hart_index, service_hart_index })
    }

    pub fn service_hart_index(self) -> (index: Option<u32>)
        ensures
            index == self.service(),
    {
        self.service_hart_index
    }

    /// Where a delivery register of the serving CPU is.
    pub open spec fn idc_at(self, register: usize) -> Option<usize> {
        if register != APLIC_IDC_IDELIVERY && register != APLIC_IDC_ITHRESHOLD && register
            != APLIC_IDC_CLAIMI {
            None
        } else {
            match self.service() {
                None => None,
                Some(index) => Some(
                    (APLIC_IDC_BASE + index * APLIC_IDC_SIZE + register) as usize,
                ),
            }
        }
    }

    pub fn service_idc_offset(self, register: usize) -> (result: Option<usize>)
        requires
            self.wf(),
        ensures
            result == self.idc_at(register),
    {
        if register != APLIC_IDC_IDELIVERY && register != APLIC_IDC_ITHRESHOLD && register
            != APLIC_IDC_CLAIMI {
            return None;
        }
        match self.service_hart_index {
            None => None,
            Some(index) => Some(APLIC_IDC_BASE + index as usize * APLIC_IDC_SIZE + register),
        }
    }

    /// The target register that sends a source to the serving CPU, at priority 1.
    pub open spec fn target_value(self) -> Option<u32> {
        match self.service() {
            None => None,
            Some(index) => Some((index * 0x4_0000 + 1) as u32),
        }
    }

    pub fn target(self) -> (result: Option<u32>)
        requires
            self.wf(),
        ensures
            result == self.target_value(),
    {
        match self.service_hart_index {
            None => None,
            Some(index) => Some(index * 0x4_0000 + 1),
        }
    }

    /// The source that a claim names.
    pub open spec fn claimed(claimi: u32) -> Option<u32> {
        let source = claimi / 0x1_0000 % 0x400;
        if source == 0 {
            None
        } else {
            Some(source)
        }
    }

    pub fn claimed_source(claimi: u32) -> (result: Option<u32>)
        ensures
            result == Self::claimed(claimi),
    {
        let source: u32 = claimi / 0x1_0000 % 0x400;
        if source == 0 {
            None
        } else {
            Some(source)
        }
    }
}

} // verus!
