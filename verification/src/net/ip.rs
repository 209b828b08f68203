//! Local address tests.

use vstd::prelude::*;
use crate::bytes;
use crate::bytes::be32;
use crate::net::types::{all_zero, Family, NetStackLocalAddress};

verus! {

/// Whether a local address is one that the stack may be configured with.
pub open spec fn address_valid(address: NetStackLocalAddress) -> bool {
    &&& address.interface != 0
    &&& (address.family == Family::Ipv4 && address.prefix_len <= 32) || (address.family
        == Family::Ipv6 && address.prefix_len <= 128)
    &&& address.family == Family::Ipv4 ==> forall|i: int|
        4 <= i < 16 ==> #[trigger] address.address@[i] == 0
    &&& forall|i: int| 0 <= i < 2 ==> #[trigger] address.reserved0@[i] == 0
    &&& forall|i: int| 0 <= i < 8 ==> #[trigger] address.reserved1@[i] == 0
}

/// Checks a local address.
pub fn address_projection_valid(address: &NetStackLocalAddress) -> (valid: bool)
    ensures
        valid == address_valid(*address),
{
    if address.interface == 0 {
        return false;
    }
    let shape = match address.family {
        Family::Ipv4 => address.prefix_len <= 32,
        Family::Ipv6 => address.prefix_len <= 128,
        Family::Unspecified => false,
    };
    if !shape {
        return false;
    }
    if address.family == Family::Ipv4 {
        let mut i: usize = 4;
        while i < 16
            invariant
                4 <= i <= 16,
                address.family == Family::Ipv4,
                forall|j: int| 4 <= j < i ==> #[trigger] address.address@[j] == 0,
            decreases 16 - i,
        {
            if address.address[i] != 0 {
                return false;
            }
            i += 1;
        }
    }
    all_zero(&address.reserved0) && all_zero(&address.reserved1)
}

/// The directed broadcast address of the network that `local` lies in: the
/// last address that shares the first `prefix` bits.
pub open spec fn directed_broadcast(local: u32, prefix: int) -> int {
    let size = vstd::arithmetic::power2::pow2((32 - prefix) as nat) as int;
    local / (size as u32) * size + size - 1
}

/// Whether an entry of the address table makes `address` local.
pub open spec fn entry_matches_ipv4(entry: NetStackLocalAddress, interface: u32, address: u32) -> bool {
    let local = bytes::be32_at(entry.address@, 0);
    &&& entry.interface == interface
    &&& entry.family == Family::Ipv4
    &&& address == local || (0 < entry.prefix_len < 32 && address == directed_broadcast(
        local,
        entry.prefix_len as int,
    ))
}

/// Whether an IPv4 destination is for this host: limited broadcast, multicast,
/// an own address, or the broadcast address of an own network.
pub open spec fn local_ipv4(
    interface: u32,
    addresses: Seq<NetStackLocalAddress>,
    address: Seq<u8>,
) -> bool {
    ||| bytes::be32_at(address, 0) == 0xffff_ffff
    ||| 224 <= address[0] <= 239
    ||| exists|i: int|
        0 <= i < addresses.len() && entry_matches_ipv4(
            #[trigger] addresses[i],
            interface,
            bytes::be32_at(address, 0),
        )
}

proof fn lemma_network_size(prefix: int)
    requires
        0 < prefix < 32,
    ensures
        2 <= vstd::arithmetic::power2::pow2((32 - prefix) as nat) <= 0x8000_0000,
{
    vstd::arithmetic::power2::lemma2_to64();
    vstd::arithmetic::power2::lemma2_to64_rest();
    if prefix < 31 {
        vstd::arithmetic::power2::lemma_pow2_strictly_increases(1, (32 - prefix) as nat);
    }
    if prefix > 1 {
        vstd::arithmetic::power2::lemma_pow2_strictly_increases((32 - prefix) as nat, 31);
    }
}

fn entry_matches(entry: &NetStackLocalAddress, interface: u32, address: u32) -> (matches: bool)
    requires
        entry.family == Family::Ipv4 ==> entry.prefix_len <= 32,
    ensures
        matches == entry_matches_ipv4(*entry, interface, address),
{
    if entry.interface != interface || entry.family != Family::Ipv4 {
        return false;
    }
    let local: u32 = be32(&entry.address, 0);
    if address == local {
        return true;
    }
    if entry.prefix_len == 0 || entry.prefix_len == 32 {
        return false;
    }
    let shift: u32 = 32 - entry.prefix_len as u32;
    proof {
        lemma_network_size(entry.prefix_len as int);
        vstd::bits::lemma_u32_shl_is_mul(1, shift);
    }
    let size: u32 = 1u32 << shift;
    assert(size == vstd::arithmetic::power2::pow2(shift as nat));
    let base: u32 = local / size;
    assert(base * size <= local) by (nonlinear_arith)
        requires
            base == local / size,
            size > 0,
    ;
    let start: u32 = base * size;
    assert(local as u64 == start + local % size) by (nonlinear_arith)
        requires
            base == local / size,
            start == base * size,
            size > 0,
    ;
    proof {
        lemma_last_address_fits(local, shift as nat);
    }
    address as u64 == start as u64 + (size as u64 - 1)
}

/// The last address of the network of `local` is an IPv4 address.
proof fn lemma_last_address_fits(local: u32, bits: nat)
    requires
        0 < bits < 32,
    ensures
        directed_broadcast(local, 32 - bits as int) <= 0xffff_ffff,
{
    lemma_network_size(32 - bits as int);
    let size = vstd::arithmetic::power2::pow2(bits) as int;
    let count = vstd::arithmetic::power2::pow2((32 - bits) as nat) as int;
    vstd::arithmetic::power2::lemma_pow2_adds(bits, (32 - bits) as nat);
    vstd::arithmetic::power2::lemma2_to64();
    vstd::arithmetic::power2::lemma2_to64_rest();
    assert(size * count == 0x1_0000_0000);
    let q = local as int / size;
    assert(q < count) by (nonlinear_arith)
        requires
            size * count == 0x1_0000_0000,
            q == local as int / size,
            size > 0,
            local < 0x1_0000_0000,
    ;
    assert(q * size + size <= count * size) by (nonlinear_arith)
        requires
            q + 1 <= count,
            size > 0,
    ;
    assert(count * size == size * count) by (nonlinear_arith);
}

/// Whether an IPv4 destination is for this host.
pub fn is_local_ipv4(interface: u32, addresses: &[NetStackLocalAddress], address: [u8; 4]) -> (local:
    bool)
    requires
        forall|i: int| 0 <= i < addresses@.len() ==> address_valid(#[trigger] addresses@[i]),
    ensures
        local == local_ipv4(interface, addresses@, address@),
{
    let wanted: u32 = be32(&address, 0);
    if wanted == 0xffff_ffff || (address[0] >= 224 && address[0] <= 239) {
        return true;
    }
    let mut i: usize = 0;
    while i < addresses.len()
        invariant
            i <= addresses@.len(),
            wanted == bytes::be32_at(address@, 0),
            forall|k: int| 0 <= k < addresses@.len() ==> address_valid(#[trigger] addresses@[k]),
            forall|k: int|
                0 <= k < i ==> !entry_matches_ipv4(#[trigger] addresses@[k], interface, wanted),
        decreases addresses@.len() - i,
    {
        assert(address_valid(addresses@[i as int]));
        if entry_matches(&addresses[i], interface, wanted) {
            return true;
        }
        i += 1;
    }
    false
}

/// Whether an IPv6 destination is for this host: multicast or an own address.
pub open spec fn local_ipv6(
    interface: u32,
    addresses: Seq<NetStackLocalAddress>,
    address: Seq<u8>,
) -> bool {
    ||| address[0] == 0xff
    ||| exists|i: int|
        0 <= i < addresses.len() && (#[trigger] addresses[i]).interface == interface
            && addresses[i].family == Family::Ipv6 && addresses[i].address@ == address
}

/// Whether two addresses share the network of a prefix.
pub open spec fn same_network(left: u32, right: u32, prefix: int) -> bool {
    let size = vstd::arithmetic::power2::pow2((32 - prefix) as nat) as int;
    left as int / size == right as int / size
}

/// Whether all bits of an address behind a prefix are ones.
pub open spec fn last_of_network(address: u32, prefix: int) -> bool {
    let size = vstd::arithmetic::power2::pow2((32 - prefix) as nat) as int;
    (address + 1) % size == 0
}

/// A packet for an address of the interface is for this host, and so is one for the last
/// address of a network that the interface is in. One for another unicast address is not.
pub proof fn own_networks_are_local(
    interface: u32,
    addresses: Seq<NetStackLocalAddress>,
    address: Seq<u8>,
    i: int,
)
    requires
        address.len() == 4,
        0 <= i < addresses.len(),
        addresses[i].family == Family::Ipv4,
        addresses[i].prefix_len <= 32,
    ensures
        ({
            let wanted = bytes::be32_at(address, 0);
            let own = bytes::be32_at(addresses[i].address@, 0);
            let prefix = addresses[i].prefix_len as int;
            let meant = wanted == own || (0 < prefix < 32 && same_network(wanted, own, prefix)
                && last_of_network(wanted, prefix));
            &&& addresses[i].interface == interface && meant ==> local_ipv4(
                interface,
                addresses,
                address,
            )
            &&& entry_matches_ipv4(addresses[i], interface, wanted) ==> addresses[i].interface
                == interface && meant
        }),
{
    let wanted = bytes::be32_at(address, 0);
    let own = bytes::be32_at(addresses[i].address@, 0);
    let prefix = addresses[i].prefix_len as int;
    if 0 < prefix < 32 {
        lemma_network_size(prefix);
        let size = vstd::arithmetic::power2::pow2((32 - prefix) as nat) as int;
        assert(own as int / size == own / (size as u32));
        lemma_last_address(wanted as int, own as int, size);
    }
}

proof fn lemma_last_address(wanted: int, own: int, size: int)
    by (nonlinear_arith)
    requires
        0 <= wanted,
        0 <= own,
        2 <= size,
    ensures
        wanted == own / size * size + size - 1 <==> wanted / size == own / size && (wanted + 1)
            % size == 0,
{
    let q = own / size;
    let w = wanted / size;
    assert(wanted == w * size + wanted % size);
    assert(0 <= wanted % size < size);
    if wanted == q * size + size - 1 {
        assert(w == q);
        assert(wanted + 1 == (q + 1) * size);
        assert((wanted + 1) % size == 0);
    }
    if w == q && (wanted + 1) % size == 0 {
        assert(wanted + 1 == (wanted + 1) / size * size);
        assert(wanted % size == size - 1) by {
            let r = wanted % size;
            assert(wanted + 1 == w * size + (r + 1));
            if r + 1 < size {
                assert((wanted + 1) % size == r + 1);
            }
        }
    }
}

/// What is for this host is a broadcast, for a group, or for an address of the interface.
pub proof fn strangers_are_not_local(
    interface: u32,
    addresses: Seq<NetStackLocalAddress>,
    address: Seq<u8>,
)
    requires
        address.len() == 4,
        !(224 <= address[0] < 240),
        !(address[0] == 255 && address[1] == 255 && address[2] == 255 && address[3] == 255),
        forall|i: int|
            0 <= i < addresses.len() ==> (#[trigger] addresses[i]).interface != interface
                || addresses[i].family != Family::Ipv4,
    ensures
        !local_ipv4(interface, addresses, address),
{
}

/// An IPv6 packet is for this host if it is for a group or for an address of the interface,
/// to the last byte.
pub proof fn own_ipv6_addresses_are_local(
    interface: u32,
    addresses: Seq<NetStackLocalAddress>,
    address: Seq<u8>,
    i: int,
)
    requires
        address.len() == 16,
        0 <= i < addresses.len(),
    ensures
        addresses[i].interface == interface && addresses[i].family == Family::Ipv6 && (forall|k: int|
            0 <= k < 16 ==> addresses[i].address@[k] == #[trigger] address[k]) ==> local_ipv6(
            interface,
            addresses,
            address,
        ),
        address[0] == 255 ==> local_ipv6(interface, addresses, address),
        local_ipv6(interface, addresses, address) && address[0] != 255 ==> exists|k: int|
            0 <= k < addresses.len() && (#[trigger] addresses[k]).interface == interface
                && addresses[k].address@ == address,
{
    if forall|k: int| 0 <= k < 16 ==> addresses[i].address@[k] == #[trigger] address[k] {
        assert(addresses[i].address@ =~= address);
    }
}

fn same_address(left: &[u8; 16], right: &[u8; 16]) -> (same: bool)
    ensures
        same == (left@ == right@),
{
    let mut i: usize = 0;
    while i < 16
        invariant
            i <= 16,
            forall|j: int| 0 <= j < i ==> left@[j] == right@[j],
        decreases 16 - i,
    {
        if left[i] != right[i] {
            return false;
        }
        i += 1;
    }
    assert(left@ =~= right@);
    true
}

/// Whether an IPv6 destination is for this host.
pub fn is_local_ipv6(interface: u32, addresses: &[NetStackLocalAddress], address: [u8; 16]) -> (local:
    bool)
    ensures
        local == local_ipv6(interface, addresses@, address@),
{
    if address[0] == 0xff {
        return true;
    }
    let mut i: usize = 0;
    while i < addresses.len()
        invariant
            i <= addresses@.len(),
            forall|k: int|
                0 <= k < i ==> !((#[trigger] addresses@[k]).interface == interface
                    && addresses@[k].family == Family::Ipv6 && addresses@[k].address@ == address@),
        decreases addresses@.len() - i,
    {
        let entry = &addresses[i];
        if entry.interface == interface && entry.family == Family::Ipv6 && same_address(
            &entry.address,
            &address,
        ) {
            return true;
        }
        i += 1;
    }
    false
}

} // verus!
