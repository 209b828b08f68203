//! Powers of two and alignment.

use vstd::prelude::*;

verus! {

/// Whether `x` is a power of two.
pub open spec fn power_of_two(x: int) -> bool
    decreases x,
{
    x == 1 || (x > 1 && x % 2 == 0 && power_of_two(x / 2))
}

/// Whether `a` is the least multiple of `alignment` that is not below `value`.
pub open spec fn is_aligned_up(value: int, alignment: int, a: int) -> bool {
    &&& a % alignment == 0
    &&& value <= a < value + alignment
}

/// Tests for a power of two.
pub fn is_power_of_two(x: u64) -> (result: bool)
    ensures
        result == power_of_two(x as int),
{
    if x == 0 {
        return false;
    }
    let mut rest: u64 = x;
    while rest % 2 == 0
        invariant
            rest > 0,
            power_of_two(rest as int) == power_of_two(x as int),
        decreases rest,
    {
        rest = rest / 2;
    }
    rest == 1
}

/// Rounds up to a multiple of `alignment`; `None` if that is past the end of
/// the number range.
pub fn align_up(value: u64, alignment: u64) -> (result: Option<u64>)
    requires
        alignment > 0,
    ensures
        match result {
            Some(a) => is_aligned_up(value as int, alignment as int, a as int) && value + alignment
                - 1 <= u64::MAX,
            None => value + alignment - 1 > u64::MAX,
        },
{
    match value.checked_add(alignment - 1) {
        Some(sum) => {
            let down: u64 = sum - sum % alignment;
            proof {
                lemma_round_down(sum as int, alignment as int);
            }
            Some(down)
        },
        None => None,
    }
}

/// Rounding down gives a multiple that is less than one step below.
pub proof fn lemma_round_down(value: int, alignment: int)
    requires
        alignment > 0,
        value >= 0,
    ensures
        (value - value % alignment) % alignment == 0,
        0 <= value - value % alignment <= value,
        value - alignment < value - value % alignment,
{
    vstd::arithmetic::div_mod::lemma_fundamental_div_mod(value, alignment);
    vstd::arithmetic::div_mod::lemma_mod_bound(value, alignment);
    let q = value / alignment;
    assert(value - value % alignment == alignment * q);
    assert(q >= 0) by (nonlinear_arith)
        requires
            q == value / alignment,
            value >= 0,
            alignment > 0,
    ;
    assert(alignment * q >= 0) by (nonlinear_arith)
        requires
            q >= 0,
            alignment > 0,
    ;
    vstd::arithmetic::div_mod::lemma_mod_multiples_basic(q, alignment);
    assert(q * alignment == alignment * q) by (nonlinear_arith);
}

/// No multiple lies between a value and the value rounded up.
pub proof fn lemma_aligned_up_is_least(value: int, alignment: int, a: int, b: int)
    requires
        alignment > 0,
        is_aligned_up(value, alignment, a),
        b % alignment == 0,
        b >= value,
    ensures
        b >= a,
{
    if b < a {
        let d = a - b;
        assert(d % alignment == 0) by {
            vstd::arithmetic::div_mod::lemma_sub_mod_noop(a, b, alignment);
            vstd::arithmetic::div_mod::lemma_small_mod(0, alignment as nat);
        }
        assert(0 < d < alignment);
        vstd::arithmetic::div_mod::lemma_small_mod(d as nat, alignment as nat);
    }
}

proof fn lemma_power_has_exponent(x: int) -> (exponent: nat)
    requires
        power_of_two(x),
    ensures
        vstd::arithmetic::power2::pow2(exponent) == x,
    decreases x,
{
    if x == 1 {
        vstd::arithmetic::power2::lemma2_to64();
        0
    } else {
        let half = lemma_power_has_exponent(x / 2);
        vstd::arithmetic::power2::lemma_pow2_unfold(half + 1);
        half + 1
    }
}

/// A power of two that fits 64 bits divides 2 to the 64.
pub proof fn lemma_power_divides_range(x: int)
    requires
        power_of_two(x),
        x <= u64::MAX,
    ensures
        0x1_0000_0000_0000_0000int % x == 0,
{
    let exponent = lemma_power_has_exponent(x);
    vstd::arithmetic::power2::lemma2_to64();
    vstd::arithmetic::power2::lemma2_to64_rest();
    if exponent > 64 {
        vstd::arithmetic::power2::lemma_pow2_strictly_increases(64, exponent);
    }
    let rest = vstd::arithmetic::power2::pow2((64 - exponent) as nat) as int;
    vstd::arithmetic::power2::lemma_pow2_adds(exponent, (64 - exponent) as nat);
    assert(rest * x == x * rest) by (nonlinear_arith);
    assert(rest * x == 0x1_0000_0000_0000_0000int);
    vstd::arithmetic::div_mod::lemma_mod_multiples_basic(rest, x);
}

/// Where rounding up leaves the 64-bit range, no multiple is left below its
/// end.
pub proof fn lemma_no_multiple_left(from: int, alignment: int, start: int)
    requires
        power_of_two(alignment),
        alignment <= u64::MAX,
        from + alignment - 1 > u64::MAX,
        from <= start,
        start % alignment == 0,
    ensures
        start > u64::MAX,
{
    if start <= u64::MAX {
        lemma_power_divides_range(alignment);
        let top = 0x1_0000_0000_0000_0000int;
        vstd::arithmetic::div_mod::lemma_sub_mod_noop(top, start, alignment);
        vstd::arithmetic::div_mod::lemma_small_mod(0, alignment as nat);
        let d = top - start;
        assert(d % alignment == 0);
        assert(0 < d < alignment);
        vstd::arithmetic::div_mod::lemma_small_mod(d as nat, alignment as nat);
    }
}

/// The granularities of bridge windows are powers of two.
pub proof fn lemma_bridge_granularities()
    ensures
        power_of_two(0x1000),
        power_of_two(0x10_0000),
{
    reveal_with_fuel(power_of_two, 22);
}

} // verus!
