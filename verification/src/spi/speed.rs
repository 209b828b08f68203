//! How fast the bus is clocked.

use vstd::prelude::*;
use crate::port::{Access, Exchange};
use crate::spi::master;

verus! {

/// By how much a code of the registers divides the clock.
pub open spec fn divides_by(code: int) -> int {
    if code == 0 {
        2
    } else if code == 1 {
        4
    } else if code == 4 {
        8
    } else if code == 2 {
        16
    } else if code == 3 {
        32
    } else if code == 5 {
        64
    } else if code == 6 {
        128
    } else if code == 7 {
        256
    } else if code == 8 {
        512
    } else if code == 9 {
        1024
    } else if code == 10 {
        2048
    } else {
        4096
    }
}

/// The code that two registers hold together.
pub open spec fn code_in(spcr: u8, sper: u8) -> int {
    spcr as int % 4 + sper as int % 4 * 4
}

proof fn lemma_bits(value: u8, part: u8)
    by (bit_vector)
    requires
        part < 4,
    ensures
        ((value & 0xfc) | part) % 4 == part,
        ((value & 0xfc) | part) / 4 == value / 4,
{
}

/// A power of two.
spec fn doubled(k: int) -> int
    decreases k,
{
    if k <= 0 {
        1
    } else {
        2 * doubled(k - 1)
    }
}

proof fn lemma_length(n: int)
    requires
        1 <= n,
    ensures
        master::bit_length(n) >= 1,
        doubled(master::bit_length(n) - 1) <= n < doubled(master::bit_length(n)),
    decreases n,
{
    if n > 1 {
        lemma_length(n / 2);
    } else {
        assert(master::bit_length(0) == 0);
    }
}

proof fn lemma_order(k: int, l: int)
    requires
        0 <= k < l,
    ensures
        doubled(k) < doubled(l),
    decreases l,
{
    lemma_positive(k);
    if k < l - 1 {
        lemma_order(k, l - 1);
    }
}

proof fn lemma_positive(k: int)
    ensures
        doubled(k) >= 1,
    decreases k,
{
    if k > 0 {
        lemma_positive(k - 1);
    }
}

/// The code for a number divides by more than it, and by at most four times of it.
proof fn lemma_code(n: int)
    requires
        1 <= n < 2048,
    ensures
        ({
            let d = divides_by(master::divider_code(master::bit_length(n)) as int);
            &&& 2 * n < d
            &&& d <= 4 * n
        }),
{
    let b = master::bit_length(n);
    lemma_length(n);
    assert(doubled(11) == 2048) by {
        reveal_with_fuel(doubled, 13);
    }
    if b > 11 {
        if b - 1 > 11 {
            lemma_order(11, b - 1);
        }
        assert(false);
    }
    reveal_with_fuel(doubled, 13);
    assert(b == 1 || b == 2 || b == 3 || b == 4 || b == 5 || b == 6 || b == 7 || b == 8 || b == 9
        || b == 10 || b == 11);
}

/// The bus is no faster than it is asked to be, and at least a quarter as fast if it is not
/// held at a quarter of its clock; nothing else of its registers changes.
pub proof fn bus_is_no_faster_than_asked(
    spcr: u8,
    sper: u8,
    clk_rate: u64,
    hz: u32,
    trace: Seq<Exchange>,
)
    requires
        clk_rate > 0,
        hz > 0,
        clk_rate <= 2048 * hz,
        master::speed_set(spcr, sper, clk_rate, hz, trace),
    ensures
        trace.len() == 4,
        match (trace[1].access, trace[3].access) {
            (Access::Write8(0, first), Access::Write8(3, second)) => {
                let d = divides_by(code_in(first, second));
                &&& d * hz >= clk_rate
                &&& d == 4 || d / 4 * hz < clk_rate
                &&& first as int / 4 == trace[0].reply as int / 4
                &&& second as int / 4 == trace[2].reply as int / 4
            },
            _ => false,
        },
{
    let code = master::clock_code(clk_rate as int, hz as int);
    lemma_bits(spcr, (code % 4) as u8);
    lemma_bits(sper, (code / 4 % 4) as u8);
    let rounded = (clk_rate + hz - 1) / hz as int;
    assert(rounded * hz >= clk_rate && (rounded - 1) * hz < clk_rate && 1 <= rounded <= 2048)
        by (nonlinear_arith)
        requires
            rounded == (clk_rate + hz - 1) / hz as int,
            0 < clk_rate <= 2048 * hz,
            hz > 0,
    ;
    let div = master::divider(clk_rate as int, hz as int);
    let d = divides_by(code as int);
    lemma_code(div - 1);
    assert(d * hz >= clk_rate) by (nonlinear_arith)
        requires
            d >= rounded,
            rounded * hz >= clk_rate,
            hz > 0,
    ;
    if d != 4 {
        assert(d / 4 * hz < clk_rate) by (nonlinear_arith)
            requires
                d / 4 <= rounded - 1,
                (rounded - 1) * hz < clk_rate,
                hz > 0,
        ;
    }
}

} // verus!
