//! Names of devices.

use vstd::prelude::*;

verus! {

/// A number in decimal digits.
pub open spec fn decimal(value: nat) -> Seq<char>
    decreases value,
{
    if value < 10 {
        seq![(48 + value) as char]
    } else {
        decimal(value / 10).push((48 + value % 10) as char)
    }
}

/// Appends a number in decimal digits.
pub fn push_decimal(text: &mut Vec<char>, value: u32)
    ensures
        final(text)@ == old(text)@ + decimal(value as nat),
    decreases value,
{
    let ghost before = text@;
    if value >= 10 {
        push_decimal(text, value / 10);
    }
    text.push((48 + (value % 10) as u8) as char);
    assert(text@ =~= before + decimal(value as nat));
}

/// Appends a text.
pub fn push_text(text: &mut Vec<char>, part: &str)
    ensures
        final(text)@ == old(text)@ + part@,
{
    let ghost before = text@;
    let count: usize = part.unicode_len();
    let mut i: usize = 0;
    assert(before + part@.take(0) =~= before);
    while i < count
        invariant
            i <= count,
            count == part@.len(),
            text@ == before + part@.take(i as int),
        decreases count - i,
    {
        text.push(part.get_char(i));
        i += 1;
        assert(text@ =~= before + part@.take(i as int));
    }
    assert(part@.take(count as int) =~= part@);
}

/// A name that ends in a number.
pub fn numbered(start: &str, number: u32) -> (name: Vec<char>)
    ensures
        name@ == start@ + decimal(number as nat),
{
    let mut name: Vec<char> = Vec::new();
    push_text(&mut name, start);
    push_decimal(&mut name, number);
    assert(name@ =~= start@ + decimal(number as nat));
    name
}

/// No two numbers have the same digits.
pub proof fn decimals_are_distinct(first: nat, second: nat)
    requires
        first != second,
    ensures
        decimal(first) != decimal(second),
    decreases first,
{
    lemma_digits(first);
    lemma_digits(second);
    if decimal(first) == decimal(second) {
        if first >= 10 && second >= 10 && first / 10 != second / 10 {
            decimals_are_distinct(first / 10, second / 10);
        }
    }
}

proof fn lemma_digits(value: nat)
    ensures
        decimal(value).len() >= 1,
        decimal(value).last() as int == 48 + value % 10,
        value >= 10 ==> decimal(value).len() >= 2 && decimal(value).drop_last() == decimal(
            value / 10,
        ),
        value < 10 ==> decimal(value).len() == 1,
    decreases value,
{
    if value >= 10 {
        lemma_digits(value / 10);
        assert(decimal(value).drop_last() =~= decimal(value / 10));
    }
}

/// Names with one beginning differ where their numbers do.
pub proof fn numbered_are_distinct(start: Seq<char>, first: nat, second: nat)
    requires
        first != second,
    ensures
        start + decimal(first) != start + decimal(second),
{
    decimals_are_distinct(first, second);
    assert((start + decimal(first)).skip(start.len() as int) =~= decimal(first));
    assert((start + decimal(second)).skip(start.len() as int) =~= decimal(second));
}

} // verus!
