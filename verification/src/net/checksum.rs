//! The Internet checksum (RFC 1071).

use vstd::prelude::*;

verus! {

/// The sum of the 16-bit big-endian words of `bytes`; an odd last byte counts
/// as the high half of a word.
pub open spec fn word_sum(bytes: Seq<u8>) -> nat
    decreases bytes.len(),
{
    if bytes.len() == 0 {
        0
    } else if bytes.len() == 1 {
        (bytes[0] * 0x100) as nat
    } else {
        (bytes[0] * 0x100 + bytes[1]) as nat + word_sum(bytes.skip(2))
    }
}

/// The one's-complement 16-bit value that a sum folds to.
pub open spec fn folded(sum: nat) -> nat {
    if sum == 0 {
        0
    } else {
        ((sum - 1) as nat % 0xffff) + 1
    }
}

/// The Internet checksum of `bytes`.
pub open spec fn checksum_of(bytes: Seq<u8>) -> u16 {
    (0xffff - folded(word_sum(bytes))) as u16
}

/// Whether `bytes`, its checksum field included, carries a right checksum.
pub open spec fn checksum_holds(bytes: Seq<u8>) -> bool {
    word_sum(bytes) > 0 && word_sum(bytes) % 0xffff == 0
}

proof fn lemma_fold_step(sum: u64)
    requires
        sum >= 0x1_0000,
    ensures
        folded((sum % 0x1_0000 + sum / 0x1_0000) as nat) == folded(sum as nat),
        sum % 0x1_0000 + sum / 0x1_0000 < sum,
        sum % 0x1_0000 + sum / 0x1_0000 > 0,
{
    let low = (sum % 0x1_0000) as int;
    let high = (sum / 0x1_0000) as int;
    assert(sum == high * 0x1_0000 + low);
    assert((high * 0xffff + (low + high - 1)) % 0xffff == (low + high - 1) % 0xffff) by {
        vstd::arithmetic::div_mod::lemma_mod_multiples_vanish(high, low + high - 1, 0xffff);
    }
}

/// Folds a sum to its checksum.
fn fold_complement(sum: u64) -> (result: u16)
    ensures
        result == 0xffff - folded(sum as nat),
{
    let mut rest: u64 = sum;
    while rest / 0x1_0000 != 0
        invariant
            folded(rest as nat) == folded(sum as nat),
        decreases rest,
    {
        proof {
            lemma_fold_step(rest);
        }
        rest = rest % 0x1_0000 + rest / 0x1_0000;
    }
    0xffffu16 - (rest as u16)
}

proof fn lemma_word_sum_bound(bytes: Seq<u8>)
    ensures
        word_sum(bytes) <= 0xffff * bytes.len(),
    decreases bytes.len(),
{
    if bytes.len() >= 2 {
        lemma_word_sum_bound(bytes.skip(2));
    }
}

proof fn lemma_word_sum_concat(front: Seq<u8>, back: Seq<u8>)
    requires
        front.len() % 2 == 0,
    ensures
        word_sum(front + back) == word_sum(front) + word_sum(back),
    decreases front.len(),
{
    if front.len() == 0 {
        assert(front + back =~= back);
    } else {
        assert((front + back).skip(2) =~= front.skip(2) + back);
        lemma_word_sum_concat(front.skip(2), back);
    }
}

/// The checksum of one contiguous range.
pub fn checksum(bytes: &[u8]) -> (result: u16)
    requires
        bytes@.len() <= 0xffff_ffff_ffff,
    ensures
        result == checksum_of(bytes@),
{
    let mut state = InternetChecksum::new();
    state.add(bytes);
    proof {
        assert(Seq::<u8>::empty() + bytes@ =~= bytes@);
    }
    state.finish()
}

/// A checksum over several ranges, one after the other.
#[derive(Clone, Copy)]
pub struct InternetChecksum {
    sum: u64,
    pending: Option<u8>,
    fed: Ghost<Seq<u8>>,
}

impl InternetChecksum {
    /// All bytes that went into the checksum so far, in order.
    pub closed spec fn fed(&self) -> Seq<u8> {
        self.fed@
    }

    /// The running sum covers the even prefix; an odd last byte is pending.
    pub closed spec fn wf(&self) -> bool {
        let fed = self.fed@;
        &&& fed.len() <= 0xffff_ffff_ffff
        &&& match self.pending {
            Some(high) => fed.len() % 2 == 1 && fed.last() == high && self.sum == word_sum(
                fed.drop_last(),
            ),
            None => fed.len() % 2 == 0 && self.sum == word_sum(fed),
        }
    }

    /// An empty checksum.
    pub fn new() -> (state: Self)
        ensures
            state.wf(),
            state.fed() == Seq::<u8>::empty(),
    {
        InternetChecksum { sum: 0, pending: None, fed: Ghost(Seq::empty()) }
    }

    /// Adds a range behind those that were added before.
    pub fn add(&mut self, bytes: &[u8])
        requires
            old(self).wf(),
            old(self).fed().len() + bytes@.len() <= 0xffff_ffff_ffff,
        ensures
            final(self).wf(),
            final(self).fed() == old(self).fed() + bytes@,
    {
        let ghost before = self.fed@;
        let len: usize = bytes.len();
        let mut at: usize = 0;
        let mut sum: u64 = self.sum;
        if let Some(high) = self.pending {
            if len == 0 {
                assert(before + bytes@ =~= before);
                return ;
            }
            proof {
                lemma_word_sum_bound(before.drop_last());
                let pair = seq![high, bytes@[0]];
                assert(pair.skip(2) =~= Seq::<u8>::empty());
                assert(before + bytes@.take(1) =~= before.drop_last() + pair);
                lemma_word_sum_concat(before.drop_last(), pair);
                reveal_with_fuel(word_sum, 2);
            }
            sum = sum + (high as u64) * 0x100 + bytes[0] as u64;
            at = 1;
        }
        assert(before + bytes@.take(0) =~= before);
        while len - at >= 2
            invariant
                at <= len,
                len == bytes@.len(),
                before.len() + len <= 0xffff_ffff_ffff,
                (before.len() + at) % 2 == 0,
                sum == word_sum(before + bytes@.take(at as int)),
            decreases len - at,
        {
            proof {
                let pair = seq![bytes@[at as int], bytes@[at + 1]];
                let front = before + bytes@.take(at as int);
                assert(pair.skip(2) =~= Seq::<u8>::empty());
                assert(before + bytes@.take(at + 2) =~= front + pair);
                lemma_word_sum_concat(front, pair);
                lemma_word_sum_bound(front);
                reveal_with_fuel(word_sum, 2);
            }
            sum = sum + (bytes[at] as u64) * 0x100 + bytes[at + 1] as u64;
            at = at + 2;
        }
        self.sum = sum;
        self.fed = Ghost(before + bytes@);
        if at < len {
            self.pending = Some(bytes[at]);
            assert((before + bytes@).drop_last() =~= before + bytes@.take(at as int));
        } else {
            self.pending = None;
            assert(bytes@.take(at as int) =~= bytes@);
        }
    }

    /// The checksum of everything that was added.
    pub fn finish(self) -> (result: u16)
        requires
            self.wf(),
        ensures
            result == checksum_of(self.fed()),
    {
        let ghost fed = self.fed@;
        match self.pending {
            Some(high) => {
                proof {
                    let last = seq![high];
                    assert(fed =~= fed.drop_last() + last);
                    lemma_word_sum_concat(fed.drop_last(), last);
                    lemma_word_sum_bound(fed.drop_last());
                }
                fold_complement(self.sum + (high as u64) * 0x100)
            },
            None => fold_complement(self.sum),
        }
    }
}

/// A checksum of zero says that the words add up to a positive multiple of
/// `0xffff`, which is what a receiver looks for.
pub proof fn zero_checksum_is_valid(bytes: Seq<u8>)
    ensures
        checksum_of(bytes) == 0 <==> checksum_holds(bytes),
{
    let sum = word_sum(bytes);
    if sum > 0 {
        assert((sum - 1) % 0xffff == 0xfffe <==> sum % 0xffff == 0);
    }
}

/// Cutting the input in two at an even place does not change the checksum.
pub proof fn checksum_splits(front: Seq<u8>, back: Seq<u8>)
    requires
        front.len() % 2 == 0,
    ensures
        checksum_of(front + back) == (0xffff - folded(word_sum(front) + word_sum(back))) as u16,
{
    lemma_word_sum_concat(front, back);
}

/// A message whose checksum field holds the checksum of the rest is valid.
pub proof fn stored_checksum_is_valid(front: Seq<u8>, back: Seq<u8>)
    requires
        front.len() % 2 == 0,
        word_sum(front) + word_sum(back) > 0,
    ensures
        ({
            let sum = (word_sum(front) + word_sum(back)) as nat;
            let field = (0xffff - folded(sum)) as u16;
            checksum_holds(front + crate::bytes::be16_bytes(field) + back)
        }),
{
    let sum = (word_sum(front) + word_sum(back)) as nat;
    let field = (0xffff - folded(sum)) as u16;
    let stored = crate::bytes::be16_bytes(field);
    assert(stored.skip(2) =~= Seq::<u8>::empty());
    reveal_with_fuel(word_sum, 2);
    assert(word_sum(stored) == field);
    lemma_word_sum_concat(front + stored, back);
    lemma_word_sum_concat(front, stored);
    assert((sum - 1) % 0xffff + 1 + field == 0xffff);
    assert((sum + field) % 0xffff == 0);
}

} // verus!
