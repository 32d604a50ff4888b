//! The djb2 string hash.

use vstd::arithmetic::div_mod::{
    lemma_add_mod_noop, lemma_mod_add_multiples_vanish, lemma_mod_twice, lemma_small_mod,
};
use vstd::prelude::*;
use vstd::utf8::encode_utf8;

verus! {

/// The number of values a machine word can take, `2^W`.
pub open spec fn word_range() -> int {
    usize::MAX + 1
}

/// The djb2 hash of a byte sequence: start from 5381 and fold each byte `c`
/// in as `acc * 33 + c`, reduced modulo `2^W`.
pub open spec fn djb2(bytes: Seq<u8>) -> int
    decreases bytes.len(),
{
    if bytes.len() == 0 {
        5381
    } else {
        (djb2(bytes.drop_last()) * 33 + bytes.last()) % word_range()
    }
}

/// The hash of a string, taken over its UTF-8 bytes.
pub open spec fn hash_of(key: Seq<char>) -> int {
    djb2(encode_utf8(key))
}

/// Every hash is a machine word.
pub proof fn lemma_djb2_bounds(bytes: Seq<u8>)
    ensures
        0 <= djb2(bytes) <= usize::MAX,
    decreases bytes.len(),
{
    if bytes.len() > 0 {
        lemma_djb2_bounds(bytes.drop_last());
    }
}

/// The hash of a string is a machine word.
pub proof fn lemma_hash_of_bounds(key: Seq<char>)
    ensures
        0 <= hash_of(key) <= usize::MAX,
{
    lemma_djb2_bounds(encode_utf8(key));
}

/// One step of the hash in wrapping machine arithmetic equals the step of
/// `djb2` in unbounded arithmetic reduced modulo `2^W`.
proof fn lemma_wrapping_step(acc: usize, c: u8)
    ensures
        acc.wrapping_mul(33).wrapping_add(c as usize) == (acc * 33 + c) % word_range(),
{
    let r = word_range();
    let m = (acc * 33) % r;
    assert(acc.wrapping_mul(33) == m);
    assert((m + c) % r == (acc * 33 + c) % r) by {
        lemma_add_mod_noop(acc * 33, c as int, r);
        lemma_small_mod(c as nat, r as nat);
        lemma_mod_twice(acc * 33, r);
        lemma_add_mod_noop(m, c as int, r);
    }
    if m + c > usize::MAX {
        assert((m + c) % r == m + c - r) by {
            lemma_mod_add_multiples_vanish((m + c - r) as int, r);
            lemma_small_mod((m + c - r) as nat, r as nat);
        }
    } else {
        lemma_small_mod((m + c) as nat, r as nat);
    }
}

/// Types that can be hashed to a machine word.
pub trait Hashable {
    /// The hash as a mathematical function of the value.
    spec fn hash_value(&self) -> int;

    /// Computes the hash.
    fn hash(&self) -> (h: usize)
        ensures
            h == self.hash_value(),
    ;
}

impl Hashable for String {
    open spec fn hash_value(&self) -> int {
        hash_of(self@)
    }

    fn hash(&self) -> (h: usize) {
        let bytes = self.as_str().as_bytes();
        let mut result: usize = 5381;
        let mut i: usize = 0;
        while i < bytes.len()
            invariant
                i <= bytes.len(),
                bytes@ == encode_utf8(self@),
                result == djb2(bytes@.take(i as int)),
            decreases bytes.len() - i,
        {
            let c: u8 = bytes[i];
            proof {
                let next = bytes@.take(i + 1);
                assert(next.drop_last() =~= bytes@.take(i as int));
                assert(next.last() == c);
                lemma_wrapping_step(result, c);
            }
            result = result.wrapping_mul(33).wrapping_add(c as usize);
            i += 1;
        }
        proof {
            assert(bytes@.take(i as int) =~= bytes@);
        }
        result
    }
}

} // verus!
