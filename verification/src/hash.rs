//! A deterministic 53-bit hash of arbitrary text: two 32-bit accumulators
//! fold in each character's code point by xor and a wrapping multiply, and
//! a final avalanche mix combines them.

use vstd::prelude::*;

verus! {

/// One character folded into an accumulator.
pub open spec fn fold_acc(h: u32, c: char, k: u32) -> u32 {
    (h ^ (c as u32)).wrapping_mul(k)
}

/// The two accumulators after folding in every character of `s`, starting
/// from the fixed initial constants.
pub open spec fn accs_of(s: Seq<char>) -> (u32, u32)
    decreases s.len(),
{
    if s.len() == 0 {
        (0xdeadbeefu32, 0x41c6ce57u32)
    } else {
        let prev = accs_of(s.drop_last());
        (fold_acc(prev.0, s.last(), 2654435761u32), fold_acc(prev.1, s.last(), 1597334677u32))
    }
}

/// The hash value of `s`: the accumulators avalanched and packed as
/// `low 21 bits of the second << 32 | the first`.
pub open spec fn cyrb53_of(s: Seq<char>) -> u64 {
    let accs = accs_of(s);
    let h1 = (accs.0 ^ (accs.0 >> 16u32)).wrapping_mul(2246822507u32) ^ (accs.1 ^ (accs.1
        >> 13u32)).wrapping_mul(3266489909u32);
    let h2 = (accs.1 ^ (accs.1 >> 16u32)).wrapping_mul(2246822507u32) ^ (h1 ^ (h1
        >> 13u32)).wrapping_mul(3266489909u32);
    (((2097151u32 & h2) as u64) << 32u64) | h1 as u64
}

/// Deterministic numeric seed derived from arbitrary text.
pub fn cyrb53(string: &str) -> (r: u64)
    ensures
        r == cyrb53_of(string@),
{
    let mut h1: u32 = 0xdeadbeef;
    let mut h2: u32 = 0x41c6ce57;
    for i in it: string.chars()
        invariant
            (h1, h2) == accs_of(it.seq().take(it.index() as int)),
    {
        let ch = i as u32;
        proof {
            let pre = it.seq().take(it.index() as int);
            let now = it.seq().take(it.index() as int + 1);
            assert(now.drop_last() =~= pre);
            assert(now.last() == it.seq()[it.index() as int]);
        }
        h1 = (h1 ^ ch).wrapping_mul(2654435761);
        h2 = (h2 ^ ch).wrapping_mul(1597334677);
    }
    proof {
        assert(string@.take(string@.len() as int) =~= string@);
    }
    h1 = (h1 ^ (h1 >> 16)).wrapping_mul(2246822507) ^ (h2 ^ (h2 >> 13)).wrapping_mul(3266489909);
    h2 = (h2 ^ (h2 >> 16)).wrapping_mul(2246822507) ^ (h1 ^ (h1 >> 13)).wrapping_mul(3266489909);
    ((2097151 & h2) as u64) << 32 | h1 as u64
}

} // verus!
