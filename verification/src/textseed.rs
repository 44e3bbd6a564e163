//! Resolving the seed a caller hands in: empty text draws a fresh random
//! value, text that parses as an integer is used directly, and any other
//! text falls back to the deterministic hash.

use vstd::prelude::*;
use vstd::arithmetic::div_mod::*;
use vstd::string::StringSliceAdditionalSpecFns;
use rand::Rng;
use crate::hash::cyrb53;
use crate::hash::cyrb53_of;

verus! {

/// The numeric value of the decimal digit bytes `s`, taken as an empty
/// prefix plus digits folded in from the left; `None` where a byte is not a
/// digit or the value overflows a `u64`.
pub open spec fn digits_value(s: Seq<u8>) -> Option<u64>
    decreases s.len(),
{
    if s.len() == 0 {
        Option::Some(0u64)
    } else {
        let d = s.last();
        if d < 48 || d > 57 {
            Option::None
        } else {
            match digits_value(s.drop_last()) {
                Option::None => Option::None,
                Option::Some(v) => if v as int * 10 + (d as int - 48) <= 0xffffffffffffffff {
                    Option::Some((v as int * 10 + (d as int - 48)) as u64)
                } else {
                    Option::None
                },
            }
        }
    }
}

/// What parsing the bytes of a string as a `u64` accepts: an optional
/// leading plus sign, then at least one decimal digit, with a value that
/// fits.
pub open spec fn parsed_u64(s: Seq<u8>) -> Option<u64> {
    let digits = if s.len() > 0 && s[0] == 43 {
        s.subrange(1, s.len() as int)
    } else {
        s
    };
    if digits.len() == 0 {
        Option::None
    } else {
        digits_value(digits)
    }
}

/// A failed prefix of the digits fails the whole string.
proof fn lemma_digits_prefix_none(s: Seq<u8>, k: int)
    requires
        0 <= k <= s.len(),
        digits_value(s.subrange(0, k)) is None,
    ensures
        digits_value(s) is None,
    decreases s.len() - k,
{
    if k == s.len() {
        assert(s.subrange(0, k) =~= s);
    } else {
        assert(s.subrange(0, k + 1).drop_last() =~= s.subrange(0, k));
        lemma_digits_prefix_none(s, k + 1);
    }
}

/// Parses the text as a non-negative integer exactly as the standard
/// library does for a `u64`.
pub fn parse_u64_text(s: &str) -> (r: Option<u64>)
    ensures
        r == parsed_u64(s.spec_bytes()),
{
    let b = s.as_bytes();
    let n = b.len();
    let mut start: usize = 0;
    if n > 0 && b[0] == 43 {
        start = 1;
    }
    let ghost digits = if s.spec_bytes().len() > 0 && s.spec_bytes()[0] == 43 {
        s.spec_bytes().subrange(1, s.spec_bytes().len() as int)
    } else {
        s.spec_bytes()
    };
    if start >= n {
        return Option::None;
    }
    proof {
        assert(digits =~= s.spec_bytes().subrange(start as int, n as int));
    }
    let mut acc: u64 = 0;
    let mut i: usize = start;
    while i < n
        invariant
            start <= i <= n,
            n == b.len(),
            b@ == s.spec_bytes(),
            start == 1 || start == 0,
            start == 1 ==> n > 0 && s.spec_bytes()[0] == 43,
            start == 0 ==> !(n > 0 && s.spec_bytes()[0] == 43),
            digits =~= s.spec_bytes().subrange(start as int, n as int),
            digits_value(s.spec_bytes().subrange(start as int, i as int)) == Option::Some(acc),
        decreases n - i,
    {
        let d = b[i];
        let ghost sofar = s.spec_bytes().subrange(start as int, i as int);
        let ghost next = s.spec_bytes().subrange(start as int, i as int + 1);
        proof {
            assert(next.drop_last() =~= sofar);
            assert(next.last() == s.spec_bytes()[i as int]);
        }
        if d < 48 || d > 57 {
            proof {
                assert(digits_value(next) is None);
                assert(digits.subrange(0, i - start + 1) =~= next);
                lemma_digits_prefix_none(digits, i - start + 1);
                assert(digits_value(digits) is None);
                assert(s.spec_bytes().subrange(0, n as int) =~= s.spec_bytes());
                assert(parsed_u64(s.spec_bytes()) is None);
            }
            return Option::None;
        }
        let dv: u64 = (d - 48) as u64;
        if acc > (0xffffffffffffffffu64 - dv) / 10 {
            proof {
                lemma_fundamental_div_mod(0xffffffffffffffff - dv as int, 10);
                assert(acc as int * 10 + dv > 0xffffffffffffffff) by (nonlinear_arith)
                    requires
                        acc as int > (0xffffffffffffffff - dv as int) / 10,
                        0xffffffffffffffff - dv as int == 10 * ((0xffffffffffffffff - dv as int)
                            / 10) + (0xffffffffffffffff - dv as int) % 10,
                        (0xffffffffffffffff - dv as int) % 10 < 10,
                        (0xffffffffffffffff - dv as int) % 10 >= 0,
                        dv >= 0,
                ;
                assert(digits_value(next) is None);
                assert(digits.subrange(0, i - start + 1) =~= next);
                lemma_digits_prefix_none(digits, i - start + 1);
                assert(digits_value(digits) is None);
                assert(s.spec_bytes().subrange(0, n as int) =~= s.spec_bytes());
                assert(parsed_u64(s.spec_bytes()) is None);
            }
            return Option::None;
        }
        proof {
            lemma_fundamental_div_mod(0xffffffffffffffff - dv as int, 10);
            assert(acc as int * 10 + dv <= 0xffffffffffffffff) by (nonlinear_arith)
                requires
                    acc as int <= (0xffffffffffffffff - dv as int) / 10,
                    0xffffffffffffffff - dv as int == 10 * ((0xffffffffffffffff - dv as int) / 10)
                        + (0xffffffffffffffff - dv as int) % 10,
                    (0xffffffffffffffff - dv as int) % 10 >= 0,
                    dv >= 0,
            ;
        }
        acc = acc * 10 + dv;
        i = i + 1;
    }
    proof {
        assert(s.spec_bytes().subrange(start as int, n as int) =~= digits);
    }
    Option::Some(acc)
}

/// Relies on rand::thread_rng and rand::Rng::gen_range over the half-open
/// range 0..2147483646: the sampled value lies in that range, whatever the
/// thread-local generator returns.
#[verifier::external_body]
fn random_seed_value() -> (r: u64)
    ensures
        r < 2147483646,
{
    rand::thread_rng().gen_range(0..2147483646u64)
}

/// Resolves caller-supplied text into a numeric seed: empty text draws a
/// fresh random value below `2147483646`, text that parses as a `u64` is
/// used directly, and anything else hashes deterministically.
pub fn parse_seed(seed: &str) -> (r: u64)
    ensures
        seed@.len() == 0 ==> r < 2147483646,
        seed@.len() != 0 && parsed_u64(seed.spec_bytes()) is Some ==> Option::Some(r) == parsed_u64(
            seed.spec_bytes(),
        ),
        seed@.len() != 0 && parsed_u64(seed.spec_bytes()) is None ==> r == cyrb53_of(seed@),
{
    if seed.is_empty() {
        random_seed_value()
    } else {
        match parse_u64_text(seed) {
            Option::Some(v) => v,
            Option::None => cyrb53(seed),
        }
    }
}

} // verus!
