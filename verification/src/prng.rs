//! The pseudo-random sequence: a multiplicative linear congruential
//! generator modulo the Mersenne prime `2^31 - 1` with multiplier `16807`
//! (the Park-Miller "minimal standard" generator).
//!
//! Bounded integers are derived from a draw by mapping the state into the
//! unit interval as an IEEE double, multiplying by the bound and
//! truncating.  That double arithmetic is a pure function of the draw and
//! the bound, and `draw_int_of` reproduces it bit for bit with integer
//! arithmetic: it rounds `(n-1)/2147483646` to 53 significant bits (round
//! to nearest, ties to even), multiplies by the bound, rounds again, and
//! truncates.

use vstd::prelude::*;
use vstd::arithmetic::power2::*;
use vstd::arithmetic::div_mod::*;

verus! {

/// The modulus of the generator: the Mersenne prime `2^31 - 1`.
pub const MODULUS: u64 = 2147483647;

/// The multiplier of the generator.
pub const MULTIPLIER: u64 = 16807;

/// One step of the generator: `s * 16807 mod (2^31 - 1)`.
pub open spec fn next_of(s: u64) -> u64 {
    ((s as int * 16807) % 2147483647) as u64
}

/// The normalized initial state for a requested seed: the seed modulo
/// `2^31 - 1`, with `0` replaced by `2^31 - 1` itself.
pub open spec fn init_state_of(seed: u64) -> u64 {
    if seed as int % 2147483647 == 0 {
        2147483647u64
    } else {
        (seed as int % 2147483647) as u64
    }
}

/// The denominator that maps a draw into the unit interval: `MODULUS - 1`.
pub const SPAN: u64 = 2147483646;

/// The smallest `s >= 1` with `a * 2^s >= 2147483646`, for `1 <= a < 2147483646`:
/// the draw fraction `a / 2147483646` then lies in `[2^-s, 2^-s+1)`.
pub open spec fn shift_for(a: int) -> nat
    recommends
        1 <= a < 2147483646,
    decreases 2147483646 - a,
{
    if a < 1 || a >= 2147483646 {
        1
    } else if 2 * a >= 2147483646 {
        1
    } else {
        (1 + shift_for(2 * a)) as nat
    }
}

/// `num / den` rounded to the nearest integer, ties to even.
pub open spec fn rhe(num: int, den: int) -> int
    recommends
        den >= 1,
        num >= 0,
{
    let q = num / den;
    let r = num % den;
    if 2 * r > den {
        q + 1
    } else if 2 * r < den {
        q
    } else {
        q + (q % 2)
    }
}

/// The number of binary digits of `t`: the unique `b` with `2^(b-1) <= t < 2^b`
/// (and `0` for `t < 1`).
pub open spec fn bitlen(t: int) -> nat
    decreases t,
{
    if t < 1 {
        0
    } else {
        (1 + bitlen(t / 2)) as nat
    }
}

/// The bounded integer that the double-precision path derives from a draw
/// `n` and a bound `m`: round `(n-1)/2147483646` to a 53-bit significand (its
/// value is `mant * 2^-(s+52)`), multiply by `m`, round the product to 53
/// significant bits again, and truncate.  A draw of `0` maps below zero and
/// truncates to `0`.
pub open spec fn draw_int_of(n: u64, m: u32) -> u32 {
    if n <= 1 || m == 0 {
        0u32
    } else {
        let a = n - 1;
        let s = shift_for(a as int);
        let mant = rhe(a * pow2((52 + s) as nat), 2147483646);
        let t = mant * m;
        let bl = bitlen(t);
        if bl <= 53 {
            (t / pow2((s + 52) as nat) as int) as u32
        } else {
            let k = (bl - 53) as nat;
            let tt = rhe(t, pow2(k) as int);
            (tt / pow2((s + 52 - k) as nat) as int) as u32
        }
    }
}

/// Round-to-nearest cannot overshoot by more than half the divisor.
proof fn lemma_rhe_upper(num: int, den: int)
    requires
        den >= 1,
        num >= 0,
    ensures
        2 * rhe(num, den) * den <= 2 * num + den,
        rhe(num, den) >= 0,
{
    let q = num / den;
    let r = num % den;
    lemma_fundamental_div_mod(num, den);
    lemma_div_pos_is_pos(num, den);
    if 2 * r > den {
        assert(2 * (q + 1) * den <= 2 * num + den) by (nonlinear_arith)
            requires
                num == den * q + r,
                2 * r > den,
                den >= 1,
        ;
    } else if 2 * r < den {
        assert(2 * q * den <= 2 * num + den) by (nonlinear_arith)
            requires
                num == den * q + r,
                r >= 0,
                den >= 1,
        ;
    } else {
        assert(2 * (q + q % 2) * den <= 2 * num + den) by (nonlinear_arith)
            requires
                num == den * q + r,
                2 * r == den,
                q % 2 <= 1,
                den >= 1,
        ;
    }
}

/// Executable form of `rhe`.
fn rhe_u128(num: u128, den: u128) -> (r: u128)
    requires
        1 <= den,
        num < 0xffffffffffffffffffffffffffffffff,
    ensures
        r as int == rhe(num as int, den as int),
{
    let q: u128 = num / den;
    let rem: u128 = num % den;
    proof {
        lemma_fundamental_div_mod(num as int, den as int);
        assert(q <= num) by (nonlinear_arith)
            requires
                num as int == den as int * q as int + rem as int,
                rem >= 0,
                den >= 1,
                q >= 0,
        ;
    }
    if rem > den - rem {
        q + 1
    } else if rem < den - rem {
        q
    } else {
        q + q % 2
    }
}

/// Executable `2^e`.
fn pow2_u128(e: usize) -> (r: u128)
    requires
        e <= 120,
    ensures
        r as int == pow2(e as nat),
{
    proof {
        lemma2_to64();
        lemma2_to64_rest();
        lemma_pow2_adds(60, 60);
    }
    let mut r: u128 = 1;
    let mut i: usize = 0;
    while i < e
        invariant
            i <= e,
            e <= 120,
            r as int == pow2(i as nat),
            pow2(120) == 0x1000000000000000000000000000000,
        decreases e - i,
    {
        proof {
            if (i as nat) < 120 {
                lemma_pow2_strictly_increases(i as nat, 120);
            }
            lemma_pow2_unfold((i + 1) as nat);
        }
        r = r * 2;
        i = i + 1;
    }
    proof {
        lemma2_to64();
    }
    r
}

/// The loop-computed shift is the specified one.
proof fn lemma_shift_for_char(a: int, s: nat)
    requires
        1 <= a < 2147483646,
        1 <= s,
        a * pow2(s) >= 2147483646,
        a * pow2((s - 1) as nat) < 2147483646,
    ensures
        s == shift_for(a),
    decreases s,
{
    lemma2_to64();
    if 2 * a >= 2147483646 {
        if s >= 2 {
            lemma_pow2_strictly_increases(0, (s - 1) as nat);
            assert(a * pow2((s - 1) as nat) >= 2 * a) by (nonlinear_arith)
                requires
                    a >= 1,
                    pow2((s - 1) as nat) >= 2,
            ;
        }
    } else {
        if s == 1 {
            assert(a * pow2(1) == 2 * a) by (nonlinear_arith)
                requires
                    pow2(1) == 2,
            ;
            assert(false);
        } else {
            lemma_pow2_unfold(s);
            assert((2 * a) * pow2((s - 1) as nat) == a * pow2(s)) by (nonlinear_arith)
                requires
                    pow2(s) == 2 * pow2((s - 1) as nat),
            ;
            if s >= 2 {
                lemma_pow2_unfold((s - 1) as nat);
                assert((2 * a) * pow2((s - 2) as nat) == a * pow2((s - 1) as nat))
                    by (nonlinear_arith)
                    requires
                        pow2((s - 1) as nat) == 2 * pow2((s - 2) as nat),
                ;
            }
            lemma_shift_for_char(2 * a, (s - 1) as nat);
        }
    }
}

/// The loop-computed bit count is the specified one.
proof fn lemma_bitlen_char(t: int, b: nat)
    requires
        t >= 1,
        b >= 1,
        pow2((b - 1) as nat) <= t < pow2(b),
    ensures
        b == bitlen(t),
    decreases b,
{
    lemma2_to64();
    if b == 1 {
        assert(bitlen(1) == 1) by {
            assert(bitlen(0) == 0);
        }
    } else {
        lemma_pow2_unfold(b);
        lemma_pow2_unfold((b - 1) as nat);
        lemma_fundamental_div_mod(t, 2);
        assert(pow2((b - 2) as nat) <= t / 2 < pow2((b - 1) as nat)) by (nonlinear_arith)
            requires
                pow2(b) == 2 * pow2((b - 1) as nat),
                pow2((b - 1) as nat) == 2 * pow2((b - 2) as nat),
                pow2((b - 1) as nat) <= t < pow2(b),
                t % 2 < 2,
                t % 2 >= 0,
                t == 2 * (t / 2) + t % 2,
        ;
        lemma_bitlen_char(t / 2, (b - 1) as nat);
    }
}

/// Derives the bounded integer of a draw `n` exactly as the
/// double-precision path of `draw_int_of` prescribes, in integer
/// arithmetic.
#[verifier::rlimit(60)]
fn draw_int_from(n: u64, m: u32) -> (r: u32)
    requires
        n <= SPAN,
    ensures
        r == draw_int_of(n, m),
        m > 0 ==> r < m,
        m == 0 ==> r == 0,
{
    if n <= 1 || m == 0 {
        return 0;
    }
    let a: u64 = n - 1;
    proof {
        lemma2_to64();
        lemma2_to64_rest();
        assert(a as int * pow2(0) == a) by (nonlinear_arith)
            requires
                pow2(0) == 1,
        ;
        assert(2 * a as int == a as int * pow2(1)) by (nonlinear_arith)
            requires
                pow2(1) == 2,
        ;
    }
    // the exponent: the smallest s >= 1 with a * 2^s >= 2147483646
    let mut s: usize = 1;
    let mut v: u64 = a * 2;
    while v < 2147483646
        invariant
            1 <= a <= 2147483645,
            1 <= s <= 31,
            v as int == a as int * pow2(s as nat),
            a as int * pow2((s - 1) as nat) < 2147483646,
            pow2(31) == 0x80000000,
        decreases 31 - s,
    {
        proof {
            lemma_pow2_pos(s as nat);
            lemma_pow2_unfold((s + 1) as nat);
            assert(a as int * pow2((s + 1) as nat) == 2 * (a as int * pow2(s as nat)))
                by (nonlinear_arith)
                requires
                    pow2((s + 1) as nat) == 2 * pow2(s as nat),
            ;
            assert(pow2(s as nat) <= v as int) by (nonlinear_arith)
                requires
                    a >= 1,
                    v as int == a as int * pow2(s as nat),
                    pow2(s as nat) >= 0,
            ;
            if s >= 31 {
                if s > 31 {
                    lemma_pow2_strictly_increases(31, s as nat);
                }
                assert(false);
            }
        }
        v = v * 2;
        s = s + 1;
    }
    proof {
        lemma_shift_for_char(a as int, s as nat);
        lemma_pow2_adds(42, 42);
        lemma_pow2_strictly_increases((52 + s) as nat, 84);
    }
    let p_mant: u128 = pow2_u128(52 + s);
    proof {
        assert((a as u128) as int * p_mant as int <= 2147483645 * pow2(84)) by (nonlinear_arith)
            requires
                a <= 2147483645,
                p_mant as int <= pow2(84),
                p_mant >= 0,
                a >= 1,
        ;
    }
    let num: u128 = (a as u128) * p_mant;
    let mant: u128 = rhe_u128(num, 2147483646);
    let ghost pp = pow2((s + 52) as nat) as int;
    let ghost qq = pow2((s - 1) as nat) as int;
    proof {
        lemma_rhe_upper(num as int, 2147483646);
        lemma_pow2_adds(53, (s - 1) as nat);
        lemma_pow2_adds(1, (s - 1) as nat);
        lemma_pow2_pos((s - 1) as nat);
        // mant <= pp - qq, hence mant < pp and mant < 2^53
        assert(mant as int <= pp - qq) by (nonlinear_arith)
            requires
                2 * mant as int * 2147483646 <= 2 * num as int + 2147483646,
                num as int == a as int * pp,
                a <= 2147483645,
                pp == 0x20000000000000 * qq,
                qq >= 1,
                mant >= 0,
        ;
        assert((a as int) * pow2(s as nat) <= 2 * 2147483645) by (nonlinear_arith)
            requires
                (a as int) * pow2((s - 1) as nat) < 2147483646,
                pow2(s as nat) == 2 * pow2((s - 1) as nat),
        ;
        assert((mant as int) < 0x20000000000000) by (nonlinear_arith)
            requires
                2 * mant as int * 2147483646 <= 2 * num as int + 2147483646,
                num as int == a as int * pp,
                pp == 0x20000000000000 * qq,
                a as int * pow2(s as nat) <= 2 * 2147483645,
                pow2(s as nat) == 2 * qq,
                qq >= 1,
                a >= 1,
                mant >= 0,
        ;
        lemma_pow2_adds(53, 32);
        assert((mant as int) * (m as int) < pow2(85)) by (nonlinear_arith)
            requires
                (mant as int) < 0x20000000000000,
                m < 0x100000000,
                pow2(85) == 0x20000000000000 * 0x100000000,
                mant >= 0,
                m >= 1,
        ;
    }
    let t: u128 = mant * (m as u128);
    // the number of binary digits of the once-rounded product
    let mut bl: usize = 0;
    let mut w: u128 = t;
    while w >= 1
        invariant
            w as int == t as int / (pow2(bl as nat) as int),
            bl == 0 ==> w == t,
            bl >= 1 ==> pow2((bl - 1) as nat) <= t as int,
            (t as int) < pow2(85),
            bl <= 85,
        decreases w,
    {
        proof {
            lemma_pow2_pos(bl as nat);
            lemma_fundamental_div_mod(t as int, pow2(bl as nat) as int);
            assert(pow2(bl as nat) <= t as int) by (nonlinear_arith)
                requires
                    t as int == pow2(bl as nat) * (t as int / (pow2(bl as nat) as int)) + t as int % (pow2(bl as nat) as int),
                    t as int % (pow2(bl as nat) as int) >= 0,
                    t as int / (pow2(bl as nat) as int) >= 1,
                    pow2(bl as nat) >= 1,
            ;
            if bl >= 85 {
                if bl > 85 {
                    lemma_pow2_strictly_increases(85, bl as nat);
                }
                assert(false);
            }
            lemma_pow2_unfold((bl + 1) as nat);
            lemma_div_denominator(t as int, pow2(bl as nat) as int, 2);
        }
        w = w / 2;
        bl = bl + 1;
    }
    proof {
        lemma_pow2_pos(bl as nat);
        lemma_fundamental_div_mod(t as int, pow2(bl as nat) as int);
        assert((t as int) < pow2(bl as nat)) by (nonlinear_arith)
            requires
                t as int == pow2(bl as nat) * (t as int / (pow2(bl as nat) as int)) + t as int % (pow2(bl as nat) as int),
                t as int % (pow2(bl as nat) as int) < pow2(bl as nat),
                t as int / (pow2(bl as nat) as int) == 0,
                pow2(bl as nat) >= 1,
        ;
        if t >= 1 {
            lemma_bitlen_char(t as int, bl as nat);
        }
    }
    if bl <= 53 {
        let p_res: u128 = pow2_u128(s + 52);
        let res: u128 = t / p_res;
        proof {
            lemma_fundamental_div_mod(t as int, p_res as int);
            assert(res < m) by (nonlinear_arith)
                requires
                    t as int == p_res as int * res as int + t as int % p_res as int,
                    t as int % p_res as int >= 0,
                    t as int == mant as int * m as int,
                    mant as int <= pp - qq,
                    qq >= 1,
                    p_res as int == pp,
                    m >= 1,
                    res >= 0,
            ;
        }
        res as u32
    } else {
        let k: usize = bl - 53;
        let p_k: u128 = pow2_u128(k);
        let tt: u128 = rhe_u128(t, p_k);
        let p_res: u128 = pow2_u128(s + 52 - k);
        proof {
            lemma_pow2_pos(k as nat);
            lemma_pow2_pos((s + 52 - k) as nat);
            lemma_pow2_unfold(k as nat);
        }
        let res: u128 = tt / p_res;
        proof {
            lemma_rhe_upper(t as int, p_k as int);
            lemma_fundamental_div_mod(tt as int, p_res as int);
            lemma_pow2_adds((s + 52 - k) as nat, k as nat);
            lemma_pow2_adds((k - 1) as nat, 53);
            lemma_pow2_adds((s - 1) as nat, 53);
            // 2^(k-1) <= t / 2^52 < m * 2^s, so 2^k <= m * 2^s
            assert(pow2((k - 1) as nat) * pow2(53) <= t as int) by {
                assert((bl - 1) as nat == (k - 1) as nat + 53);
            }
            assert(pow2((k - 1) as nat) < m as int * qq) by (nonlinear_arith)
                requires
                    pow2((k - 1) as nat) * pow2(53) <= t as int,
                    t as int == mant as int * m as int,
                    mant as int <= pp - qq,
                    pp == qq * pow2(53),
                    qq >= 1,
                    m >= 1,
                    pow2(53) >= 1,
            ;
            assert(2 * res as int * pp <= 2 * tt as int * p_k as int) by (nonlinear_arith)
                requires
                    tt as int == p_res as int * res as int + tt as int % p_res as int,
                    tt as int % p_res as int >= 0,
                    p_res as int * p_k as int == pp,
                    p_k >= 1,
                    res >= 0,
            ;
            assert(2 * (tt as int) * (p_k as int) < 2 * (m as int) * pp) by (nonlinear_arith)
                requires
                    2 * tt as int * p_k as int <= 2 * t as int + p_k as int,
                    t as int == mant as int * m as int,
                    mant as int <= pp - qq,
                    p_k as int == 2 * pow2((k - 1) as nat),
                    pow2((k - 1) as nat) < m as int * qq,
                    qq >= 1,
                    m >= 1,
            ;
            assert(res < m) by (nonlinear_arith)
                requires
                    2 * res as int * pp < 2 * m as int * pp,
                    pp >= 1,
            ;
        }
        res as u32
    }
}

/// A nonzero state below the modulus steps to a nonzero state: the
/// multiplier is invertible modulo the prime `2^31 - 1` (its inverse is
/// `1407677000`), so only a multiple of the modulus could step to zero.
proof fn lemma_step_nonzero(s: u64)
    requires
        1 <= s <= 2147483646,
    ensures
        next_of(s) >= 1,
{
    if next_of(s) == 0 {
        lemma_fundamental_div_mod(s as int * 16807, 2147483647);
        let k = (s as int * 16807) / 2147483647;
        assert(s as int * 16807 == 2147483647 * k);
        assert(16807 * 1407677000 == 2147483647 * 11017 + 1);
        assert(s as int * 16807 * 1407677000 == 2147483647 * (k * 1407677000)) by (nonlinear_arith)
            requires
                s as int * 16807 == 2147483647 * k,
        ;
        assert(s as int * 16807 * 1407677000 == s as int * (2147483647 * 11017 + 1))
            by (nonlinear_arith)
            requires
                16807 * 1407677000 == 2147483647 * 11017 + 1,
        ;
        assert(s as int == 2147483647 * (k * 1407677000 - s as int * 11017)) by (nonlinear_arith)
            requires
                2147483647 * (k * 1407677000) == s as int * (2147483647 * 11017 + 1),
        ;
        assert(false) by (nonlinear_arith)
            requires
                s as int == 2147483647 * (k * 1407677000 - s as int * 11017),
                1 <= s <= 2147483646,
        ;
    }
}

pub struct SeededGenerator {
    pub seed: u64,
}

impl SeededGenerator {
    /// The state never exceeds the modulus.
    pub open spec fn wf(&self) -> bool {
        self.seed <= 2147483647
    }

    pub fn new(seed: u64) -> (r: Self)
        ensures
            r.seed == init_state_of(seed),
            r.seed >= 1,
            r.wf(),
    {
        let mut s: u64 = seed % MODULUS;
        if s == 0 {
            s = MODULUS;
        }
        SeededGenerator { seed: s }
    }

    /// Advances the state one step and returns it.
    pub fn next(&mut self) -> (r: u64)
        requires
            old(self).wf(),
        ensures
            final(self).seed == next_of(old(self).seed),
            r == final(self).seed,
            r <= 2147483646,
            1 <= old(self).seed <= 2147483646 ==> r >= 1,
            final(self).wf(),
    {
        proof {
            if 1 <= self.seed <= 2147483646 {
                lemma_step_nonzero(self.seed);
            }
        }
        self.seed = self.seed * MULTIPLIER % MODULUS;
        self.seed
    }

    /// Advances the state one step and maps the draw into `[0, max)` by
    /// the double-precision path `trunc(fl(fl((n-1)/2147483646) * max))`.
    pub fn next_int(&mut self, max: u32) -> (r: u32)
        requires
            old(self).wf(),
        ensures
            final(self).seed == next_of(old(self).seed),
            final(self).wf(),
            r == draw_int_of(next_of(old(self).seed), max),
            max > 0 ==> r < max,
            max == 0 ==> r == 0,
    {
        let n = self.next();
        draw_int_from(n, max)
    }
}

} // verus!
