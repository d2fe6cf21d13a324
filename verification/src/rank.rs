//! The ranking engine: vote tallies to a sort key and an evidence metric.
//!
//! The sort key is the Wilson lower confidence bound of the upvote
//! proportion at z = 1.64485. The key and the evidence metric are pure
//! numbers; the library carries them in fixed point, as integer millionths,
//! so `0.5` is `500_000`. All divisions round toward negative infinity.

use vstd::prelude::*;
use vstd::arithmetic::div_mod::{
    lemma_fundamental_div_mod, lemma_fundamental_div_mod_converse_div, lemma_div_is_ordered,
    lemma_div_pos_is_pos,
};

verus! {

/// One unit in fixed point: values are stored in millionths.
pub const SCALE: i64 = 1_000_000;

/// The neutral sort key, one half.
pub const HALF_MICRO: i64 = 500_000;

/// z = 1.64485, in millionths.
pub const Z_MICRO: i64 = 1_644_850;

/// z squared, in millionths (truncated).
pub const Z2_MICRO: i64 = 2_705_531;

/// Integer square root: the largest `r` with `r * r <= n` (0 for negatives).
pub open spec fn isqrt_spec(n: int) -> int
    decreases n,
{
    if n <= 0 {
        0
    } else {
        let r = isqrt_spec(n - 1);
        if (r + 1) * (r + 1) <= n {
            r + 1
        } else {
            r
        }
    }
}

pub proof fn lemma_isqrt_bounds(n: int)
    requires
        n >= 0,
    ensures
        0 <= isqrt_spec(n),
        isqrt_spec(n) * isqrt_spec(n) <= n,
        n < (isqrt_spec(n) + 1) * (isqrt_spec(n) + 1),
    decreases n,
{
    if n == 0 {
    } else {
        lemma_isqrt_bounds(n - 1);
        let r = isqrt_spec(n - 1);
        if (r + 1) * (r + 1) <= n {
            assert(n < (r + 2) * (r + 2)) by (nonlinear_arith)
                requires
                    n - 1 < (r + 1) * (r + 1),
                    r >= 0,
            ;
        }
    }
}

proof fn lemma_isqrt_unique(n: int, r: int)
    requires
        n >= 0,
        r >= 0,
        r * r <= n,
        n < (r + 1) * (r + 1),
    ensures
        r == isqrt_spec(n),
{
    lemma_isqrt_bounds(n);
    let s = isqrt_spec(n);
    if r < s {
        assert((r + 1) * (r + 1) <= s * s) by (nonlinear_arith)
            requires
                0 <= r,
                r + 1 <= s,
        ;
    }
    if s < r {
        assert((s + 1) * (s + 1) <= r * r) by (nonlinear_arith)
            requires
                0 <= s,
                s + 1 <= r,
        ;
    }
}

/// Binary-search integer square root over the full `u128` range.
pub fn isqrt(x: u128) -> (r: u64)
    ensures
        r as int == isqrt_spec(x as int),
        (r as int) * (r as int) <= x as int,
        (x as int) < (r as int + 1) * (r as int + 1),
{
    let mut lo: u128 = 0;
    let mut hi: u128 = 0x1_0000_0000_0000_0000;
    proof {
        assert((hi as int) * (hi as int) > x as int) by (nonlinear_arith)
            requires
                hi == 0x1_0000_0000_0000_0000,
                x as int <= 0xffff_ffff_ffff_ffff_ffff_ffff_ffff_ffff,
        ;
    }
    while lo + 1 < hi
        invariant
            0 <= lo < hi <= 0x1_0000_0000_0000_0000,
            (lo as int) * (lo as int) <= x as int,
            (x as int) < (hi as int) * (hi as int),
        decreases hi - lo,
    {
        let mid: u128 = lo + (hi - lo) / 2;
        assert(lo < mid < hi);
        proof {
            assert((mid as int) * (mid as int) < 0x1_0000_0000_0000_0000 * 0x1_0000_0000_0000_0000)
                by (nonlinear_arith)
                requires
                    0 <= mid as int,
                    (mid as int) < 0x1_0000_0000_0000_0000,
            ;
        }
        if mid * mid <= x {
            lo = mid;
        } else {
            hi = mid;
        }
    }
    proof {
        assert(hi == lo + 1);
        lemma_isqrt_unique(x as int, lo as int);
    }
    lo as u64
}

/// The Wilson-branch sort key in millionths, for at least one upvote.
/// `n * (phat + z^2/2n - z * sqrt((phat(1-phat) + z^2/4n)/n))` over
/// `n * (1 + z^2/n)`, everything scaled to millionths and floored.
pub open spec fn wilson_micro(u: int, d: int) -> int {
    let n = u + d;
    let inner = (u * (n - u) * (SCALE as int)) / n + (Z2_MICRO as int) / 4;
    let s = isqrt_spec(inner * (SCALE as int));
    let t = ((Z_MICRO as int) * s) / (SCALE as int);
    let num = u * (SCALE as int) + (Z2_MICRO as int) / 2 - t;
    let den = n * (SCALE as int) + (Z2_MICRO as int);
    (num * (SCALE as int)) / den
}

/// The sort key in millionths. Zero votes is neutral; only-downvotes is an
/// unbounded negative penalty of one unit per downvote; otherwise the
/// Wilson lower bound.
pub open spec fn sorting_micro(u: int, d: int) -> int {
    if u == 0 && d == 0 {
        HALF_MICRO as int
    } else if u == 0 {
        -d * (SCALE as int)
    } else {
        wilson_micro(u, d)
    }
}

/// The evidence metric in millionths: distance from neutral times a tenth
/// of the sample size. Low values mean "needs more votes".
pub open spec fn confidence_micro(u: int, d: int) -> int {
    let diff = (HALF_MICRO as int) - sorting_micro(u, d);
    let a = if diff < 0 {
        -diff
    } else {
        diff
    };
    a * (u + d) / 10
}

/// A recomputed ranking: the sort key and the evidence metric, in
/// millionths.
#[derive(Clone, Copy, Debug, PartialEq, Eq, Structural)]
pub struct RankScore {
    pub sorting: i64,
    pub confidence: i128,
}

/// Floor division of a possibly negative numerator by a positive divisor,
/// matching the specification-level `/`.
fn floor_div(a: i128, b: u128) -> (q: i128)
    requires
        0 < b <= 0x1_0000_0000_0000_0000_0000_0000u128,
        -0x1_0000_0000_0000_0000_0000_0000i128 <= a
            <= 0x1_0000_0000_0000_0000_0000_0000i128,
    ensures
        q as int == (a as int) / (b as int),
{
    if a >= 0 {
        let q = (a as u128) / b;
        proof {
            lemma_fundamental_div_mod(a as int, b as int);
        }
        (q as i128)
    } else {
        let p = (-a) as u128;
        let qc = (p + b - 1) / b;
        proof {
            lemma_fundamental_div_mod(p as int + b as int - 1, b as int);
            let qq = (p as int + b as int - 1) / (b as int);
            let rr = (p as int + b as int - 1) % (b as int);
            // p = qq*b + (rr - b + 1), and -p = (-qq)*b + (b - 1 - rr)
            assert(0 <= b as int - 1 - rr < b as int);
            assert((-p as int) == (-qq) * (b as int) + (b as int - 1 - rr)) by (nonlinear_arith)
                requires
                    p as int + b as int - 1 == (b as int) * qq + rr,
            ;
            lemma_fundamental_div_mod_converse_div(
                -p as int,
                b as int,
                -qq,
                b as int - 1 - rr,
            );
            assert(qq * (b as int) <= p as int + b as int - 1) by (nonlinear_arith)
                requires
                    p as int + b as int - 1 == (b as int) * qq + rr,
                    rr >= 0,
            ;
            assert(qq >= 0) by (nonlinear_arith)
                requires
                    qq * (b as int) <= p as int + b as int - 1,
                    p as int >= 1,
                    b as int >= 1,
                    (p as int + b as int - 1) == (b as int) * qq + rr,
                    rr < b as int,
            ;
        }
        -(qc as i128)
    }
}

/// Recomputes the ranking for a tally, exactly as [`sorting_micro`] and
/// [`confidence_micro`] describe.
pub fn rank(upvotes: u32, downvotes: u32) -> (r: RankScore)
    ensures
        r.sorting as int == sorting_micro(upvotes as int, downvotes as int),
        r.confidence as int == confidence_micro(upvotes as int, downvotes as int),
{
    let u = upvotes as u64;
    let d = downvotes as u64;
    if u == 0 && d == 0 {
        RankScore { sorting: HALF_MICRO, confidence: 0 }
    } else if u == 0 {
        proof {
            assert(d as int * (SCALE as int) <= 0x1_0000_0000 * 1_000_000) by (nonlinear_arith)
                requires
                    d as int <= 0x1_0000_0000,
            ;
        }
        let sorting: i64 = -((d as i64) * SCALE);
        let diff: u128 = (HALF_MICRO as u128) + (d as u128) * (SCALE as u128);
        proof {
            assert(diff as int * (d as int) <= 0x5_0000_0000_0000_0000 * 0x1_0000_0000)
                by (nonlinear_arith)
                requires
                    diff as int <= 0x5_0000_0000_0000_0000,
                    d as int <= 0x1_0000_0000,
            ;
        }
        let conf: i128 = ((diff * (d as u128)) / 10) as i128;
        RankScore { sorting, confidence: conf }
    } else {
        let n: u64 = u + d;
        proof {
            assert(u as int * (n as int - u as int) <= 0x1_0000_0000 * 0x2_0000_0000)
                by (nonlinear_arith)
                requires
                    0 <= u as int <= 0x1_0000_0000,
                    0 <= n as int - u as int <= 0x2_0000_0000,
            ;
        }
        let prod: u128 = (u as u128) * ((n - u) as u128);
        proof {
            assert(prod as int * (SCALE as int) <= 0x2_0000_0000_0000_0000 * 1_000_000)
                by (nonlinear_arith)
                requires
                    0 <= prod as int <= 0x2_0000_0000_0000_0000,
            ;
        }
        let scaled: u128 = (prod * (SCALE as u128)) / (n as u128);
        proof {
            lemma_fundamental_div_mod(prod as int * (SCALE as int), n as int);
            assert((n as int) * (scaled as int) <= prod as int * (SCALE as int));
            assert(scaled as int <= prod as int * (SCALE as int)) by (nonlinear_arith)
                requires
                    (n as int) * (scaled as int) <= prod as int * (SCALE as int),
                    n as int >= 1,
                    scaled as int >= 0,
            ;
        }
        let inner: u128 = scaled + (Z2_MICRO as u128) / 4;
        proof {
            assert(inner as int * (SCALE as int)
                <= 0x2_0000_0000_0000_0000_0000_0000 * 1_000_000) by (nonlinear_arith)
                requires
                    0 <= inner as int <= 0x2_0000_0000_0000_0000_0000_0000,
            ;
        }
        let s: u64 = isqrt(inner * (SCALE as u128));
        proof {
            let si = s as int;
            assert(si <= 0x100_0000_0000_0000) by (nonlinear_arith)
                requires
                    si * si <= inner as int * (SCALE as int),
                    inner as int * (SCALE as int) < 0x100_0000_0000_0000 * 0x100_0000_0000_0000,
                    si >= 0,
            ;
            assert((Z_MICRO as int) * si <= 1_644_850 * 0x100_0000_0000_0000) by (nonlinear_arith)
                requires
                    0 <= si <= 0x100_0000_0000_0000,
            ;
        }
        let t: u128 = ((Z_MICRO as u128) * (s as u128)) / (SCALE as u128);
        proof {
            lemma_fundamental_div_mod((Z_MICRO as int) * (s as int), SCALE as int);
            assert(t as int <= 0x4000_0000_0000_0000) by (nonlinear_arith)
                requires
                    (SCALE as int) * (t as int) <= (Z_MICRO as int) * (s as int),
                    (Z_MICRO as int) * (s as int) <= 1_644_850 * 0x100_0000_0000_0000,
                    SCALE as int == 1_000_000,
                    t as int >= 0,
            ;
            assert(u as int * (SCALE as int) <= 0x1_0000_0000 * 1_000_000) by (nonlinear_arith)
                requires
                    0 <= u as int <= 0x1_0000_0000,
            ;
        }
        let num: i128 = (u as i128) * (SCALE as i128) + (Z2_MICRO as i128) / 2 - (t as i128);
        let den: u128 = (n as u128) * (SCALE as u128) + (Z2_MICRO as u128);
        proof {
            assert(n as int * (SCALE as int) <= 0x2_0000_0000 * 1_000_000) by (nonlinear_arith)
                requires
                    0 <= n as int <= 0x2_0000_0000,
            ;
            assert(num as int * (SCALE as int) <= 0x8000_0000_0000_0000 * 1_000_000
                && num as int * (SCALE as int) >= -(0x8000_0000_0000_0000 * 1_000_000))
                by (nonlinear_arith)
                requires
                    -0x8000_0000_0000_0000 <= num as int <= 0x8000_0000_0000_0000,
                    SCALE as int == 1_000_000,
            ;
        }
        let a128: i128 = num * (SCALE as i128);
        let sorting128: i128 = floor_div(a128, den);
        proof {
            let a = a128 as int;
            let b = den as int;
            let q = sorting128 as int;
            lemma_fundamental_div_mod(a, b);
            if a >= 0 {
                assert(q <= num as int && q >= 0) by (nonlinear_arith)
                    requires
                        a == b * q + a % b,
                        0 <= a % b < b,
                        a == num as int * (SCALE as int),
                        b >= SCALE as int,
                        SCALE as int == 1_000_000,
                        a >= 0,
                        num as int >= 0,
                ;
            } else {
                assert(q >= num as int && q <= 0) by (nonlinear_arith)
                    requires
                        a == b * q + a % b,
                        0 <= a % b < b,
                        a == num as int * (SCALE as int),
                        b >= SCALE as int,
                        SCALE as int == 1_000_000,
                        a < 0,
                        (num as int) < 0,
                ;
            }
        }
        let sorting: i64 = sorting128 as i64;
        let diffv: i128 = (HALF_MICRO as i128) - sorting128;
        let av: i128 = if diffv < 0 {
            -diffv
        } else {
            diffv
        };
        proof {
            assert(av as int * (n as int) <= 0x1_0000_0000_0000_0000 * 0x2_0000_0000
                && av as int * (n as int) >= 0) by (nonlinear_arith)
                requires
                    0 <= av as int <= 0x1_0000_0000_0000_0000,
                    0 <= n as int <= 0x2_0000_0000,
            ;
        }
        let conf: i128 = (((av as u128) * (n as u128)) / 10) as i128;
        RankScore { sorting, confidence: conf }
    }
}

/// Law: the degenerate tallies. No votes ranks neutral with zero evidence;
/// only downvotes rank as an unbounded negative penalty, one unit per
/// downvote.
pub proof fn lemma_rank_degenerate(d: int)
    requires
        d >= 0,
    ensures
        sorting_micro(0, 0) == HALF_MICRO as int,
        confidence_micro(0, 0) == 0,
        d > 0 ==> sorting_micro(0, d) == -d * (SCALE as int),
{
}

/// Law: with no upvotes, the sort key never increases as downvotes grow.
pub proof fn lemma_sorting_monotone_downvotes_without_upvotes(d1: int, d2: int)
    requires
        0 <= d1 <= d2,
    ensures
        sorting_micro(0, d2) <= sorting_micro(0, d1),
{
    if d1 == 0 && d2 > 0 {
        assert(-d2 * (SCALE as int) <= -1 * (SCALE as int)) by (nonlinear_arith)
            requires
                d2 >= 1,
        ;
    } else if d1 > 0 {
        assert(-d2 * (SCALE as int) <= -d1 * (SCALE as int)) by (nonlinear_arith)
            requires
                d1 <= d2,
        ;
    }
}

/// Law: with at least one upvote the Wilson-branch sort key is not
/// negative, whatever the downvote count.
pub proof fn lemma_wilson_nonneg(u: int, d: int)
    requires
        u >= 1,
        d >= 0,
    ensures
        wilson_micro(u, d) >= 0,
{
    let sc = SCALE as int;
    let z = Z_MICRO as int;
    let n = u + d;
    let q1 = (u * (n - u) * sc) / n;
    lemma_div_pos_is_pos(u * (n - u) * sc, n);
    assert(u * (n - u) * sc >= 0) by (nonlinear_arith)
        requires
            u >= 1,
            n - u >= 0,
            sc >= 0,
    ;
    assert(u * (n - u) * sc <= (u * sc) * n) by (nonlinear_arith)
        requires
            u >= 0,
            sc >= 0,
            n >= n - u >= 0,
    ;
    lemma_div_is_ordered(u * (n - u) * sc, (u * sc) * n, n);
    lemma_fundamental_div_mod_converse_div((u * sc) * n, n, u * sc, 0);
    assert(q1 <= u * sc);
    let inner = q1 + (Z2_MICRO as int) / 4;
    assert(inner <= u * sc + 676_382);
    lemma_isqrt_bounds(inner * sc);
    let s = isqrt_spec(inner * sc);
    assert(inner * sc <= (u * sc + 676_382) * sc) by (nonlinear_arith)
        requires
            0 <= inner <= u * sc + 676_382,
            sc >= 0,
    ;
    let b = sc * (u * sc + 1_352_765);
    assert(z * z * (u * sc + 676_382) <= sc * ((u * sc + 1_352_765) * (u * sc + 1_352_765)))
        by (nonlinear_arith)
        requires
            z == 1_644_850,
            sc == 1_000_000,
            u * sc >= 1_000_000,
    ;
    assert((z * s) * (z * s) <= b * b) by (nonlinear_arith)
        requires
            s * s <= inner * sc,
            inner * sc <= (u * sc + 676_382) * sc,
            z * z * (u * sc + 676_382) <= sc * ((u * sc + 1_352_765) * (u * sc + 1_352_765)),
            b == sc * (u * sc + 1_352_765),
            z >= 0,
            s >= 0,
            sc >= 0,
    ;
    assert(z * s <= b) by (nonlinear_arith)
        requires
            (z * s) * (z * s) <= b * b,
            z * s >= 0,
            b >= 0,
    ;
    let t = (z * s) / sc;
    lemma_fundamental_div_mod(z * s, sc);
    assert(t <= u * sc + 1_352_765) by (nonlinear_arith)
        requires
            sc * t + (z * s) % sc == z * s,
            0 <= (z * s) % sc < sc,
            z * s <= sc * (u * sc + 1_352_765),
            sc == 1_000_000,
    ;
    let num = u * sc + (Z2_MICRO as int) / 2 - t;
    assert(num >= 0);
    let den = n * sc + (Z2_MICRO as int);
    assert(num * sc >= 0) by (nonlinear_arith)
        requires
            num >= 0,
            sc >= 0,
    ;
    assert(den > 0) by (nonlinear_arith)
        requires
            den == n * sc + (Z2_MICRO as int),
            n >= 1,
            sc == 1_000_000,
    ;
    lemma_div_pos_is_pos(num * sc, den);
}

/// Law: for a fixed downvote count of at least one, moving from no upvotes
/// to any positive number of upvotes never lowers the sort key.
pub proof fn lemma_sorting_upvotes_lift_penalty(u: int, d: int)
    requires
        u >= 1,
        d >= 1,
    ensures
        sorting_micro(0, d) <= sorting_micro(u, d),
{
    lemma_wilson_nonneg(u, d);
    assert(-d * (SCALE as int) <= 0) by (nonlinear_arith)
        requires
            d >= 1,
    ;
}

/// Law: with at least one upvote the sort key stays within one vote's
/// scale of the unit interval: at least zero and at most the numerator
/// bound `u * SCALE + Z2_MICRO`.
pub proof fn lemma_wilson_upper(u: int, d: int)
    requires
        u >= 1,
        d >= 0,
    ensures
        wilson_micro(u, d) <= u * (SCALE as int) + (Z2_MICRO as int),
{
    let sc = SCALE as int;
    let n = u + d;
    let q1 = (u * (n - u) * sc) / n;
    let inner = q1 + (Z2_MICRO as int) / 4;
    let s = isqrt_spec(inner * sc);
    let t = ((Z_MICRO as int) * s) / sc;
    let num = u * sc + (Z2_MICRO as int) / 2 - t;
    let den = n * sc + (Z2_MICRO as int);
    let q = (num * sc) / den;
    lemma_isqrt_bounds(inner * sc);
    lemma_fundamental_div_mod((Z_MICRO as int) * s, sc);
    assert(t >= 0) by (nonlinear_arith)
        requires
            sc * t + ((Z_MICRO as int) * s) % sc == (Z_MICRO as int) * s,
            0 <= ((Z_MICRO as int) * s) % sc < sc,
            (Z_MICRO as int) * s >= 0,
            sc == 1_000_000,
    ;
    assert((Z_MICRO as int) * s >= 0) by (nonlinear_arith)
        requires
            s >= 0,
    ;
    assert(num <= u * sc + (Z2_MICRO as int));
    lemma_fundamental_div_mod(num * sc, den);
    if num >= 0 {
        assert(q <= num) by (nonlinear_arith)
            requires
                num * sc == den * q + (num * sc) % den,
                0 <= (num * sc) % den < den,
                den >= sc,
                sc == 1_000_000,
                num >= 0,
                den == n * sc + (Z2_MICRO as int),
                n >= 1,
        ;
    } else {
        assert(q <= 0) by (nonlinear_arith)
            requires
                num * sc == den * q + (num * sc) % den,
                0 <= (num * sc) % den < den,
                den > 0,
                num * sc < 0,
        ;
        assert(num * sc < 0) by (nonlinear_arith)
            requires
                num < 0,
                sc == 1_000_000,
        ;
        assert(den > 0) by (nonlinear_arith)
            requires
                den == n * sc + (Z2_MICRO as int),
                n >= 1,
                sc == 1_000_000,
        ;
    }
}

/// Law: with no downvotes, the sort key never decreases as upvotes grow
/// (from the first upvote on; the neutral key of a voteless record sits
/// above the first upvote's key, by design of the lower bound).
pub proof fn lemma_sorting_monotone_upvotes_without_downvotes(u1: int, u2: int)
    requires
        1 <= u1 <= u2,
    ensures
        sorting_micro(u1, 0) <= sorting_micro(u2, 0),
{
    let sc = SCALE as int;
    let z = Z_MICRO as int;
    let z2 = Z2_MICRO as int;
    assert(u1 * (u1 - u1) * sc == 0) by (nonlinear_arith);
    assert(u2 * (u2 - u2) * sc == 0) by (nonlinear_arith);
    assert((0int) / u1 == 0);
    assert((0int) / u2 == 0);
    let inner = z2 / 4;
    let s = isqrt_spec(inner * sc);
    lemma_isqrt_bounds(inner * sc);
    let t = (z * s) / sc;
    assert(z * s >= 0) by (nonlinear_arith)
        requires
            s >= 0,
            z >= 0,
    ;
    lemma_div_pos_is_pos(z * s, sc);
    let c = z2 / 2 - t;
    let num1 = u1 * sc + c;
    let num2 = u2 * sc + c;
    let den1 = u1 * sc + z2;
    let den2 = u2 * sc + z2;
    assert(den1 > 0 && den2 > 0) by (nonlinear_arith)
        requires
            u1 >= 1,
            u2 >= 1,
            den1 == u1 * sc + z2,
            den2 == u2 * sc + z2,
            sc == 1_000_000,
            z2 == 2_705_531,
    ;
    assert(num1 * den2 <= num2 * den1) by (nonlinear_arith)
        requires
            num1 == u1 * sc + c,
            num2 == u2 * sc + c,
            den1 == u1 * sc + z2,
            den2 == u2 * sc + z2,
            u1 <= u2,
            c <= z2,
            sc > 0,
    ;
    let q1 = (num1 * sc) / den1;
    let q2 = (num2 * sc) / den2;
    lemma_fundamental_div_mod(num1 * sc, den1);
    lemma_fundamental_div_mod(num2 * sc, den2);
    assert(q1 <= q2) by (nonlinear_arith)
        requires
            num1 * sc == den1 * q1 + (num1 * sc) % den1,
            num2 * sc == den2 * q2 + (num2 * sc) % den2,
            0 <= (num1 * sc) % den1 < den1,
            0 <= (num2 * sc) % den2 < den2,
            num1 * den2 <= num2 * den1,
            den1 > 0,
            den2 > 0,
            sc > 0,
    ;
    assert(wilson_micro(u1, 0) == q1);
    assert(wilson_micro(u2, 0) == q2);
}

} // verus!
