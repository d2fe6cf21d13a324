//! The selection sampler: a uniform draw skewed toward the front of a pool
//! ordered by evidence, so low-evidence records are presented more often.
//!
//! The uniform draw is a 16-bit value `unif`, read as the fraction
//! `unif / 65536` of the unit interval. With shape parameter 4 the offset
//! into a pool of size `n` is `n * ((1/(x+1)^4 - 1/2^4) / (1 - 1/2^4))`
//! where `x = unif / 65536`, floored. The bias expression is exactly one
//! at a zero draw; that boundary value folds back to offset zero, so the
//! offset always lands inside a nonempty pool. The draw is injectable:
//! callers pass `unif` in, and [`draw_unif`] supplies a random one.

use vstd::prelude::*;
use vstd::arithmetic::div_mod::{lemma_fundamental_div_mod, lemma_fundamental_div_mod_converse_div};

verus! {

/// One in the fixed-point encoding of the uniform draw: `unif / 65536`.
pub const UNIF_ONE: u32 = 65536;

/// The biased offset into a pool of `n` records for the draw `unif`, in
/// integer arithmetic: with `w = 65536 + unif`, the raw value is
/// `n * (16 * 65536^4 - w^4) / (15 * w^4)`, floored. A zero draw makes
/// the bias expression exactly one, so the raw value is `n`; that one
/// boundary case folds back to the front of the pool, and every offset
/// lands inside a nonempty pool.
pub open spec fn offset_spec(n: int, unif: int) -> int {
    if n == 0 {
        0
    } else {
        let w = 65536 + unif;
        let w4 = w * w * w * w;
        let num = 16 * 0x1_0000_0000_0000_0000 - w4;
        let den = 15 * w4;
        let raw = (n * num) / den;
        if raw >= n {
            0
        } else {
            raw
        }
    }
}

/// Computes the biased offset, exactly as [`offset_spec`] describes, and
/// bounds it: always inside a nonempty pool, at the front for a zero
/// draw, and zero for an empty pool.
pub fn biased_offset(n: u32, unif: u16) -> (off: u32)
    ensures
        off as int == offset_spec(n as int, unif as int),
        n > 0 ==> off < n,
        n == 0 ==> off == 0,
        n > 0 && unif == 0 ==> off == 0,
{
    if n == 0 {
        return 0;
    }
    let w: u128 = 65536 + (unif as u128);
    proof {
        assert(w as int * w as int <= 131071 * 131071) by (nonlinear_arith)
            requires
                0 <= w as int <= 131071,
        ;
    }
    let w2: u128 = w * w;
    proof {
        assert(w2 as int * w2 as int <= (131071 * 131071) * (131071 * 131071))
            by (nonlinear_arith)
            requires
                0 <= w2 as int <= 131071 * 131071,
        ;
    }
    let w4: u128 = w2 * w2;
    proof {
        assert(w4 as int >= 0x1_0000_0000_0000_0000) by (nonlinear_arith)
            requires
                w as int >= 65536,
                w2 as int == w as int * w as int,
                w4 as int == w2 as int * w2 as int,
        ;
        assert(w4 as int == (w as int) * (w as int) * (w as int) * (w as int))
            by (nonlinear_arith)
            requires
                w2 as int == w as int * w as int,
                w4 as int == w2 as int * w2 as int,
        ;
    }
    let num: u128 = 16 * 0x1_0000_0000_0000_0000u128 - w4;
    let den: u128 = 15 * w4;
    proof {
        assert(num as int <= den as int);
        assert((n as int) * (num as int) <= 0x1_0000_0000 * (15 * 0x1_0000_0000_0000_0000))
            by (nonlinear_arith)
            requires
                0 <= n as int <= 0x1_0000_0000,
                0 <= num as int <= 15 * 0x1_0000_0000_0000_0000,
        ;
    }
    let prod: u128 = (n as u128) * num;
    let off128: u128 = prod / den;
    proof {
        lemma_fundamental_div_mod(prod as int, den as int);
        assert(off128 as int <= n as int) by (nonlinear_arith)
            requires
                prod as int == den as int * (off128 as int) + prod as int % (den as int),
                0 <= prod as int % (den as int),
                prod as int == (n as int) * (num as int),
                num as int <= den as int,
                den as int > 0,
                n as int >= 0,
                off128 as int >= 0,
        ;
        if unif > 0 {
            assert((w4 as int) > 0x1_0000_0000_0000_0000) by (nonlinear_arith)
                requires
                    w as int >= 65537,
                    w2 as int == w as int * w as int,
                    w4 as int == w2 as int * w2 as int,
            ;
            assert((num as int) < (den as int)) by (nonlinear_arith)
                requires
                    num as int == 16 * 0x1_0000_0000_0000_0000 - w4 as int,
                    den as int == 15 * w4 as int,
                    (w4 as int) > 0x1_0000_0000_0000_0000,
            ;
            assert((off128 as int) < (n as int)) by (nonlinear_arith)
                requires
                    prod as int == den as int * (off128 as int) + prod as int % (den as int),
                    0 <= prod as int % (den as int),
                    prod as int == (n as int) * (num as int),
                    (num as int) < (den as int),
                    den as int > 0,
                    n as int >= 1,
                    off128 as int >= 0,
            ;
        } else {
            assert(w4 as int == 0x1_0000_0000_0000_0000) by (nonlinear_arith)
                requires
                    w as int == 65536,
                    w2 as int == w as int * w as int,
                    w4 as int == w2 as int * w2 as int,
            ;
            assert(num == den);
            lemma_fundamental_div_mod_converse_div(prod as int, den as int, n as int, 0);
        }
    }
    if off128 >= n as u128 {
        0
    } else {
        off128 as u32
    }
}

/// Law: the sampler's offset always stays inside a nonempty pool, is
/// zero exactly at the zero draw's folded boundary, and is zero for an
/// empty pool.
pub proof fn lemma_offset_bounds(n: int, unif: int)
    requires
        0 <= n <= 0x1_0000_0000,
        0 <= unif < 65536,
    ensures
        0 <= offset_spec(n, unif),
        n > 0 ==> offset_spec(n, unif) < n,
        unif == 0 ==> offset_spec(n, unif) == 0,
        n == 0 ==> offset_spec(n, unif) == 0,
{
    if n > 0 {
        let w = 65536 + unif;
        let w4 = w * w * w * w;
        let num = 16 * 0x1_0000_0000_0000_0000 - w4;
        let den = 15 * w4;
        let raw = (n * num) / den;
        assert(0x1_0000_0000_0000_0000 <= w4 && w4 <= 131071 * 131071 * 131071 * 131071)
            by (nonlinear_arith)
            requires
                65536 <= w <= 131071,
                w4 == w * w * w * w,
        ;
        assert(num <= den);
        lemma_fundamental_div_mod(n * num, den);
        assert(0 <= raw <= n) by (nonlinear_arith)
            requires
                n * num == den * raw + (n * num) % den,
                0 <= (n * num) % den < den,
                0 <= num <= den,
                den > 0,
                n >= 1,
        ;
        if unif > 0 {
            assert(w4 > 0x1_0000_0000_0000_0000) by (nonlinear_arith)
                requires
                    w >= 65537,
                    w4 == w * w * w * w,
            ;
            assert(raw < n) by (nonlinear_arith)
                requires
                    n * num == den * raw + (n * num) % den,
                    0 <= (n * num) % den < den,
                    num < den,
                    den > 0,
                    n >= 1,
            ;
        } else {
            assert(w4 == 0x1_0000_0000_0000_0000) by (nonlinear_arith)
                requires
                    w == 65536,
                    w4 == w * w * w * w,
            ;
            lemma_fundamental_div_mod_converse_div(n * num, den, n, 0);
        }
    }
}

/// Relies on rand::random for the uniform draw; which value comes back is
/// the generator's business, so nothing is promised of it.
#[verifier::external_body]
pub(crate) fn draw_unif() -> (r: u16) {
    rand::random::<u16>()
}

} // verus!
