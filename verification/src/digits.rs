//! Decimal rendering of the 64-bit content fingerprint.
//!
//! The canonical file names carry the fingerprint in decimal, so the
//! formatter is part of the core and is verified against [`dec_of`].

use vstd::prelude::*;
use vstd::string::*;

verus! {

/// The character for one decimal digit.
pub open spec fn digit_char(d: int) -> char {
    if d == 0 {
        '0'
    } else if d == 1 {
        '1'
    } else if d == 2 {
        '2'
    } else if d == 3 {
        '3'
    } else if d == 4 {
        '4'
    } else if d == 5 {
        '5'
    } else if d == 6 {
        '6'
    } else if d == 7 {
        '7'
    } else if d == 8 {
        '8'
    } else {
        '9'
    }
}

/// The decimal rendering of a non-negative integer, most significant digit
/// first, with no leading zeros (and `"0"` for zero itself).
pub open spec fn dec_of(n: int) -> Seq<char>
    decreases n,
{
    if n < 10 {
        seq![digit_char(n)]
    } else {
        dec_of(n / 10).push(digit_char(n % 10))
    }
}

/// A one-character string slice for one decimal digit.
fn digit_str(d: u64) -> (r: &'static str)
    requires
        d < 10,
    ensures
        r@ == seq![digit_char(d as int)],
{
    proof {
        reveal_strlit("0");
        reveal_strlit("1");
        reveal_strlit("2");
        reveal_strlit("3");
        reveal_strlit("4");
        reveal_strlit("5");
        reveal_strlit("6");
        reveal_strlit("7");
        reveal_strlit("8");
        reveal_strlit("9");
    }
    if d == 0 {
        "0"
    } else if d == 1 {
        "1"
    } else if d == 2 {
        "2"
    } else if d == 3 {
        "3"
    } else if d == 4 {
        "4"
    } else if d == 5 {
        "5"
    } else if d == 6 {
        "6"
    } else if d == 7 {
        "7"
    } else if d == 8 {
        "8"
    } else {
        "9"
    }
}

/// The digits of `n`, least significant first, as digit values.
spec fn low_digits(n: int) -> Seq<int>
    decreases n,
{
    if n < 10 {
        seq![n]
    } else {
        seq![n % 10] + low_digits(n / 10)
    }
}

proof fn lemma_dec_of_low_digits(n: int)
    requires
        n >= 0,
    ensures
        dec_of(n) =~= low_digits(n).reverse().map_values(|d: int| digit_char(d)),
    decreases n,
{
    if n < 10 {
        assert(low_digits(n).reverse() =~= seq![n]);
    } else {
        lemma_dec_of_low_digits(n / 10);
        assert(low_digits(n).reverse() =~= low_digits(n / 10).reverse().push(n % 10));
    }
}

proof fn lemma_low_digits_bounds(n: int)
    requires
        n >= 0,
    ensures
        low_digits(n).len() >= 1,
        forall|i: int| 0 <= i < low_digits(n).len() ==> 0 <= #[trigger] low_digits(n)[i] < 10,
    decreases n,
{
    if n >= 10 {
        lemma_low_digits_bounds(n / 10);
    }
}

/// Renders `n` in decimal, exactly as [`dec_of`] describes.
pub fn u64_to_dec(n: u64) -> (r: String)
    ensures
        r@ == dec_of(n as int),
{
    let mut digits: Vec<u64> = Vec::new();
    if n == 0 {
        digits.push(0);
        proof {
            assert(low_digits(0int) =~= seq![0int]);
            assert(digits@.map_values(|x: u64| x as int) =~= low_digits(n as int));
        }
    } else {
        let mut m: u64 = n;
        while m > 0
            invariant
                m > 0 ==> digits@.map_values(|x: u64| x as int) + low_digits(m as int)
                    =~= low_digits(n as int),
                m == 0 ==> digits@.map_values(|x: u64| x as int) =~= low_digits(n as int),
            decreases m,
        {
            let d: u64 = m % 10;
            let next: u64 = m / 10;
            let ghost prev = digits@;
            digits.push(d);
            proof {
                assert(digits@.map_values(|x: u64| x as int) =~= prev.map_values(
                    |x: u64| x as int,
                ) + seq![d as int]);
                if m < 10 {
                    assert(low_digits(m as int) =~= seq![m as int]);
                    assert(digits@.map_values(|x: u64| x as int) =~= low_digits(n as int));
                } else {
                    assert(low_digits(m as int) =~= seq![m as int % 10] + low_digits(
                        m as int / 10,
                    ));
                    assert(digits@.map_values(|x: u64| x as int) + low_digits(next as int)
                        =~= low_digits(n as int));
                }
            }
            m = next;
        }
    }
    proof {
        lemma_dec_of_low_digits(n as int);
        lemma_low_digits_bounds(n as int);
    }
    let ghost full = low_digits(n as int).reverse().map_values(|d: int| digit_char(d));
    let mut out = String::new();
    let mut k: usize = 0;
    proof {
        assert(out@ =~= full.take(0));
    }
    while k < digits.len()
        invariant
            k <= digits@.len(),
            digits@.len() >= 1,
            digits@.map_values(|x: u64| x as int) =~= low_digits(n as int),
            forall|i: int| 0 <= i < low_digits(n as int).len() ==> 0 <= #[trigger] low_digits(
                n as int,
            )[i] < 10,
            full == low_digits(n as int).reverse().map_values(|d: int| digit_char(d)),
            out@ =~= full.take(k as int),
        decreases digits@.len() - k,
    {
        let idx = digits.len() - 1 - k;
        proof {
            assert(digits@.map_values(|x: u64| x as int)[idx as int] == digits@[idx as int] as int);
        }
        let ds = digit_str(digits[idx]);
        out.append(ds);
        proof {
            assert(full[k as int] == digit_char(low_digits(n as int).reverse()[k as int]));
            assert(low_digits(n as int).reverse()[k as int] == low_digits(n as int)[idx as int]);
            assert(out@ =~= full.take(k as int + 1));
        }
        k = k + 1;
    }
    proof {
        assert(out@ =~= full);
    }
    out
}

} // verus!
