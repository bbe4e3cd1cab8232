//! Seed parsing: a decimal string over ASCII digits becomes a 128-bit
//! seed, split into four 32-bit words (most significant first). Anything
//! that is not a plain decimal number in `[0, 2^128)` is an invalid seed.
use vstd::prelude::*;

use crate::rng::Seed;
use crate::Error;
use vstd::arithmetic::div_mod::{lemma_fundamental_div_mod, lemma_mod_bound};

verus! {

/// ASCII decimal digit.
pub open spec fn is_digit(b: u8) -> bool {
    48 <= b <= 57
}

/// Every byte is an ASCII decimal digit.
pub open spec fn all_digits(s: Seq<u8>) -> bool {
    forall|i: int| 0 <= i < s.len() ==> is_digit(#[trigger] s[i])
}

/// The number a digit string denotes.
pub open spec fn decimal_value(s: Seq<u8>) -> int
    decreases s.len(),
{
    if s.len() == 0 {
        0
    } else {
        decimal_value(s.drop_last()) * 10 + (s.last() - 48)
    }
}

/// The number a seed's four words denote together.
pub open spec fn seed_value(sd: Seed) -> int {
    (sd.w0 as int) * 0x1000000000000000000000000 + (sd.w1 as int) * 0x10000000000000000 + (
    sd.w2 as int) * 0x100000000 + (sd.w3 as int)
}

/// A digit string denotes a non-negative number.
proof fn lemma_decimal_nonneg(s: Seq<u8>)
    requires
        all_digits(s),
    ensures
        decimal_value(s) >= 0,
    decreases s.len(),
{
    if s.len() > 0 {
        assert(all_digits(s.drop_last()));
        lemma_decimal_nonneg(s.drop_last());
    }
}

/// Extending a digit string never shrinks its value.
proof fn lemma_decimal_prefix(s: Seq<u8>, j: int)
    requires
        all_digits(s),
        0 <= j <= s.len(),
    ensures
        decimal_value(s.take(j)) <= decimal_value(s),
    decreases s.len() - j,
{
    if j < s.len() {
        lemma_decimal_prefix(s, j + 1);
        assert(s.take(j + 1).drop_last() =~= s.take(j));
        assert(all_digits(s.take(j)));
        lemma_decimal_nonneg(s.take(j));
        assert(is_digit(s[j]));
        assert(decimal_value(s.take(j + 1)) == decimal_value(s.take(j)) * 10 + (s[j] - 48));
    } else {
        assert(s.take(j) =~= s);
    }
}

/// Parses a decimal seed string. Succeeds exactly on a non-empty string
/// of ASCII digits denoting a value below `2^128`; the words of the
/// returned seed recombine to that value.
pub fn parse_seed(s: &[u8]) -> (r: Result<Seed, Error>)
    ensures
        match r {
            Ok(sd) => seed_value(sd) == decimal_value(s@),
            Err(e) => e == Error::InvalidSeed,
        },
        r is Ok <==> (s@.len() >= 1 && all_digits(s@) && decimal_value(s@)
            < 0x100000000000000000000000000000000),
{
    if s.len() == 0 {
        return Err(Error::InvalidSeed);
    }
    let mut acc: u128 = 0;
    let mut i: usize = 0;
    while i < s.len()
        invariant
            i <= s@.len(),
            s@.len() >= 1,
            forall|k: int| 0 <= k < i ==> is_digit(#[trigger] s@[k]),
            acc as int == decimal_value(s@.take(i as int)),
        decreases s@.len() - i,
    {
        let b = s[i];
        if b < 48 || b > 57 {
            return Err(Error::InvalidSeed);
        }
        let d = (b - 48) as u128;
        proof {
            assert(s@.take(i + 1).drop_last() =~= s@.take(i as int));
            lemma_fundamental_div_mod(u128::MAX as int, 10);
        }
        if acc > u128::MAX / 10 {
            proof {
                if all_digits(s@) {
                    lemma_decimal_prefix(s@, i + 1);
                    assert(decimal_value(s@.take(i + 1)) == (acc as int) * 10 + (s@[i as int]
                        - 48));
                    assert((acc as int) * 10 > ((u128::MAX as int) / 10) * 10) by (nonlinear_arith)
                        requires
                            (acc as int) > (u128::MAX as int) / 10,
                    ;
                }
            }
            return Err(Error::InvalidSeed);
        }
        proof {
            assert((acc as int) * 10 <= ((u128::MAX as int) / 10) * 10) by (nonlinear_arith)
                requires
                    (acc as int) <= (u128::MAX as int) / 10,
            ;
        }
        let acc10 = acc * 10;
        if d > u128::MAX - acc10 {
            proof {
                if all_digits(s@) {
                    lemma_decimal_prefix(s@, i + 1);
                    assert(decimal_value(s@.take(i + 1)) == (acc as int) * 10 + (s@[i as int]
                        - 48));
                }
            }
            return Err(Error::InvalidSeed);
        }
        acc = acc10 + d;
        i = i + 1;
    }
    proof {
        assert(s@.take(s@.len() as int) =~= s@);
    }
    // Split the value into four 32-bit words, most significant first.
    let w3 = (acc % 0x100000000) as u32;
    let r1 = acc / 0x100000000;
    let w2 = (r1 % 0x100000000) as u32;
    let r2 = r1 / 0x100000000;
    let w1 = (r2 % 0x100000000) as u32;
    let w0 = (r2 / 0x100000000) as u32;
    let sd = Seed { w0, w1, w2, w3 };
    proof {
        lemma_mod_bound(acc as int, 0x100000000);
        lemma_mod_bound(r1 as int, 0x100000000);
        lemma_mod_bound(r2 as int, 0x100000000);
        lemma_fundamental_div_mod(acc as int, 0x100000000);
        lemma_fundamental_div_mod(r1 as int, 0x100000000);
        lemma_fundamental_div_mod(r2 as int, 0x100000000);
        assert((r1 as int) < 0x1000000000000000000000000 && (r2 as int) < 0x10000000000000000 && (
        r2 as int) / 0x100000000 < 0x100000000) by (nonlinear_arith)
            requires
                (acc as int) == 0x100000000 * (r1 as int) + (w3 as int),
                (r1 as int) == 0x100000000 * (r2 as int) + (w2 as int),
                (r2 as int) == 0x100000000 * ((r2 as int) / 0x100000000) + (w1 as int),
                0 <= (w3 as int),
                0 <= (w2 as int),
                0 <= (w1 as int),
                (acc as int) < 0x100000000000000000000000000000000,
                0 <= (r1 as int),
                0 <= (r2 as int),
                0 <= (r2 as int) / 0x100000000,
        ;
        assert(seed_value(sd) == acc as int) by (nonlinear_arith)
            requires
                (acc as int) == 0x100000000 * (r1 as int) + (w3 as int),
                (r1 as int) == 0x100000000 * (r2 as int) + (w2 as int),
                (r2 as int) == 0x100000000 * (w0 as int) + (w1 as int),
                seed_value(sd) == (w0 as int) * 0x1000000000000000000000000 + (w1 as int)
                    * 0x10000000000000000 + (w2 as int) * 0x100000000 + (w3 as int),
        ;
    }
    Ok(sd)
}

} // verus!
