//! Exact nonnegative decimal values, `mant * 10^exp`.
//!
//! Every physical quantity of the calculator — resistances, capacitance,
//! delays, frequencies — is an exact decimal.  The solver converts them
//! into scaled integers (a fixed power-of-ten unit) and works on those.

use vstd::prelude::*;
use crate::arith::pow10;
use crate::arith::pow10_u128;
use crate::arith::lemma_pow10_positive;

verus! {

/// ASCII decimal digit.
pub open spec fn is_digit(b: u8) -> bool {
    48 <= b <= 57
}

pub open spec fn digit_val(b: u8) -> nat {
    (b - 48) as nat
}

/// The number written by a sequence of digits, most significant first.
pub open spec fn digits_val(s: Seq<u8>) -> nat
    decreases s.len(),
{
    if s.len() == 0 {
        0
    } else {
        10 * digits_val(s.drop_last()) + digit_val(s.last())
    }
}

/// End of the run of digits that starts at `from`.
pub open spec fn digits_end(s: Seq<u8>, from: int) -> int
    decreases s.len() - from,
{
    if from < 0 || from >= s.len() || !is_digit(s[from]) {
        from
    } else {
        digits_end(s, from + 1)
    }
}

pub open spec fn int_end(s: Seq<u8>) -> int {
    digits_end(s, 0)
}

pub open spec fn has_frac(s: Seq<u8>) -> bool {
    int_end(s) < s.len() && s[int_end(s)] == 46u8
}

pub open spec fn frac_begin(s: Seq<u8>) -> int {
    if has_frac(s) {
        int_end(s) + 1
    } else {
        int_end(s)
    }
}

pub open spec fn frac_end(s: Seq<u8>) -> int {
    if has_frac(s) {
        digits_end(s, int_end(s) + 1)
    } else {
        int_end(s)
    }
}

pub open spec fn has_exp(s: Seq<u8>) -> bool {
    frac_end(s) < s.len() && (s[frac_end(s)] == 101u8 || s[frac_end(s)] == 69u8)
}

pub open spec fn exp_neg(s: Seq<u8>) -> bool {
    has_exp(s) && frac_end(s) + 1 < s.len() && s[frac_end(s) + 1] == 45u8
}

pub open spec fn exp_digits_begin(s: Seq<u8>) -> int {
    if has_exp(s) && frac_end(s) + 1 < s.len() && (s[frac_end(s) + 1] == 43u8 || s[frac_end(s)
        + 1] == 45u8) {
        frac_end(s) + 2
    } else {
        frac_end(s) + 1
    }
}

/// The grammar of a decimal literal: digits, an optional fraction,
/// and an optional signed power-of-ten exponent, covering the whole
/// sequence.
pub open spec fn is_number(s: Seq<u8>) -> bool {
    &&& int_end(s) > 0
    &&& (has_frac(s) ==> frac_end(s) > frac_begin(s))
    &&& if has_exp(s) {
        exp_digits_begin(s) < s.len() && digits_end(s, exp_digits_begin(s)) == s.len()
    } else {
        frac_end(s) == s.len()
    }
}

/// The mantissa digits: integer part and fraction part, concatenated.
pub open spec fn mant_digits(s: Seq<u8>) -> Seq<u8> {
    s.subrange(0, int_end(s)) + s.subrange(frac_begin(s), frac_end(s))
}

pub open spec fn number_mant(s: Seq<u8>) -> nat {
    digits_val(mant_digits(s))
}

/// The power of ten of the literal: the written exponent, if any,
/// lowered by the number of fraction digits.
pub open spec fn number_exp(s: Seq<u8>) -> int {
    let e: int = if has_exp(s) {
        if exp_neg(s) {
            -(digits_val(s.subrange(exp_digits_begin(s), s.len() as int)) as int)
        } else {
            digits_val(s.subrange(exp_digits_begin(s), s.len() as int)) as int
        }
    } else {
        0
    };
    e - (frac_end(s) - frac_begin(s))
}

/// Concatenation splits a digit string's value by place value.
pub proof fn lemma_digits_val_append(a: Seq<u8>, b: Seq<u8>)
    ensures
        digits_val(a + b) == digits_val(a) * pow10(b.len()) + digits_val(b),
    decreases b.len(),
{
    if b.len() == 0 {
        assert(a + b =~= a);
        assert(pow10(b.len()) == 1);
        assert(digits_val(b) == 0);
        assert(digits_val(a) * 1 == digits_val(a)) by (nonlinear_arith);
    } else {
        lemma_digits_val_append(a, b.drop_last());
        assert((a + b).drop_last() =~= a + b.drop_last());
        assert((a + b).last() == b.last());
        assert(pow10(b.len()) == 10 * pow10((b.len() - 1) as nat));
        assert(digits_val(a + b) == 10 * (digits_val(a) * pow10((b.len() - 1) as nat)
            + digits_val(b.drop_last())) + digit_val(b.last()));
        assert(10 * (digits_val(a) * pow10((b.len() - 1) as nat) + digits_val(b.drop_last()))
            == digits_val(a) * (10 * pow10((b.len() - 1) as nat)) + 10 * digits_val(
            b.drop_last(),
        )) by (nonlinear_arith);
        assert(digits_val(b) == 10 * digits_val(b.drop_last()) + digit_val(b.last()));
    }
}

/// A digit string is worth at least any of its prefixes.
pub proof fn lemma_digits_val_prefix(a: Seq<u8>, b: Seq<u8>)
    ensures
        digits_val(a + b) >= digits_val(a),
{
    lemma_digits_val_append(a, b);
    lemma_pow10_positive(b.len());
    assert(digits_val(a) * pow10(b.len()) >= digits_val(a) * 1) by (nonlinear_arith)
        requires
            pow10(b.len()) >= 1,
    ;
}

/// An exact nonnegative decimal number with value `mant * 10^exp`.
#[derive(Clone, Copy, Debug, PartialEq, Eq, Structural)]
pub struct Decimal {
    pub mant: u64,
    pub exp: i32,
}

/// The value of `d` in units of `10^-s`, i.e. `d * 10^s`, as a
/// mathematical integer.  Meaningful when `d.exp + s >= 0`.
pub open spec fn scaled(d: Decimal, s: int) -> int {
    d.mant * pow10((d.exp + s) as nat)
}

/// Whether `d` has an exact representation in units of `10^-s`
/// small enough for the solver's arithmetic.
pub open spec fn representable(d: Decimal, s: int) -> bool {
    0 <= d.exp + s <= 38
}

impl Decimal {
    pub fn new(mant: u64, exp: i32) -> (r: Decimal)
        ensures
            r == (Decimal { mant, exp }),
    {
        Decimal { mant, exp }
    }

    /// `self * 10^s`, exact; the caller guarantees it fits.
    pub fn to_scale(&self, s: i32) -> (r: u128)
        requires
            -38 <= s <= 38,
            representable(*self, s as int),
            scaled(*self, s as int) <= u128::MAX,
        ensures
            r as int == scaled(*self, s as int),
    {
        let e: i64 = self.exp as i64 + s as i64;
        let p: u128 = pow10_u128(e as u32);
        (self.mant as u128) * p
    }

    /// `self * 10^s` when that is exact and fits, `None` otherwise.
    pub fn to_scale_checked(&self, s: i32) -> (r: Option<u128>)
        requires
            -38 <= s <= 38,
        ensures
            match r {
                Some(v) => representable(*self, s as int) && v as int == scaled(
                    *self,
                    s as int,
                ),
                None => !representable(*self, s as int) || scaled(*self, s as int)
                    > u128::MAX,
            },
    {
        let e: i64 = self.exp as i64 + s as i64;
        if e < 0 || e > 38 {
            return None;
        }
        let p: u128 = pow10_u128(e as u32);
        (self.mant as u128).checked_mul(p)
    }
}

/// Parse a decimal literal — digits, an optional fraction, an optional
/// signed exponent — into an exact `Decimal`.
///
/// Succeeds exactly on well-formed literals whose mantissa fits `u64`
/// and whose power of ten fits `i32`.
pub fn parse_decimal(b: &[u8]) -> (r: Option<Decimal>)
    requires
        b@.len() <= 1000000,
    ensures
        r matches Some(d) ==> is_number(b@) && d.mant as nat == number_mant(b@) && d.exp as int
            == number_exp(b@),
        r is None ==> !is_number(b@) || number_mant(b@) > u64::MAX as nat || number_exp(b@)
            < i32::MIN as int || number_exp(b@) > i32::MAX as int,
{
    let n = b.len();
    // Integer part.
    let mut i: usize = 0;
    let mut mant: u64 = 0;
    let mut big_mant = false;
    while i < n && b[i] >= 48 && b[i] <= 57
        invariant
            n == b@.len(),
            i <= n,
            digits_end(b@, 0) == digits_end(b@, i as int),
            !big_mant ==> mant as nat == digits_val(b@.subrange(0, i as int)),
            big_mant ==> digits_val(b@.subrange(0, i as int)) > u64::MAX,
        decreases n - i,
    {
        let d8: u64 = (b[i] - 48) as u64;
        proof {
            assert(b@.subrange(0, i + 1).drop_last() =~= b@.subrange(0, i as int));
            assert(b@.subrange(0, i + 1).last() == b@[i as int]);
        }
        if !big_mant {
            let m10 = mant.checked_mul(10);
            match m10 {
                Some(m) => {
                    match m.checked_add(d8) {
                        Some(m2) => {
                            mant = m2;
                        },
                        None => {
                            big_mant = true;
                        },
                    }
                },
                None => {
                    big_mant = true;
                },
            }
        }
        i = i + 1;
    }
    proof {
        assert(digits_end(b@, i as int) == i as int);
        assert(int_end(b@) == i as int);
    }
    if i == 0 {
        return None;
    }
    let ie = i;

    // Fraction part.
    let mut frac_len: usize = 0;
    if i < n && b[i] == 46 {
        let start = i + 1;
        i = i + 1;
        proof {
            assert(b@.subrange(0, ie as int) + b@.subrange(start as int, i as int) =~= b@
                .subrange(0, ie as int));
            if big_mant {
                lemma_digits_val_prefix(
                    b@.subrange(0, ie as int),
                    b@.subrange(start as int, i as int),
                );
            }
        }
        while i < n && b[i] >= 48 && b[i] <= 57
            invariant
                n == b@.len(),
                start <= i <= n,
                ie < start,
                digits_end(b@, start as int) == digits_end(b@, i as int),
                !big_mant ==> mant as nat == digits_val(
                    b@.subrange(0, ie as int) + b@.subrange(start as int, i as int),
                ),
                big_mant ==> digits_val(
                    b@.subrange(0, ie as int) + b@.subrange(start as int, i as int),
                ) > u64::MAX,
            decreases n - i,
        {
            let d8: u64 = (b[i] - 48) as u64;
            proof {
                assert((b@.subrange(0, ie as int) + b@.subrange(start as int, i + 1)).drop_last()
                    =~= b@.subrange(0, ie as int) + b@.subrange(start as int, i as int));
                assert((b@.subrange(0, ie as int) + b@.subrange(start as int, i + 1)).last() == b@[
                i as int]);
            }
            if !big_mant {
                let m10 = mant.checked_mul(10);
                match m10 {
                    Some(m) => {
                        match m.checked_add(d8) {
                            Some(m2) => {
                                mant = m2;
                            },
                            None => {
                                big_mant = true;
                            },
                        }
                    },
                    None => {
                        big_mant = true;
                    },
                }
            }
            i = i + 1;
        }
        proof {
            assert(digits_end(b@, i as int) == i as int);
            assert(frac_end(b@) == i as int);
        }
        if i == start {
            return None;
        }
        frac_len = i - start;
    }
    proof {
        assert(frac_end(b@) == i as int);
        assert(frac_len as int == frac_end(b@) - frac_begin(b@));
        assert(b@.subrange(0, ie as int) + b@.subrange(
            frac_begin(b@),
            frac_end(b@),
        ) =~= mant_digits(b@));
    }

    // Exponent part.
    let mut e_neg = false;
    let mut e_acc: u64 = 0;
    let mut big_exp = false;
    if i < n && (b[i] == 101 || b[i] == 69) {
        let mut j = i + 1;
        if j < n && (b[j] == 43 || b[j] == 45) {
            e_neg = b[j] == 45;
            j = j + 1;
        }
        if j >= n {
            return None;
        }
        let eb = j;
        proof {
            assert(eb as int == exp_digits_begin(b@));
        }
        while j < n && b[j] >= 48 && b[j] <= 57
            invariant
                n == b@.len(),
                eb <= j <= n,
                digits_end(b@, eb as int) == digits_end(b@, j as int),
                !big_exp ==> e_acc as nat == digits_val(b@.subrange(eb as int, j as int)),
                !big_exp ==> e_acc <= 30000000009,
                big_exp ==> digits_val(b@.subrange(eb as int, j as int)) > 3000000000,
            decreases n - j,
        {
            let d8: u64 = (b[j] - 48) as u64;
            proof {
                assert(b@.subrange(eb as int, j + 1).drop_last() =~= b@.subrange(
                    eb as int,
                    j as int,
                ));
                assert(b@.subrange(eb as int, j + 1).last() == b@[j as int]);
            }
            if !big_exp {
                if e_acc > 3000000000 {
                    big_exp = true;
                } else {
                    e_acc = e_acc * 10 + d8;
                }
            }
            j = j + 1;
        }
        proof {
            assert(digits_end(b@, j as int) == j as int);
        }
        if j == eb {
            return None;
        }
        if j < n {
            return None;
        }
        i = j;
    } else {
        if i < n {
            return None;
        }
    }
    proof {
        assert(is_number(b@));
    }
    if big_exp {
        return None;
    }
    let ev: i64 = if e_neg {
        -(e_acc as i64)
    } else {
        e_acc as i64
    };
    let ex: i64 = ev - frac_len as i64;
    proof {
        assert(ex as int == number_exp(b@));
    }
    if ex < -2147483648 || ex > 2147483647 {
        return None;
    }
    if big_mant {
        return None;
    }
    proof {
        assert(mant as nat == number_mant(b@));
    }
    Some(Decimal { mant, exp: ex as i32 })
}

} // verus!
