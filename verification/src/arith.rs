//! Powers of ten and an integer square root, the two arithmetic
//! primitives the solver is built on.

use vstd::prelude::*;

verus! {

/// 10^e as a mathematical natural.
pub open spec fn pow10(e: nat) -> nat
    decreases e,
{
    if e == 0 {
        1
    } else {
        10 * pow10((e - 1) as nat)
    }
}

pub proof fn lemma_pow10_positive(e: nat)
    ensures
        pow10(e) >= 1,
    decreases e,
{
    if e > 0 {
        lemma_pow10_positive((e - 1) as nat);
    }
}

pub proof fn lemma_pow10_increases(a: nat, b: nat)
    requires
        a <= b,
    ensures
        pow10(a) <= pow10(b),
    decreases b,
{
    if a < b {
        lemma_pow10_increases(a, (b - 1) as nat);
        lemma_pow10_positive((b - 1) as nat);
    }
}

/// 10^38 written out, so that bounds on scaled values fit in `u128`.
pub proof fn lemma_pow10_38()
    ensures
        pow10(38) == 100000000000000000000000000000000000000,
{
    reveal_with_fuel(pow10, 40);
}

/// 10^e, computed; `e <= 38` keeps the result inside `u128`.
pub fn pow10_u128(e: u32) -> (r: u128)
    requires
        e <= 38,
    ensures
        r == pow10(e as nat),
{
    let mut r: u128 = 1;
    let mut i: u32 = 0;
    while i < e
        invariant
            i <= e,
            e <= 38,
            r == pow10(i as nat),
        decreases e - i,
    {
        proof {
            lemma_pow10_increases((i + 1) as nat, 38);
            lemma_pow10_38();
        }
        r = r * 10;
        i = i + 1;
    }
    r
}

/// The powers of ten the solver scales by, written out.
pub proof fn lemma_pow10_vals()
    ensures
        pow10(2) == 100,
        pow10(6) == 1000000,
        pow10(8) == 100000000,
        pow10(15) == 1000000000000000,
        pow10(17) == 100000000000000000,
        pow10(18) == 1000000000000000000,
        pow10(24) == 1000000000000000000000000,
        pow10(28) == 10000000000000000000000000000,
        pow10(29) == 100000000000000000000000000000,
        pow10(38) == 100000000000000000000000000000000000000,
{
    reveal_with_fuel(pow10, 40);
}

/// `x / d < b` whenever `x < d * b`.
pub proof fn lemma_div_bound(x: int, d: int, b: int)
    requires
        0 <= x,
        1 <= d,
        x < d * b,
    ensures
        x / d < b,
{
    vstd::arithmetic::div_mod::lemma_fundamental_div_mod(x, d);
    vstd::arithmetic::div_mod::lemma_mod_bound(x, d);
    assert(x / d < b) by (nonlinear_arith)
        requires
            1 <= d,
            x == d * (x / d) + x % d,
            0 <= x % d,
            x < d * b,
    ;
}

/// `x / d >= b` whenever `d * b <= x`.
pub proof fn lemma_div_at_least(x: int, d: int, b: int)
    requires
        1 <= d,
        0 <= b,
        d * b <= x,
    ensures
        x / d >= b,
{
    vstd::arithmetic::div_mod::lemma_fundamental_div_mod(x, d);
    vstd::arithmetic::div_mod::lemma_mod_bound(x, d);
    assert(x / d >= b) by (nonlinear_arith)
        requires
            1 <= d,
            x == d * (x / d) + x % d,
            x % d < d,
            d * b <= x,
    ;
}

/// Dividing a multiple: `(b * d) / d == b`.
pub proof fn lemma_div_exact(b: int, d: int)
    requires
        0 <= b,
        1 <= d,
    ensures
        (b * d) / d == b,
{
    lemma_div_at_least(b * d, d, b);
    assert(b * d < d * (b + 1)) by (nonlinear_arith)
        requires
            0 <= b,
            1 <= d,
    ;
    lemma_div_bound(b * d, d, b + 1);
}

/// `r` is the floor of the real square root of `n`.
pub open spec fn is_sqrt_floor(n: int, r: int) -> bool {
    0 <= r && r * r <= n && n < (r + 1) * (r + 1)
}

/// The floor of the real square root of `n`.
pub open spec fn sqrt_floor(n: nat) -> nat {
    choose|r: nat| is_sqrt_floor(n as int, r as int)
}

pub proof fn lemma_sqrt_floor_unique(n: int, r1: int, r2: int)
    requires
        is_sqrt_floor(n, r1),
        is_sqrt_floor(n, r2),
    ensures
        r1 == r2,
{
    assert(r1 == r2) by (nonlinear_arith)
        requires
            is_sqrt_floor(n, r1),
            is_sqrt_floor(n, r2),
    ;
}

pub proof fn lemma_sqrt_floor_exists(n: nat)
    ensures
        is_sqrt_floor(n as int, sqrt_floor(n) as int),
    decreases n,
{
    if n == 0 {
        assert(is_sqrt_floor(0, 0));
    } else {
        lemma_sqrt_floor_exists((n - 1) as nat);
        let r = sqrt_floor((n - 1) as nat);
        if (r + 1) * (r + 1) <= n {
            assert(is_sqrt_floor(n as int, (r + 1) as int)) by (nonlinear_arith)
                requires
                    is_sqrt_floor((n - 1) as int, r as int),
                    (r + 1) * (r + 1) <= n,
            ;
        } else {
            assert(is_sqrt_floor(n as int, r as int));
        }
    }
}

/// `sqrt_floor` characterized: the unique `r` with `r^2 <= n < (r+1)^2`.
pub proof fn lemma_sqrt_floor_is(n: nat, r: nat)
    requires
        is_sqrt_floor(n as int, r as int),
    ensures
        sqrt_floor(n) == r,
{
    lemma_sqrt_floor_exists(n);
    lemma_sqrt_floor_unique(n as int, sqrt_floor(n) as int, r as int);
}

pub proof fn lemma_sqrt_floor_monotone(a: nat, b: nat)
    requires
        a <= b,
    ensures
        sqrt_floor(a) <= sqrt_floor(b),
{
    lemma_sqrt_floor_exists(a);
    lemma_sqrt_floor_exists(b);
    assert(sqrt_floor(a) <= sqrt_floor(b)) by (nonlinear_arith)
        requires
            a <= b,
            is_sqrt_floor(a as int, sqrt_floor(a) as int),
            is_sqrt_floor(b as int, sqrt_floor(b) as int),
    ;
}

/// A square is its own square root.
pub proof fn lemma_sqrt_floor_square(r: nat)
    ensures
        sqrt_floor(r * r) == r,
{
    assert(is_sqrt_floor((r * r) as int, r as int)) by (nonlinear_arith);
    lemma_sqrt_floor_is(r * r, r);
}

/// Integer square root by binary search over `u128`.
pub fn isqrt(n: u128) -> (r: u128)
    ensures
        r as nat == sqrt_floor(n as nat),
        is_sqrt_floor(n as int, r as int),
{
    let mut lo: u128 = 0;
    let mut hi: u128 = 0xFFFF_FFFF_FFFF_FFFF;
    if n < hi {
        hi = n;
    }
    proof {
        assert((hi as int + 1) * (hi as int + 1) > n as int) by (nonlinear_arith)
            requires
                hi as int + 1 > 0xFFFF_FFFF_FFFF_FFFFu128 as int || hi as int >= n as int,
                n <= u128::MAX,
        ;
    }
    while lo < hi
        invariant
            lo <= hi,
            (lo as int) * (lo as int) <= n as int,
            (hi as int + 1) * (hi as int + 1) > n as int,
            hi <= 0xFFFF_FFFF_FFFF_FFFFu128,
        decreases hi - lo,
    {
        let mid: u128 = lo + (hi - lo + 1) / 2;
        proof {
            assert((mid as int) * (mid as int) <= u128::MAX as int) by (nonlinear_arith)
                requires
                    0 <= mid as int <= 0xFFFF_FFFF_FFFF_FFFFu128 as int,
                    u128::MAX == 0xFFFF_FFFF_FFFF_FFFF_FFFF_FFFF_FFFF_FFFFu128,
            ;
        }
        if mid * mid <= n {
            lo = mid;
        } else {
            hi = mid - 1;
        }
    }
    proof {
        lemma_sqrt_floor_is(n as nat, lo as nat);
    }
    lo
}

} // verus!
