//! The compensation solver: places a pole/zero pair for a device,
//! range, feedback capacitance and target gain-bandwidth.
//!
//! All arithmetic is exact and integral.  Frequencies are carried in
//! micro-hertz, time constants in units of `10^-24` seconds, and the
//! pole-zero ratio in parts per million; square roots are floors.

use vstd::prelude::*;
use vstd::string::StringSliceAdditionalSpecFns;
use vstd::arithmetic::div_mod::lemma_div_is_ordered;
use vstd::arithmetic::div_mod::lemma_div_is_ordered_by_denominator;
use vstd::arithmetic::div_mod::lemma_fundamental_div_mod;
use vstd::arithmetic::div_mod::lemma_mod_bound;
use crate::arith::pow10;
use crate::arith::pow10_u128;
use crate::arith::sqrt_floor;
use crate::arith::isqrt;
use crate::arith::lemma_pow10_vals;
use crate::arith::lemma_div_bound;
use crate::arith::lemma_div_at_least;
use crate::arith::lemma_div_exact;
use crate::arith::lemma_sqrt_floor_exists;
use crate::arith::lemma_sqrt_floor_monotone;
use crate::arith::lemma_sqrt_floor_square;
use crate::number::Decimal;
use crate::number::scaled;
use crate::number::representable;
use crate::device::DeviceSpecification;
use crate::device::Error;
use crate::device::lookup_seq;
use crate::device::ratio_num;
use crate::device::ratio_den;

verus! {

/// `2 * pi`, scaled by `10^8`; pi taken to eight decimal places.
pub const TWO_PI_E8: u128 = 628318530;

/// A computed compensation: the echoed gain-bandwidth, the geometric
/// mean of the placed pole and zero in micro-hertz, and their ratio in
/// parts per million.
#[derive(Clone, Copy, Debug, PartialEq, Eq, Structural)]
pub struct CustomTrc {
    /// The requested gain-bandwidth, echoed unchanged, in hertz.
    pub gain_bandwidth: Decimal,
    /// Geometric mean of compensation pole and zero, micro-hertz.
    pub compensation_freq_uhz: u128,
    /// Pole-to-zero ratio, parts per million.
    pub pole_zero_ratio_ppm: u128,
}

/// Every intermediate quantity of one solver run, as mathematical
/// integers: the time constant, the capacitive pole, the provisional
/// zero, the placed pole and zero, and the two outputs.
pub ghost struct Placement {
    pub tau: int,
    pub fcap: int,
    pub z0: int,
    pub fp: int,
    pub fz: int,
    pub comp: int,
    pub ppm: int,
}

/// Natural capacitive pole in micro-hertz:
/// `1 / (2 pi tau)` with `tau` in units of `10^-24` seconds.
pub open spec fn f_cap_micro(tau: int) -> int {
    pow10(38) as int / (TWO_PI_E8 as int * tau)
}

/// Argument of the provisional-zero square root:
/// `gbw * fcap / max_pole_zero_ratio`, with the ratio as `p / q`.
pub open spec fn zero_sqrt_arg(fcap: int, gbw: int, p: int, q: int) -> int {
    (gbw * fcap * q) / p
}

/// One solver run over scaled integers: effective resistance in
/// micro-ohms, capacitance in attofarads, loop delay in `10^-24` s,
/// gain-bandwidth in micro-hertz, and the maximum pole-zero ratio as
/// the fraction `p / q`.
pub open spec fn solve(reff: int, ca: int, delay: int, gbw: int, p: int, q: int) -> Placement {
    let tau = reff * ca + delay;
    let fcap = f_cap_micro(tau);
    let s = sqrt_floor(zero_sqrt_arg(fcap, gbw, p, q) as nat) as int;
    let z0 = if fcap >= s {
        fcap
    } else {
        s
    };
    let zp = (z0 * p) / q;
    let fp = if zp <= 4 * gbw {
        zp
    } else {
        4 * gbw
    };
    let fpp = (fp * p) / q;
    let fz = if z0 <= fpp {
        z0
    } else {
        fpp
    };
    Placement {
        tau,
        fcap,
        z0,
        fp,
        fz,
        comp: sqrt_floor((fp * fz) as nat) as int,
        ppm: (fp * 1000000) / fz,
    }
}

/// The solver run that `calculate` performs for a device, a found
/// range resistance, a capacitance and a gain-bandwidth.
pub open spec fn device_solve(
    d: DeviceSpecification,
    base: Decimal,
    c: Decimal,
    g: Decimal,
) -> Placement {
    solve(
        d.reff_micro(base),
        scaled(c, 18),
        scaled(d.loop_delay, 24),
        scaled(g, 6),
        ratio_num(d.max_pole_zero_ratio),
        ratio_den(d.max_pole_zero_ratio),
    )
}

/// Machine limits on one solver run: the capacitance is positive and at
/// most one farad with attofarad resolution, the gain-bandwidth is
/// positive and at most `10^9` hertz with micro-hertz resolution, and
/// the loop time constant lies between `10^-16` and `10^5` seconds.
pub open spec fn inputs_ok(
    d: DeviceSpecification,
    base: Decimal,
    c: Decimal,
    g: Decimal,
) -> bool {
    let ca = scaled(c, 18);
    let gbw = scaled(g, 6);
    let tau = d.reff_micro(base) * ca + scaled(d.loop_delay, 24);
    &&& representable(c, 18)
    &&& 1 <= ca <= pow10(18)
    &&& representable(g, 6)
    &&& 1 <= gbw <= pow10(15)
    &&& pow10(8) <= tau <= pow10(29)
}

/// Within the machine limit on the time constant, the capacitive
/// pole is at least one micro-hertz unit.
pub proof fn lemma_fcap_positive(tau: int)
    requires
        1 <= tau <= pow10(29),
    ensures
        f_cap_micro(tau) >= 1,
{
    let den = TWO_PI_E8 as int * tau;
    lemma_pow10_vals();
    assert(1 * den <= pow10(38) && 1 <= den) by (nonlinear_arith)
        requires
            1 <= tau <= pow10(29) as int,
            pow10(29) == 100000000000000000000000000000,
            pow10(38) == 100000000000000000000000000000000000000,
            den == TWO_PI_E8 as int * tau,
            TWO_PI_E8 == 628318530u128,
    ;
    lemma_div_at_least(pow10(38) as int, den, 1);
}

/// Shape of a run whose pole is not clamped by the `4 * gbw` ceiling:
/// the zero keeps its provisional place, the pole sits `p / q` above
/// it, and both dominate the capacitive pole.
pub proof fn lemma_unclamped_shape(reff: int, ca: int, delay: int, gbw: int, p: int, q: int)
    requires
        0 <= reff,
        1 <= ca,
        0 <= delay,
        1 <= reff * ca + delay <= pow10(29),
        1 <= gbw,
        1 <= q < p,
        (solve(reff, ca, delay, gbw, p, q).z0 * p) / q <= 4 * gbw,
    ensures
        ({
            let m = solve(reff, ca, delay, gbw, p, q);
            &&& 1 <= m.fcap
            &&& m.fcap <= m.z0
            &&& m.z0 <= m.fp
            &&& m.fp == (m.z0 * p) / q
            &&& m.fz == m.z0
        }),
{
    let m = solve(reff, ca, delay, gbw, p, q);
    lemma_fcap_positive(reff * ca + delay);
    assert(m.fcap >= 1);
    assert(m.z0 >= m.fcap);
    // the pole is p/q above the provisional zero
    let a = (m.z0 * p) / q;
    assert(m.fp == a);
    // a >= z0
    lemma_div_exact(m.z0, q);
    assert(m.z0 * q <= m.z0 * p) by (nonlinear_arith)
        requires
            0 <= m.z0,
            q <= p,
    ;
    lemma_div_is_ordered(m.z0 * q, m.z0 * p, q);
    assert(a >= m.z0);
    // (a * p) / q >= z0, so the zero is not clamped
    assert(m.z0 * q <= a * p) by (nonlinear_arith)
        requires
            0 <= m.z0 <= a,
            1 <= q < p,
    ;
    lemma_div_is_ordered(m.z0 * q, a * p, q);
    assert((a * p) / q >= m.z0);
    assert(m.fz == m.z0);
}

/// The pole-zero ratio of an unclamped run lies between one and the
/// device's maximum ratio `p / q` (both in parts per million).
pub proof fn lemma_pole_zero_ratio_bounds(reff: int, ca: int, delay: int, gbw: int, p: int, q: int)
    requires
        0 <= reff,
        1 <= ca,
        0 <= delay,
        1 <= reff * ca + delay <= pow10(29),
        1 <= gbw,
        1 <= q < p,
        (solve(reff, ca, delay, gbw, p, q).z0 * p) / q <= 4 * gbw,
    ensures
        1000000 <= solve(reff, ca, delay, gbw, p, q).ppm,
        solve(reff, ca, delay, gbw, p, q).ppm <= (p * 1000000) / q,
{
    lemma_unclamped_shape(reff, ca, delay, gbw, p, q);
    let m = solve(reff, ca, delay, gbw, p, q);
    let z0 = m.z0;
    let a = m.fp;
    // lower bound: fp >= fz, so the ratio is at least one
    lemma_div_at_least(a * 1000000, z0, 1000000);
    assert(1000000 <= m.ppm);
    // upper bound: a * q <= z0 * p carries through the division by z0
    lemma_fundamental_div_mod(z0 * p, q);
    lemma_mod_bound(z0 * p, q);
    assert(a * q <= z0 * p) by (nonlinear_arith)
        requires
            z0 * p == q * a + (z0 * p) % q,
            0 <= (z0 * p) % q,
    ;
    let t = (a * 1000000) / z0;
    lemma_fundamental_div_mod(a * 1000000, z0);
    lemma_mod_bound(a * 1000000, z0);
    assert(t * q <= p * 1000000) by (nonlinear_arith)
        requires
            a * 1000000 == z0 * t + (a * 1000000) % z0,
            0 <= (a * 1000000) % z0,
            a * q <= z0 * p,
            1 <= z0,
            1 <= q,
            0 <= t,
    ;
    lemma_div_exact(t, q);
    lemma_div_is_ordered(t * q, p * 1000000, q);
    assert(m.ppm <= (p * 1000000) / q);
}

/// The pole-zero ratio never exceeds the device maximum `p / q`, on
/// any run within the solver's machine limits.
pub proof fn lemma_ratio_never_exceeds_max(
    reff: int,
    ca: int,
    delay: int,
    gbw: int,
    p: int,
    q: int,
)
    requires
        0 <= reff,
        1 <= ca,
        0 <= delay,
        1 <= reff * ca + delay <= pow10(29),
        1 <= gbw,
        1 <= q < p,
        q <= 1000000,
    ensures
        solve(reff, ca, delay, gbw, p, q).ppm <= (p * 1000000) / q,
{
    let m = solve(reff, ca, delay, gbw, p, q);
    lemma_fcap_positive(reff * ca + delay);
    let z0 = m.z0;
    assert(z0 >= 1);
    let a = (z0 * p) / q;
    let fp = m.fp;
    // fp is positive whichever side of the pole clamp was taken
    assert(z0 * q <= z0 * p) by (nonlinear_arith)
        requires
            0 <= z0,
            q <= p,
    ;
    lemma_div_exact(z0, q);
    lemma_div_is_ordered(z0 * q, z0 * p, q);
    assert(1 <= fp);
    let b = (fp * p) / q;
    assert(fp * q <= fp * p) by (nonlinear_arith)
        requires
            0 <= fp,
            q <= p,
    ;
    lemma_div_exact(fp, q);
    lemma_div_is_ordered(fp * q, fp * p, q);
    assert(b >= fp);
    let big = (p * 1000000) / q;
    if m.fz == z0 {
        // the zero kept its provisional place: the run of the
        // unclamped upper-bound argument, with fp at most a
        assert(fp <= a);
        lemma_fundamental_div_mod(z0 * p, q);
        lemma_mod_bound(z0 * p, q);
        assert(fp * q <= z0 * p) by (nonlinear_arith)
            requires
                z0 * p == q * a + (z0 * p) % q,
                0 <= (z0 * p) % q,
                fp <= a,
                1 <= q,
        ;
        let t = (fp * 1000000) / z0;
        lemma_fundamental_div_mod(fp * 1000000, z0);
        lemma_mod_bound(fp * 1000000, z0);
        assert(t * q <= p * 1000000) by (nonlinear_arith)
            requires
                fp * 1000000 == z0 * t + (fp * 1000000) % z0,
                0 <= (fp * 1000000) % z0,
                fp * q <= z0 * p,
                1 <= z0,
                1 <= q,
                0 <= t,
        ;
        lemma_div_exact(t, q);
        lemma_div_is_ordered(t * q, p * 1000000, q);
    } else {
        // the zero was relaxed to b, which is at least fp, so the
        // ratio stays at or under one
        assert(m.fz == b);
        assert(fp * 1000000 <= b * 1000000);
        lemma_div_is_ordered(fp * 1000000, b * 1000000, b);
        vstd::arithmetic::mul::lemma_mul_is_commutative(b, 1000000);
        lemma_div_exact(1000000, b);
        assert(m.ppm <= 1000000);
        assert(q * (1000000 + 1) <= p * 1000000) by (nonlinear_arith)
            requires
                q + 1 <= p,
                1 <= q <= 1000000,
        ;
        lemma_div_at_least(p * 1000000, q, 1000001);
    }
}

/// The pole-zero ratio is at least one whenever the pole ceiling
/// `4 * gbw` does not fall below the provisional zero.
pub proof fn lemma_ratio_at_least_one(reff: int, ca: int, delay: int, gbw: int, p: int, q: int)
    requires
        0 <= reff,
        1 <= ca,
        0 <= delay,
        1 <= reff * ca + delay <= pow10(29),
        1 <= gbw,
        1 <= q < p,
        4 * gbw >= solve(reff, ca, delay, gbw, p, q).z0,
    ensures
        solve(reff, ca, delay, gbw, p, q).ppm >= 1000000,
{
    let m = solve(reff, ca, delay, gbw, p, q);
    lemma_fcap_positive(reff * ca + delay);
    let z0 = m.z0;
    assert(z0 >= 1);
    // the pole sits at or above the provisional zero either way
    assert(z0 * q <= z0 * p) by (nonlinear_arith)
        requires
            0 <= z0,
            q <= p,
    ;
    lemma_div_exact(z0, q);
    lemma_div_is_ordered(z0 * q, z0 * p, q);
    assert(m.fp >= z0);
    // and the zero never rises above the provisional zero
    assert(m.fz <= z0 && m.fz >= 1 && m.fz <= m.fp) by {
        assert(m.fp * q <= m.fp * p) by (nonlinear_arith)
            requires
                0 <= m.fp,
                q <= p,
        ;
        lemma_div_exact(m.fp, q);
        lemma_div_is_ordered(m.fp * q, m.fp * p, q);
    }
    lemma_div_at_least(m.fp * 1000000, m.fz, 1000000);
}

/// In an unclamped run with a provisional zero of at least one hertz,
/// the pole-zero ratio reaches the device maximum `p / q` to within
/// one part per million.  Together with the `4 * gbw` pole ceiling
/// this is how the ratio behaves as the target gain-bandwidth grows.
pub proof fn lemma_ratio_approaches_max(reff: int, ca: int, delay: int, gbw: int, p: int, q: int)
    requires
        0 <= reff,
        1 <= ca,
        0 <= delay,
        1 <= reff * ca + delay <= pow10(29),
        1 <= gbw,
        1 <= q < p,
        (solve(reff, ca, delay, gbw, p, q).z0 * p) / q <= 4 * gbw,
        solve(reff, ca, delay, gbw, p, q).z0 >= 1000000,
    ensures
        (p * 1000000) / q - 1 <= solve(reff, ca, delay, gbw, p, q).ppm,
        solve(reff, ca, delay, gbw, p, q).ppm <= (p * 1000000) / q,
{
    lemma_pole_zero_ratio_bounds(reff, ca, delay, gbw, p, q);
    lemma_unclamped_shape(reff, ca, delay, gbw, p, q);
    let m = solve(reff, ca, delay, gbw, p, q);
    let z0 = m.z0;
    let a = m.fp;
    let big = (p * 1000000) / q;
    // big >= 10^6, so big - 1 is a meaningful bound
    assert(q * 1000000 <= p * 1000000) by (nonlinear_arith)
        requires
            q < p,
    ;
    lemma_div_at_least(p * 1000000, q, 1000000);
    // a * q is within q - 1 of z0 * p
    lemma_fundamental_div_mod(z0 * p, q);
    lemma_mod_bound(z0 * p, q);
    assert(q * a >= z0 * p - q + 1) by (nonlinear_arith)
        requires
            z0 * p == q * a + (z0 * p) % q,
            (z0 * p) % q < q,
    ;
    // big * q is at most p * 10^6
    lemma_fundamental_div_mod(p * 1000000, q);
    lemma_mod_bound(p * 1000000, q);
    assert(big * q <= p * 1000000) by (nonlinear_arith)
        requires
            p * 1000000 == q * big + (p * 1000000) % q,
            0 <= (p * 1000000) % q,
    ;
    // with z0 >= 10^6 the floor losses cannot exceed one millionth
    assert(z0 * (big - 1) <= a * 1000000) by (nonlinear_arith)
        requires
            big * q <= p * 1000000,
            q * a >= z0 * p - q + 1,
            z0 >= 1000000,
            1 <= q,
            0 <= a,
            0 <= big,
    ;
    lemma_div_at_least(a * 1000000, z0, big - 1);
}

/// The compensation frequency of an unclamped run is at least the
/// natural capacitive pole.
pub proof fn lemma_comp_freq_dominates_fcap(
    reff: int,
    ca: int,
    delay: int,
    gbw: int,
    p: int,
    q: int,
)
    requires
        0 <= reff,
        1 <= ca,
        0 <= delay,
        1 <= reff * ca + delay <= pow10(29),
        1 <= gbw,
        1 <= q < p,
        (solve(reff, ca, delay, gbw, p, q).z0 * p) / q <= 4 * gbw,
    ensures
        solve(reff, ca, delay, gbw, p, q).comp >= solve(reff, ca, delay, gbw, p, q).fcap,
{
    lemma_unclamped_shape(reff, ca, delay, gbw, p, q);
    let m = solve(reff, ca, delay, gbw, p, q);
    assert(m.z0 * m.z0 <= m.fp * m.fz) by (nonlinear_arith)
        requires
            0 <= m.z0 <= m.fp,
            m.fz == m.z0,
    ;
    lemma_sqrt_floor_square(m.z0 as nat);
    lemma_sqrt_floor_monotone((m.z0 * m.z0) as nat, (m.fp * m.fz) as nat);
    assert(m.comp >= m.z0);
}

/// The compensation frequency squares to the product of the placed
/// pole and zero, to within the integer floor.
pub proof fn lemma_comp_freq_geometric(reff: int, ca: int, delay: int, gbw: int, p: int, q: int)
    requires
        0 <= reff,
        1 <= ca,
        0 <= delay,
        1 <= reff * ca + delay,
        1 <= gbw,
        1 <= q < p,
    ensures
        ({
            let m = solve(reff, ca, delay, gbw, p, q);
            m.comp * m.comp <= m.fp * m.fz < (m.comp + 1) * (m.comp + 1)
        }),
{
    let m = solve(reff, ca, delay, gbw, p, q);
    let tau = reff * ca + delay;
    let den = TWO_PI_E8 as int * tau;
    assert(1 <= den) by (nonlinear_arith)
        requires
            1 <= tau,
            TWO_PI_E8 == 628318530u128,
            den == TWO_PI_E8 as int * tau,
    ;
    vstd::arithmetic::div_mod::lemma_div_pos_is_pos(pow10(38) as int, den);
    assert(m.fcap >= 0);
    assert(m.z0 >= 0);
    vstd::arithmetic::div_mod::lemma_div_pos_is_pos(m.z0 * p, q);
    assert(m.fp >= 0);
    vstd::arithmetic::div_mod::lemma_div_pos_is_pos(m.fp * p, q);
    assert(m.fz >= 0);
    assert(m.fp * m.fz >= 0) by (nonlinear_arith)
        requires
            m.fp >= 0,
            m.fz >= 0,
    ;
    lemma_sqrt_floor_exists((m.fp * m.fz) as nat);
}

/// Doubling (or otherwise raising) the capacitance lowers the natural
/// capacitive pole and with it the compensation frequency.
pub proof fn lemma_comp_freq_antitone_in_capacitance(
    reff: int,
    ca1: int,
    ca2: int,
    delay: int,
    gbw: int,
    p: int,
    q: int,
)
    requires
        0 <= reff,
        1 <= ca1 <= ca2,
        0 <= delay,
        1 <= reff * ca1 + delay,
        1 <= gbw,
        1 <= q < p,
    ensures
        solve(reff, ca2, delay, gbw, p, q).fcap <= solve(reff, ca1, delay, gbw, p, q).fcap,
        solve(reff, ca2, delay, gbw, p, q).comp <= solve(reff, ca1, delay, gbw, p, q).comp,
{
    let m1 = solve(reff, ca1, delay, gbw, p, q);
    let m2 = solve(reff, ca2, delay, gbw, p, q);
    let tau1 = reff * ca1 + delay;
    let tau2 = reff * ca2 + delay;
    let den1 = TWO_PI_E8 as int * tau1;
    let den2 = TWO_PI_E8 as int * tau2;
    assert(1 <= den1 <= den2) by (nonlinear_arith)
        requires
            0 <= reff,
            1 <= ca1 <= ca2,
            0 <= delay,
            1 <= tau1,
            tau1 == reff * ca1 + delay,
            tau2 == reff * ca2 + delay,
            den1 == TWO_PI_E8 as int * tau1,
            den2 == TWO_PI_E8 as int * tau2,
            TWO_PI_E8 == 628318530u128,
    ;
    lemma_div_is_ordered_by_denominator(pow10(38) as int, den1, den2);
    assert(m2.fcap <= m1.fcap);
    vstd::arithmetic::div_mod::lemma_div_pos_is_pos(pow10(38) as int, den1);
    // the square-root argument falls with fcap
    assert(gbw * m2.fcap * q <= gbw * m1.fcap * q) by (nonlinear_arith)
        requires
            0 <= m2.fcap <= m1.fcap,
            1 <= gbw,
            1 <= q,
    ;
    assert(0 <= gbw * m2.fcap * q) by (nonlinear_arith)
        requires
            0 <= m2.fcap,
            1 <= gbw,
            1 <= q,
    ;
    lemma_div_is_ordered(gbw * m2.fcap * q, gbw * m1.fcap * q, p);
    vstd::arithmetic::div_mod::lemma_div_pos_is_pos(gbw * m2.fcap * q, p);
    lemma_sqrt_floor_monotone(
        zero_sqrt_arg(m2.fcap, gbw, p, q) as nat,
        zero_sqrt_arg(m1.fcap, gbw, p, q) as nat,
    );
    assert(m2.z0 <= m1.z0);
    // every later step is monotone in the provisional zero
    assert(0 <= m2.z0 && m2.z0 * p <= m1.z0 * p) by (nonlinear_arith)
        requires
            0 <= m2.z0 <= m1.z0,
            1 <= p,
    ;
    lemma_div_is_ordered(m2.z0 * p, m1.z0 * p, q);
    vstd::arithmetic::div_mod::lemma_div_pos_is_pos(m2.z0 * p, q);
    assert(m2.fp <= m1.fp);
    assert(m2.fp * p <= m1.fp * p && 0 <= m2.fp * p) by (nonlinear_arith)
        requires
            0 <= m2.fp <= m1.fp,
            1 <= p,
    ;
    lemma_div_is_ordered(m2.fp * p, m1.fp * p, q);
    vstd::arithmetic::div_mod::lemma_div_pos_is_pos(m2.fp * p, q);
    assert(m2.fz <= m1.fz);
    assert(0 <= m2.fp * m2.fz <= m1.fp * m1.fz) by (nonlinear_arith)
        requires
            0 <= m2.fp <= m1.fp,
            0 <= m2.fz <= m1.fz,
    ;
    lemma_sqrt_floor_monotone((m2.fp * m2.fz) as nat, (m1.fp * m1.fz) as nat);
    assert(m2.comp <= m1.comp);
}

/// With no loop delay and no offset resistance the capacitive pole is
/// exactly `1 / (2 pi R C)`, in the solver's scaled units.
pub proof fn lemma_fcap_pure_rc(r: int, ca: int, gbw: int, p: int, q: int)
    ensures
        solve(r, ca, 0, gbw, p, q).fcap == pow10(38) as int / (TWO_PI_E8 as int * (r * ca)),
{
}

/// When the spread budget would push the pole past four times the
/// target crossover, the pole is clamped to exactly `4 * gbw`.
pub proof fn lemma_pole_clamped(reff: int, ca: int, delay: int, gbw: int, p: int, q: int)
    requires
        (solve(reff, ca, delay, gbw, p, q).z0 * p) / q > 4 * gbw,
    ensures
        solve(reff, ca, delay, gbw, p, q).fp == 4 * gbw,
{
}

impl DeviceSpecification {
    /// The natural capacitive pole of a range in micro-hertz:
    /// `1 / (2 pi (R_eff C + loop_delay))`.
    ///
    /// Fails with `NoSuchRange` exactly when `range` is not a key of
    /// this device.
    pub fn natural_pole(&self, range: &str, capacitance: Decimal) -> (r: Result<u128, Error>)
        requires
            self.wf(),
            lookup_seq(self.ranges_view(), range.spec_bytes()) matches Some(base) ==> {
                &&& representable(capacitance, 18)
                &&& 1 <= scaled(capacitance, 18) <= pow10(18)
                &&& pow10(8) <= self.reff_micro(base) * scaled(capacitance, 18) + scaled(
                    self.loop_delay,
                    24,
                ) <= pow10(29)
            },
        ensures
            r is Err <==> lookup_seq(self.ranges_view(), range.spec_bytes()) is None,
            r matches Err(e) ==> e == Error::NoSuchRange,
            r matches Ok(v) ==> {
                let base = lookup_seq(self.ranges_view(), range.spec_bytes()).unwrap();
                v as int == f_cap_micro(
                    self.reff_micro(base) * scaled(capacitance, 18) + scaled(self.loop_delay, 24),
                )
            },
    {
        let reff: u128 = match self.calculateResistance(range) {
            Ok(v) => v,
            Err(e) => {
                return Err(e);
            },
        };
        proof {
            lemma_pow10_vals();
        }
        let ca: u128 = capacitance.to_scale(18);
        let delay: u128 = self.loop_delay.to_scale(24);
        let tau: u128 = reff * ca + delay;
        proof {
            assert((TWO_PI_E8 as int) * (tau as int)
                <= 62831853000000000000000000000000000000) by (nonlinear_arith)
                requires
                    tau <= 100000000000000000000000000000u128,
                    TWO_PI_E8 == 628318530u128,
            ;
        }
        let den: u128 = TWO_PI_E8 * tau;
        Ok(100000000000000000000000000000000000000u128 / den)
    }

    /// Place the compensation pole and zero.
    ///
    /// Fails with `NoSuchRange` exactly when `range` is not a key of
    /// this device; otherwise the result is the run of `device_solve`
    /// on the effective resistance, with the gain-bandwidth echoed
    /// unchanged.
    pub fn calculate(&self, range: &str, capacitance: Decimal, gain_bandwidth: Decimal) -> (r:
        Result<CustomTrc, Error>)
        requires
            self.wf(),
            lookup_seq(self.ranges_view(), range.spec_bytes()) matches Some(base) ==> inputs_ok(
                *self,
                base,
                capacitance,
                gain_bandwidth,
            ),
        ensures
            r is Err <==> lookup_seq(self.ranges_view(), range.spec_bytes()) is None,
            r matches Err(e) ==> e == Error::NoSuchRange,
            r matches Ok(trc) ==> {
                let base = lookup_seq(self.ranges_view(), range.spec_bytes()).unwrap();
                let m = device_solve(*self, base, capacitance, gain_bandwidth);
                &&& trc.gain_bandwidth == gain_bandwidth
                &&& trc.compensation_freq_uhz as int == m.comp
                &&& trc.pole_zero_ratio_ppm as int == m.ppm
            },
    {
        let reff: u128 = match self.calculateResistance(range) {
            Ok(v) => v,
            Err(e) => {
                return Err(e);
            },
        };
        let ghost base = lookup_seq(self.ranges_view(), range.spec_bytes()).unwrap();
        proof {
            lemma_pow10_vals();
        }

        // Scaled inputs.
        let ca: u128 = capacitance.to_scale(18);
        let gbw: u128 = gain_bandwidth.to_scale(6);
        let delay: u128 = self.loop_delay.to_scale(24);
        let mp = self.max_pole_zero_ratio;
        let (p, q): (u128, u128) = if mp.exp >= 0 {
            ((mp.mant as u128) * pow10_u128(mp.exp as u32), 1)
        } else {
            (mp.mant as u128, pow10_u128((-mp.exp) as u32))
        };
        proof {
            assert(p as int == ratio_num(mp));
            assert(q as int == ratio_den(mp));
            if mp.exp < 0 {
                crate::arith::lemma_pow10_increases((-mp.exp) as nat, 2);
            }
            assert(1 <= q <= 100);
            assert(q < p <= 1000000);
        }

        // Step 2: the capacitive pole.
        let tau: u128 = reff * ca + delay;
        proof {
            assert((TWO_PI_E8 as int) * (tau as int)
                <= 62831853000000000000000000000000000000) by (nonlinear_arith)
                requires
                    tau <= 100000000000000000000000000000u128,
                    TWO_PI_E8 == 628318530u128,
            ;
            assert((TWO_PI_E8 as int) * (tau as int) >= 62831853000000000) by (nonlinear_arith)
                requires
                    tau >= 100000000u128,
                    TWO_PI_E8 == 628318530u128,
            ;
        }
        let den: u128 = TWO_PI_E8 * tau;
        let fcap: u128 = 100000000000000000000000000000000000000u128 / den;
        proof {
            lemma_div_at_least(pow10(38) as int, den as int, 1);
            lemma_div_bound(pow10(38) as int, den as int, 2000000000000000000000);
            assert(fcap as int == f_cap_micro(tau as int));
            assert(1 <= fcap < 2000000000000000000000u128);
            assert((gbw as int) * (fcap as int)
                <= 2000000000000000000000000000000000000) by (nonlinear_arith)
                requires
                    gbw <= 1000000000000000u128,
                    1 <= fcap < 2000000000000000000000u128,
            ;
        }

        // Step 3: the provisional zero.
        let gf: u128 = gbw * fcap;
        proof {
            assert((gf as int) * (q as int)
                <= 200000000000000000000000000000000000000) by (nonlinear_arith)
                requires
                    gf <= 2000000000000000000000000000000000000u128,
                    q <= 100,
            ;
        }
        let gfq: u128 = gf * q;
        let inner: u128 = gfq / p;
        let s: u128 = isqrt(inner);
        let z0: u128 = if fcap >= s {
            fcap
        } else {
            s
        };
        proof {
            assert(inner as int == zero_sqrt_arg(fcap as int, gbw as int, p as int, q as int));
            assert(s < 20000000000000000000u128) by (nonlinear_arith)
                requires
                    (s as int) * (s as int) <= inner as int,
                    inner <= 200000000000000000000000000000000000000u128,
            ;
            assert(z0 as int == device_solve(*self, base, capacitance, gain_bandwidth).z0);
            assert(1 <= z0 < 2000000000000000000000u128);
            assert((z0 as int) * (p as int) <= 2000000000000000000000000000) by (nonlinear_arith)
                requires
                    z0 < 2000000000000000000000u128,
                    p <= 1000000,
            ;
        }

        // Step 4: the pole, never above four times the target crossover.
        let zp: u128 = z0 * p;
        let zpq: u128 = zp / q;
        let fourg: u128 = 4 * gbw;
        let fp: u128 = if zpq <= fourg {
            zpq
        } else {
            fourg
        };
        proof {
            assert((q as int) * 1 <= zp as int) by (nonlinear_arith)
                requires
                    zp as int == (z0 as int) * (p as int),
                    z0 >= 1,
                    (p as int) > (q as int),
                    q >= 1,
            ;
            lemma_div_at_least(zp as int, q as int, 1);
            assert(fp as int == device_solve(*self, base, capacitance, gain_bandwidth).fp);
            assert(1 <= fp <= 4000000000000000u128);
            assert((fp as int) * (p as int) <= 4000000000000000000000) by (nonlinear_arith)
                requires
                    fp <= 4000000000000000u128,
                    p <= 1000000,
            ;
        }

        // Step 5: the zero, clamped so the spread stays within bounds.
        let fpp: u128 = fp * p;
        let fppq: u128 = fpp / q;
        let fz: u128 = if z0 <= fppq {
            z0
        } else {
            fppq
        };
        proof {
            assert((q as int) * 1 <= fpp as int) by (nonlinear_arith)
                requires
                    fpp as int == (fp as int) * (p as int),
                    fp >= 1,
                    (p as int) > (q as int),
                    q >= 1,
            ;
            lemma_div_at_least(fpp as int, q as int, 1);
            assert(fz as int == device_solve(*self, base, capacitance, gain_bandwidth).fz);
            assert(1 <= fz < 2000000000000000000000u128);
            assert((fp as int) * (fz as int)
                <= 8000000000000000000000000000000000000) by (nonlinear_arith)
                requires
                    fp <= 4000000000000000u128,
                    fz < 2000000000000000000000u128,
            ;
        }

        // Step 6: the outputs.
        let prod: u128 = fp * fz;
        let comp: u128 = isqrt(prod);
        let fpm: u128 = fp * 1000000;
        let ppm: u128 = fpm / fz;
        proof {
            assert(comp as int == device_solve(*self, base, capacitance, gain_bandwidth).comp);
            assert(ppm as int == device_solve(*self, base, capacitance, gain_bandwidth).ppm);
        }
        Ok(
            CustomTrc {
                gain_bandwidth,
                compensation_freq_uhz: comp,
                pole_zero_ratio_ppm: ppm,
            },
        )
    }
}

} // verus!
