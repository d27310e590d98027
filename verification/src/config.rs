//! Parser for the bundled device-description format: `key = value`
//! lines for the three scalar parameters, then a `[ranges]` table of
//! `name = resistance` entries.  Values are decimal literals; names
//! may be quoted.
//!
//! The grammar is modelled line by line: `line_step` is one line
//! applied to the parser state, `config_fold` is the whole text, and
//! `parse_device_spec` returns exactly what the model says.

use vstd::prelude::*;
use vstd::string::StringSliceAdditionalSpecFns;
use crate::arith::pow10;
use crate::arith::pow10_u128;
use crate::arith::lemma_pow10_vals;
use crate::arith::lemma_pow10_increases;
use crate::number::Decimal;
use crate::number::parse_decimal;
use crate::number::scaled;
use crate::number::representable;
use crate::number::is_number;
use crate::number::number_mant;
use crate::number::number_exp;
use crate::device::DeviceSpecification;
use crate::device::bytes_eq;
use crate::device::ratio_num;
use crate::device::ratio_den;

verus! {

/// Space, tab or carriage return.
pub open spec fn is_space(c: u8) -> bool {
    c == 32 || c == 9 || c == 13
}

/// First position at or after `lo` (up to `hi`) holding no whitespace.
pub open spec fn skip_ws(s: Seq<u8>, lo: int, hi: int) -> int
    decreases hi - lo,
{
    if lo < 0 || lo >= hi || lo >= s.len() || !is_space(s[lo]) {
        lo
    } else {
        skip_ws(s, lo + 1, hi)
    }
}

/// End of `[lo, hi)` with trailing whitespace removed.
pub open spec fn rskip_ws(s: Seq<u8>, lo: int, hi: int) -> int
    decreases hi,
{
    if hi <= lo || hi <= 0 || hi > s.len() || !is_space(s[hi - 1]) {
        hi
    } else {
        rskip_ws(s, lo, hi - 1)
    }
}

/// First newline at or after `from`, or the end of `s`.
pub open spec fn line_end(s: Seq<u8>, from: int) -> int
    decreases s.len() - from,
{
    if from < 0 || from >= s.len() || s[from] == 10u8 {
        from
    } else {
        line_end(s, from + 1)
    }
}

/// First `=` in `[from, to)`, or `to`.
pub open spec fn find_eq(s: Seq<u8>, from: int, to: int) -> int
    decreases to - from,
{
    if from < 0 || from >= to || from >= s.len() || s[from] == 61u8 {
        from
    } else {
        find_eq(s, from + 1, to)
    }
}

/// The decimal a byte sequence denotes, when well formed and in range.
pub open spec fn dec_of(s: Seq<u8>) -> Option<Decimal> {
    if is_number(s) && number_mant(s) <= u64::MAX && i32::MIN <= number_exp(s) <= i32::MAX {
        Some(Decimal { mant: number_mant(s) as u64, exp: number_exp(s) as i32 })
    } else {
        None
    }
}

/// A resistance within the solver's micro-ohm machine limits.
pub open spec fn resistance_ok(d: Decimal) -> bool {
    representable(d, 6) && scaled(d, 6) <= pow10(17)
}

/// A loop delay within the solver's machine limits.
pub open spec fn delay_ok(d: Decimal) -> bool {
    representable(d, 24) && scaled(d, 24) <= pow10(28)
}

/// A maximum pole-zero ratio: a fraction `p / q` with at most two
/// decimal places, above one, with `p` at most 10^6.
pub open spec fn ratio_valid(d: Decimal) -> bool {
    -2 <= d.exp <= 6 && ratio_den(d) < ratio_num(d) && ratio_num(d) <= pow10(6)
}

/// Parser state after some prefix of the lines.
pub ghost struct ParseState {
    pub in_ranges: bool,
    pub delay: Option<Decimal>,
    pub ratio: Option<Decimal>,
    pub offset: Option<Decimal>,
    pub ranges: Seq<(Seq<u8>, Decimal)>,
}

pub open spec fn init_state() -> ParseState {
    ParseState { in_ranges: false, delay: None, ratio: None, offset: None, ranges: Seq::empty() }
}

/// The key of a line, with one pair of surrounding quotes removed.
pub open spec fn key_range(s: Seq<u8>, lo: int, hi: int) -> (int, int) {
    if hi - lo >= 2 && s[lo] == 34u8 && s[hi - 1] == 34u8 {
        (lo + 1, hi - 1)
    } else {
        (lo, hi)
    }
}

/// One line `[pos, end)` of the description applied to the state:
/// nothing for a blank line, the `[ranges]` header once, or one
/// `key = value` binding; anything else refuses the description.
pub open spec fn line_step(s: Seq<u8>, pos: int, end: int, st: ParseState) -> Option<ParseState> {
    let tlo = skip_ws(s, pos, end);
    let thi = rskip_ws(s, tlo, end);
    if tlo == thi {
        Some(st)
    } else if s[tlo] == 91u8 {
        if st.in_ranges || s.subrange(tlo, thi) != "[ranges]".spec_bytes() {
            None
        } else {
            Some(ParseState { in_ranges: true, ..st })
        }
    } else {
        let eq = find_eq(s, tlo, thi);
        if eq == thi {
            None
        } else {
            let klo0 = skip_ws(s, tlo, eq);
            let khi0 = rskip_ws(s, klo0, eq);
            let kr = key_range(s, klo0, khi0);
            let vlo = skip_ws(s, eq + 1, thi);
            let vhi = rskip_ws(s, vlo, thi);
            if kr.0 == kr.1 {
                None
            } else {
                match dec_of(s.subrange(vlo, vhi)) {
                    None => None,
                    Some(value) => {
                        let key = s.subrange(kr.0, kr.1);
                        if st.in_ranges {
                            if (exists|i: int|
                                0 <= i < st.ranges.len() && (#[trigger] st.ranges[i]).0 == key)
                                || !resistance_ok(value) {
                                None
                            } else {
                                Some(ParseState { ranges: st.ranges.push((key, value)), ..st })
                            }
                        } else if key == "loop_delay".spec_bytes() {
                            if st.delay is Some || !delay_ok(value) {
                                None
                            } else {
                                Some(ParseState { delay: Some(value), ..st })
                            }
                        } else if key == "max_pole_zero_ratio".spec_bytes() {
                            if st.ratio is Some || !ratio_valid(value) {
                                None
                            } else {
                                Some(ParseState { ratio: Some(value), ..st })
                            }
                        } else if key == "offset_resistance".spec_bytes() {
                            if st.offset is Some || !resistance_ok(value) {
                                None
                            } else {
                                Some(ParseState { offset: Some(value), ..st })
                            }
                        } else {
                            None
                        }
                    },
                }
            }
        }
    }
}

/// The whole description folded line by line from `pos`.
pub open spec fn config_fold(s: Seq<u8>, pos: int, st: ParseState) -> Option<ParseState>
    decreases s.len() + 1 - pos,
{
    if pos < 0 || pos >= s.len() {
        Some(st)
    } else {
        let end0 = line_end(s, pos);
        let end = if end0 < pos {
            pos
        } else if end0 > s.len() {
            s.len() as int
        } else {
            end0
        };
        match line_step(s, pos, end, st) {
            None => None,
            Some(st2) => config_fold(s, end + 1, st2),
        }
    }
}

/// Shrink `[lo, hi)` past leading and trailing whitespace.
fn trim(b: &[u8], lo: usize, hi: usize) -> (r: (usize, usize))
    requires
        lo <= hi <= b@.len(),
    ensures
        lo <= r.0 <= r.1 <= hi,
        r.0 == skip_ws(b@, lo as int, hi as int),
        r.1 == rskip_ws(b@, r.0 as int, hi as int),
{
    let mut l = lo;
    let mut h = hi;
    while l < h && (b[l] == 32 || b[l] == 9 || b[l] == 13)
        invariant
            lo <= l <= h <= hi <= b@.len(),
            h == hi,
            skip_ws(b@, lo as int, hi as int) == skip_ws(b@, l as int, hi as int),
        decreases h - l,
    {
        l = l + 1;
    }
    proof {
        assert(skip_ws(b@, l as int, hi as int) == l as int);
    }
    while l < h && (b[h - 1] == 32 || b[h - 1] == 9 || b[h - 1] == 13)
        invariant
            lo <= l <= h <= hi <= b@.len(),
            l == skip_ws(b@, lo as int, hi as int),
            rskip_ws(b@, l as int, hi as int) == rskip_ws(b@, l as int, h as int),
        decreases h,
    {
        h = h - 1;
    }
    proof {
        assert(rskip_ws(b@, l as int, h as int) == h as int);
    }
    (l, h)
}

/// Whether the segment `[lo, hi)` of `b` equals `lit`.
fn seg_eq(b: &[u8], lo: usize, hi: usize, lit: &[u8]) -> (r: bool)
    requires
        lo <= hi <= b@.len(),
    ensures
        r == (b@.subrange(lo as int, hi as int) == lit@),
{
    if hi - lo != lit.len() {
        proof {
            assert(b@.subrange(lo as int, hi as int).len() != lit@.len());
        }
        return false;
    }
    let mut i: usize = 0;
    while i < lit.len()
        invariant
            lo <= hi <= b@.len(),
            hi - lo == lit@.len(),
            i <= lit@.len(),
            forall|j: int| 0 <= j < i ==> b@[lo + j] == lit@[j],
        decreases lit@.len() - i,
    {
        if b[lo + i] != lit[i] {
            proof {
                assert(b@.subrange(lo as int, hi as int)[i as int] != lit@[i as int]);
            }
            return false;
        }
        i = i + 1;
    }
    proof {
        assert(b@.subrange(lo as int, hi as int) =~= lit@);
    }
    true
}

/// A copy of the segment `[lo, hi)` of `b`.
fn copy_seg(b: &[u8], lo: usize, hi: usize) -> (r: Vec<u8>)
    requires
        lo <= hi <= b@.len(),
    ensures
        r@ == b@.subrange(lo as int, hi as int),
{
    let mut out: Vec<u8> = Vec::new();
    let mut i = lo;
    while i < hi
        invariant
            lo <= i <= hi <= b@.len(),
            out@.len() == i - lo,
            forall|j: int| 0 <= j < out@.len() ==> out@[j] == b@[lo + j],
        decreases hi - i,
    {
        out.push(b[i]);
        i = i + 1;
    }
    proof {
        assert(out@ =~= b@.subrange(lo as int, hi as int));
    }
    out
}

/// Whether `k` is already a key of the range table.
fn contains_key(rs: &Vec<(Vec<u8>, Decimal)>, k: &[u8]) -> (r: bool)
    ensures
        r == exists|i: int| 0 <= i < rs@.len() && (#[trigger] rs@[i]).0@ == k@,
{
    let mut i: usize = 0;
    while i < rs.len()
        invariant
            i <= rs@.len(),
            forall|j: int| 0 <= j < i ==> (#[trigger] rs@[j]).0@ != k@,
        decreases rs@.len() - i,
    {
        if bytes_eq(rs[i].0.as_slice(), k) {
            return true;
        }
        i = i + 1;
    }
    false
}

/// Whether `d` is representable in units of `10^-s` and at most `bound`.
fn scaled_at_most(d: &Decimal, s: i32, bound: u128) -> (r: bool)
    requires
        -38 <= s <= 38,
    ensures
        r == (representable(*d, s as int) && scaled(*d, s as int) <= bound),
{
    match d.to_scale_checked(s) {
        Some(v) => v <= bound,
        None => false,
    }
}

/// Whether `d` is a valid maximum pole-zero ratio.
fn ratio_ok(d: &Decimal) -> (r: bool)
    ensures
        r == ratio_valid(*d),
{
    proof {
        lemma_pow10_vals();
    }
    if d.exp < -2 || d.exp > 6 {
        return false;
    }
    if d.exp >= 0 {
        let pw = pow10_u128(d.exp as u32);
        proof {
            lemma_pow10_increases(d.exp as nat, 6);
            assert((d.mant as int) * (pw as int) <= u128::MAX) by (nonlinear_arith)
                requires
                    d.mant <= 0xFFFF_FFFF_FFFF_FFFFu64,
                    pw <= 1000000,
            ;
        }
        let p = (d.mant as u128) * pw;
        proof {
            assert(p as int == ratio_num(*d));
            assert(ratio_den(*d) == 1);
        }
        1 < p && p <= 1000000
    } else {
        let q = pow10_u128((-d.exp) as u32);
        let p = d.mant as u128;
        proof {
            assert(p as int == ratio_num(*d));
            assert(q as int == ratio_den(*d));
        }
        q < p && p <= 1000000
    }
}

/// Parse a device description: exactly the run of `config_fold` over
/// the text.  The parse succeeds when every line conforms and all
/// three scalar parameters are present, and the device is then well
/// formed; otherwise `None`.
pub fn parse_device_spec(b: &[u8]) -> (r: Option<DeviceSpecification>)
    requires
        b@.len() <= 1000000,
    ensures
        ({
            let f = config_fold(b@, 0, init_state());
            match r {
                Some(d) => {
                    &&& f matches Some(st) && st.delay == Some(d.loop_delay) && st.ratio == Some(
                        d.max_pole_zero_ratio,
                    ) && st.offset == Some(d.offset_resistance) && d.ranges_view() == st.ranges
                    &&& d.wf()
                },
                None => f is None || f.unwrap().delay is None || f.unwrap().ratio is None
                    || f.unwrap().offset is None,
            }
        }),
{
    proof {
        lemma_pow10_vals();
    }
    let n = b.len();
    let mut pos: usize = 0;
    let mut in_ranges = false;
    let mut delay: Option<Decimal> = None;
    let mut ratio: Option<Decimal> = None;
    let mut offset: Option<Decimal> = None;
    let mut ranges: Vec<(Vec<u8>, Decimal)> = Vec::new();
    proof {
        assert(ranges@.map_values(|p: (Vec<u8>, Decimal)| (p.0@, p.1)) =~= Seq::<
            (Seq<u8>, Decimal),
        >::empty());
        assert(ParseState {
            in_ranges: in_ranges,
            delay: delay,
            ratio: ratio,
            offset: offset,
            ranges: ranges@.map_values(|p: (Vec<u8>, Decimal)| (p.0@, p.1)),
        } == init_state());
    }
    while pos < n
        invariant
            n == b@.len(),
            n <= 1000000,
            pos <= n + 1,
            config_fold(b@, 0, init_state()) == config_fold(
                b@,
                pos as int,
                ParseState {
                    in_ranges: in_ranges,
                    delay: delay,
                    ratio: ratio,
                    offset: offset,
                    ranges: ranges@.map_values(|p: (Vec<u8>, Decimal)| (p.0@, p.1)),
                },
            ),
            forall|i: int, j: int|
                0 <= i < j < ranges@.len() ==> (#[trigger] ranges@[i]).0@ != (
                #[trigger] ranges@[j]).0@,
            forall|i: int|
                0 <= i < ranges@.len() ==> representable((#[trigger] ranges@[i]).1, 6)
                    && scaled(ranges@[i].1, 6) <= pow10(17),
            delay matches Some(d) ==> delay_ok(d),
            offset matches Some(d) ==> resistance_ok(d),
            ratio matches Some(d) ==> ratio_valid(d),
        decreases n + 1 - pos,
    {
        proof {
            lemma_pow10_vals();
        }
        let ghost st = ParseState {
            in_ranges: in_ranges,
            delay: delay,
            ratio: ratio,
            offset: offset,
            ranges: ranges@.map_values(|p: (Vec<u8>, Decimal)| (p.0@, p.1)),
        };
        // Find the end of the line.
        let mut end = pos;
        while end < n && b[end] != 10
            invariant
                pos <= end <= n,
                n == b@.len(),
                line_end(b@, pos as int) == line_end(b@, end as int),
            decreases n - end,
        {
            end = end + 1;
        }
        proof {
            assert(line_end(b@, end as int) == end as int);
            assert(line_end(b@, pos as int) == end as int);
        }
        let ghost step = line_step(b@, pos as int, end as int, st);
        let (tlo, thi) = trim(b, pos, end);
        if tlo == thi {
            // Blank line.
            proof {
                assert(step == Some(st));
            }
            pos = end + 1;
            continue;
        }
        if b[tlo] == 91 {
            // A section header; only one `[ranges]` table is allowed.
            if in_ranges {
                proof {
                    assert(step is None);
                }
                return None;
            }
            if !seg_eq(b, tlo, thi, "[ranges]".as_bytes()) {
                proof {
                    assert(step is None);
                }
                return None;
            }
            proof {
                assert(step == Some(ParseState { in_ranges: true, ..st }));
            }
            in_ranges = true;
            pos = end + 1;
            continue;
        }
        // A `key = value` line.
        let mut eq = tlo;
        while eq < thi && b[eq] != 61
            invariant
                tlo <= eq <= thi <= n,
                n == b@.len(),
                find_eq(b@, tlo as int, thi as int) == find_eq(b@, eq as int, thi as int),
            decreases thi - eq,
        {
            eq = eq + 1;
        }
        proof {
            assert(find_eq(b@, eq as int, thi as int) == eq as int);
        }
        if eq == thi {
            proof {
                assert(step is None);
            }
            return None;
        }
        let (klo0, khi0) = trim(b, tlo, eq);
        let (vlo, vhi) = trim(b, eq + 1, thi);
        // Strip optional quotes around the key.
        let (klo, khi): (usize, usize) = if khi0 - klo0 >= 2 && b[klo0] == 34 && b[khi0 - 1]
            == 34 {
            (klo0 + 1, khi0 - 1)
        } else {
            (klo0, khi0)
        };
        proof {
            assert((klo as int, khi as int) == key_range(b@, klo0 as int, khi0 as int));
        }
        if klo == khi {
            proof {
                assert(step is None);
            }
            return None;
        }
        let vbytes = copy_seg(b, vlo, vhi);
        let value = match parse_decimal(vbytes.as_slice()) {
            Some(v) => v,
            None => {
                proof {
                    assert(dec_of(b@.subrange(vlo as int, vhi as int)) is None);
                    assert(step is None);
                }
                return None;
            },
        };
        proof {
            assert(dec_of(b@.subrange(vlo as int, vhi as int)) == Some(value));
        }
        if in_ranges {
            let key = copy_seg(b, klo, khi);
            if contains_key(&ranges, key.as_slice()) {
                proof {
                    let i = choose|i: int|
                        0 <= i < ranges@.len() && (#[trigger] ranges@[i]).0@ == key@;
                    assert(st.ranges[i].0 == key@);
                    assert(step is None);
                }
                return None;
            }
            if !scaled_at_most(&value, 6, 100000000000000000) {
                proof {
                    assert(step is None);
                }
                return None;
            }
            proof {
                assert(forall|i: int|
                    0 <= i < st.ranges.len() ==> (#[trigger] st.ranges[i]).0 == ranges@[i].0@);
                assert(!(exists|i: int|
                    0 <= i < st.ranges.len() && (#[trigger] st.ranges[i]).0 == key@));
                assert(step == Some(ParseState { ranges: st.ranges.push((key@, value)), ..st }));
            }
            ranges.push((key, value));
            proof {
                assert(ranges@.map_values(|p: (Vec<u8>, Decimal)| (p.0@, p.1)) =~= st.ranges.push(
                    (b@.subrange(klo as int, khi as int), value),
                ));
            }
        } else if seg_eq(b, klo, khi, "loop_delay".as_bytes()) {
            if delay.is_some() {
                proof {
                    assert(step is None);
                }
                return None;
            }
            if !scaled_at_most(&value, 24, 10000000000000000000000000000) {
                proof {
                    assert(step is None);
                }
                return None;
            }
            proof {
                assert(step == Some(ParseState { delay: Some(value), ..st }));
            }
            delay = Some(value);
        } else if seg_eq(b, klo, khi, "max_pole_zero_ratio".as_bytes()) {
            if ratio.is_some() {
                proof {
                    assert(step is None);
                }
                return None;
            }
            if !ratio_ok(&value) {
                proof {
                    assert(step is None);
                }
                return None;
            }
            proof {
                assert(step == Some(ParseState { ratio: Some(value), ..st }));
            }
            ratio = Some(value);
        } else if seg_eq(b, klo, khi, "offset_resistance".as_bytes()) {
            if offset.is_some() {
                proof {
                    assert(step is None);
                }
                return None;
            }
            if !scaled_at_most(&value, 6, 100000000000000000) {
                proof {
                    assert(step is None);
                }
                return None;
            }
            proof {
                assert(step == Some(ParseState { offset: Some(value), ..st }));
            }
            offset = Some(value);
        } else {
            proof {
                assert(step is None);
            }
            return None;
        }
        pos = end + 1;
    }
    proof {
        assert(config_fold(
            b@,
            pos as int,
            ParseState {
                in_ranges: in_ranges,
                delay: delay,
                ratio: ratio,
                offset: offset,
                ranges: ranges@.map_values(|p: (Vec<u8>, Decimal)| (p.0@, p.1)),
            },
        ) matches Some(st) && st.delay == delay && st.ratio == ratio && st.offset == offset
            && st.ranges == ranges@.map_values(|p: (Vec<u8>, Decimal)| (p.0@, p.1)));
    }
    let d = match delay {
        Some(d) => d,
        None => {
            return None;
        },
    };
    let m = match ratio {
        Some(m) => m,
        None => {
            return None;
        },
    };
    let o = match offset {
        Some(o) => o,
        None => {
            return None;
        },
    };
    let spec = DeviceSpecification {
        loop_delay: d,
        max_pole_zero_ratio: m,
        offset_resistance: o,
        ranges,
    };
    proof {
        assert(spec.wf());
    }
    Some(spec)
}

} // verus!
