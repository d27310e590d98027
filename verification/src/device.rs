//! Device descriptions and range lookup.

use vstd::prelude::*;
use vstd::string::StringSliceAdditionalSpecFns;
use crate::arith::pow10;
use crate::number::Decimal;
use crate::number::scaled;
use crate::number::representable;

verus! {

/// Failure of the solver: the requested range is not a key of the device.
#[derive(Clone, Copy, Debug, PartialEq, Eq, Structural)]
pub enum Error {
    NoSuchRange,
}

/// An immutable description of a transimpedance front-end.
///
/// `ranges` maps a range name (UTF-8 bytes) to the base feedback
/// resistance of that range, in ohms.  Names are unique; enumeration
/// follows the order of the description they were parsed from.
pub struct DeviceSpecification {
    /// Additional effective time constant of the amplifier loop, seconds.
    pub loop_delay: Decimal,
    /// Largest allowed ratio of compensation pole to compensation zero; > 1.
    pub max_pole_zero_ratio: Decimal,
    /// Resistance added in series to every range's feedback resistor, ohms.
    pub offset_resistance: Decimal,
    /// Range name -> base feedback resistance, ohms.
    pub ranges: Vec<(Vec<u8>, Decimal)>,
}

/// First value bound to key `k`, scanning left to right.
pub open spec fn lookup_seq(rs: Seq<(Seq<u8>, Decimal)>, k: Seq<u8>) -> Option<Decimal>
    decreases rs.len(),
{
    if rs.len() == 0 {
        None
    } else if rs[0].0 == k {
        Some(rs[0].1)
    } else {
        lookup_seq(rs.skip(1), k)
    }
}

pub proof fn lemma_lookup_none(rs: Seq<(Seq<u8>, Decimal)>, k: Seq<u8>)
    requires
        forall|j: int| 0 <= j < rs.len() ==> (#[trigger] rs[j]).0 != k,
    ensures
        lookup_seq(rs, k) is None,
    decreases rs.len(),
{
    if rs.len() > 0 {
        assert(forall|j: int|
            0 <= j < rs.skip(1).len() ==> (#[trigger] rs.skip(1)[j]) == rs[j + 1]);
        lemma_lookup_none(rs.skip(1), k);
    }
}

pub proof fn lemma_lookup_found(rs: Seq<(Seq<u8>, Decimal)>, k: Seq<u8>, i: int)
    requires
        0 <= i < rs.len(),
        rs[i].0 == k,
        forall|j: int| 0 <= j < i ==> (#[trigger] rs[j]).0 != k,
    ensures
        lookup_seq(rs, k) == Some(rs[i].1),
    decreases i,
{
    if i > 0 {
        assert(forall|j: int|
            0 <= j < rs.skip(1).len() ==> (#[trigger] rs.skip(1)[j]) == rs[j + 1]);
        lemma_lookup_found(rs.skip(1), k, i - 1);
    }
}

pub proof fn lemma_lookup_some_index(rs: Seq<(Seq<u8>, Decimal)>, k: Seq<u8>)
    requires
        lookup_seq(rs, k) is Some,
    ensures
        exists|i: int|
            0 <= i < rs.len() && (#[trigger] rs[i]).0 == k && rs[i].1 == lookup_seq(
                rs,
                k,
            ).unwrap(),
    decreases rs.len(),
{
    if rs.len() > 0 && rs[0].0 != k {
        lemma_lookup_some_index(rs.skip(1), k);
        let i = choose|i: int|
            0 <= i < rs.skip(1).len() && (#[trigger] rs.skip(1)[i]).0 == k && rs.skip(1)[i].1
                == lookup_seq(rs.skip(1), k).unwrap();
        assert(rs[i + 1] == rs.skip(1)[i]);
    }
}

/// Numerator of `max_pole_zero_ratio` as an exact fraction.
pub open spec fn ratio_num(d: Decimal) -> int {
    if d.exp >= 0 {
        d.mant * pow10(d.exp as nat)
    } else {
        d.mant as int
    }
}

/// Denominator of `max_pole_zero_ratio` as an exact fraction.
pub open spec fn ratio_den(d: Decimal) -> int {
    if d.exp >= 0 {
        1
    } else {
        pow10((-d.exp) as nat) as int
    }
}

/// Byte-for-byte slice equality.
pub fn bytes_eq(a: &[u8], b: &[u8]) -> (r: bool)
    ensures
        r == (a@ == b@),
{
    if a.len() != b.len() {
        return false;
    }
    let mut i: usize = 0;
    while i < a.len()
        invariant
            i <= a.len(),
            a@.len() == b@.len(),
            forall|j: int| 0 <= j < i ==> a@[j] == b@[j],
        decreases a.len() - i,
    {
        if a[i] != b[i] {
            return false;
        }
        i = i + 1;
    }
    proof {
        assert(a@ =~= b@);
    }
    true
}

impl DeviceSpecification {
    /// The range table as a mathematical association sequence.
    pub open spec fn ranges_view(self) -> Seq<(Seq<u8>, Decimal)> {
        self.ranges@.map_values(|p: (Vec<u8>, Decimal)| (p.0@, p.1))
    }

    /// Well-formed device: unique range names, and every numeric field
    /// exactly representable in the solver's fixed-point units.
    pub open spec fn wf(self) -> bool {
        &&& forall|i: int, j: int|
            0 <= i < j < self.ranges@.len() ==> (#[trigger] self.ranges@[i]).0@ != (
            #[trigger] self.ranges@[j]).0@
        &&& representable(self.loop_delay, 24)
        &&& scaled(self.loop_delay, 24) <= pow10(28)
        &&& representable(self.offset_resistance, 6)
        &&& scaled(self.offset_resistance, 6) <= pow10(17)
        &&& forall|i: int|
            0 <= i < self.ranges@.len() ==> representable((#[trigger] self.ranges@[i]).1, 6)
                && scaled(self.ranges@[i].1, 6) <= pow10(17)
        &&& -2 <= self.max_pole_zero_ratio.exp <= 6
        &&& ratio_den(self.max_pole_zero_ratio) < ratio_num(self.max_pole_zero_ratio)
        &&& ratio_num(self.max_pole_zero_ratio) <= pow10(6)
    }

    /// Base feedback resistance of a range, or `None` when the name is
    /// not a key of this device.
    pub fn range_resistance(&self, range: &str) -> (r: Option<Decimal>)
        ensures
            r == lookup_seq(self.ranges_view(), range.spec_bytes()),
    {
        let rb: &[u8] = range.as_bytes();
        let n = self.ranges.len();
        let mut i: usize = 0;
        while i < n
            invariant
                n == self.ranges.len(),
                i <= n,
                rb@ == range.spec_bytes(),
                forall|j: int| 0 <= j < i ==> (#[trigger] self.ranges_view()[j]).0 != rb@,
            decreases n - i,
        {
            let pair = &self.ranges[i];
            if bytes_eq(pair.0.as_slice(), rb) {
                proof {
                    lemma_lookup_found(self.ranges_view(), rb@, i as int);
                }
                return Some(pair.1);
            }
            i = i + 1;
        }
        proof {
            lemma_lookup_none(self.ranges_view(), rb@);
        }
        None
    }

    /// Effective feedback resistance of a found range, in micro-ohms:
    /// the range's base resistance plus the device's offset resistance.
    pub open spec fn reff_micro(self, base: Decimal) -> int {
        scaled(base, 6) + scaled(self.offset_resistance, 6)
    }

    /// Effective feedback resistance in micro-ohms, or `NoSuchRange`
    /// exactly when the name is not a key of this device.
    #[allow(non_snake_case)]
    pub fn calculateResistance(&self, range: &str) -> (r: Result<u128, Error>)
        requires
            self.wf(),
        ensures
            match r {
                Ok(v) => lookup_seq(self.ranges_view(), range.spec_bytes()) matches Some(base)
                    && v as int == self.reff_micro(base),
                Err(e) => lookup_seq(self.ranges_view(), range.spec_bytes()) is None && e
                    == Error::NoSuchRange,
            },
    {
        let base = match self.range_resistance(range) {
            Some(b) => b,
            None => {
                return Err(Error::NoSuchRange);
            },
        };
        proof {
            lemma_lookup_some_index(self.ranges_view(), range.spec_bytes());
            let i = choose|i: int|
                0 <= i < self.ranges_view().len() && (#[trigger] self.ranges_view()[i]).0
                    == range.spec_bytes() && self.ranges_view()[i].1 == base;
            assert(self.ranges_view()[i].1 == self.ranges@[i].1);
            crate::arith::lemma_pow10_increases(17, 38);
            crate::arith::lemma_pow10_38();
        }
        Ok(base.to_scale(6) + self.offset_resistance.to_scale(6))
    }

    /// The range names, in enumeration order.
    pub fn range_names(&self) -> (r: Vec<Vec<u8>>)
        ensures
            r@.len() == self.ranges@.len(),
            forall|i: int| 0 <= i < r@.len() ==> (#[trigger] r@[i])@ == self.ranges_view()[i].0,
    {
        let mut out: Vec<Vec<u8>> = Vec::new();
        let n = self.ranges.len();
        let mut i: usize = 0;
        while i < n
            invariant
                n == self.ranges.len(),
                i <= n,
                out@.len() == i,
                forall|j: int| 0 <= j < i ==> (#[trigger] out@[j])@ == self.ranges_view()[j].0,
            decreases n - i,
        {
            let mut name: Vec<u8> = Vec::new();
            let pair = &self.ranges[i];
            let m = pair.0.len();
            let mut k: usize = 0;
            while k < m
                invariant
                    m == pair.0.len(),
                    k <= m,
                    name@.len() == k,
                    forall|j: int| 0 <= j < k ==> name@[j] == pair.0@[j],
                decreases m - k,
            {
                name.push(pair.0[k]);
                k = k + 1;
            }
            proof {
                assert(name@ =~= pair.0@);
            }
            out.push(name);
            i = i + 1;
        }
        out
    }
}

} // verus!
