//! A length that may be given in absolute units, as a ratio of a reference
//! length, or both.
use vstd::prelude::*;

verus! {

/// One whole, as a ratio: ratios are counted in millionths.
pub const RATIO_ONE: u32 = 1_000_000;

/// `rel` millionths of `par`, rounded down and capped at `u32::MAX`.
pub open spec fn scale(par: int, rel: int) -> int {
    let x = par * rel / (RATIO_ONE as int);
    if x > u32::MAX as int { u32::MAX as int } else { x }
}

/// `part` as a ratio of `whole`, in millionths, rounded down and capped at
/// `u32::MAX`; zero when `whole` is zero.
pub open spec fn ratio_of(part: int, whole: int) -> int {
    if whole > 0 {
        let x = part * (RATIO_ONE as int) / whole;
        if x > u32::MAX as int { u32::MAX as int } else { x }
    } else {
        0
    }
}

/// Computes [`ratio_of`] in executable code.
pub fn ratio_exec(part: u32, whole: u64) -> (r: u32)
    ensures
        r as int == ratio_of(part as int, whole as int),
{
    if whole == 0 {
        return 0;
    }
    let prod: u64 = mul_wide(part, RATIO_ONE);
    let x: u64 = prod / whole;
    if x > u32::MAX as u64 {
        u32::MAX
    } else {
        x as u32
    }
}

/// `x` capped at `u32::MAX`.
pub open spec fn cap_u32(x: int) -> int {
    if x > u32::MAX as int { u32::MAX as int } else { x }
}

/// Computes [`cap_u32`] in executable code.
pub fn cap_exec(x: u64) -> (r: u32)
    ensures
        r as int == cap_u32(x as int),
{
    if x > u32::MAX as u64 { u32::MAX } else { x as u32 }
}

/// The greater of two integers.
pub open spec fn max_int(a: int, b: int) -> int {
    if a >= b { a } else { b }
}

/// The smaller of two integers.
pub open spec fn min_int(a: int, b: int) -> int {
    if a <= b { a } else { b }
}

/// The product of two `u32` values, which always fits in a `u64`.
pub fn mul_wide(a: u32, b: u32) -> (r: u64)
    ensures
        r as int == a as int * b as int,
{
    proof {
        assert(a as int * b as int <= 0xffff_ffff * 0xffff_ffff) by (nonlinear_arith)
            requires 0 <= a <= 0xffff_ffff, 0 <= b <= 0xffff_ffff;
    }
    a as u64 * b as u64
}

/// Computes [`scale`] in executable code.
pub fn scale_exec(par: u32, rel: u32) -> (r: u32)
    ensures
        r as int == scale(par as int, rel as int),
{
    let prod: u64 = mul_wide(par, rel);
    let x: u64 = prod / (RATIO_ONE as u64);
    if x > u32::MAX as u64 {
        u32::MAX
    } else {
        x as u32
    }
}

/// A length with an absolute part (`abs`, in units) and a relative part
/// (`rel`, in millionths of a reference length). Both absent means "no value".
#[derive(Debug, Clone, Copy, PartialEq, Eq)]
pub struct Sizon {
    pub abs: Option<u32>,
    pub rel: Option<u32>,
}

impl Sizon {
    /// Result of [`Sizon::max_abs`].
    pub open spec fn max_abs_spec(self, abs: int) -> int {
        match self.abs {
            Some(a) => max_int(a as int, abs),
            None => abs,
        }
    }

    /// Result of [`Sizon::min_abs`].
    pub open spec fn min_abs_spec(self, abs: int) -> int {
        match self.abs {
            Some(a) => min_int(a as int, abs),
            None => abs,
        }
    }

    /// Result of [`Sizon::max`]: the greater of the candidate and `abs`; then,
    /// where a positive reference is given and `rel` of it exceeds that, `rel`
    /// of the reference.
    pub open spec fn max_spec(self, abs: int, par: Option<u32>) -> int {
        let a = self.max_abs_spec(abs);
        match (self.rel, par) {
            (Some(rel), Some(p)) => if p > 0 && (rel as int) * (p as int) > a * (RATIO_ONE as int) {
                scale(p as int, rel as int)
            } else {
                a
            },
            _ => a,
        }
    }

    /// Result of [`Sizon::min`]: the smaller of the candidate and `abs`; then,
    /// where a positive reference is given and `rel` of it falls below that,
    /// `rel` of the reference.
    pub open spec fn min_spec(self, abs: int, par: Option<u32>) -> int {
        let a = self.min_abs_spec(abs);
        match (self.rel, par) {
            (Some(rel), Some(p)) => if p > 0 && (rel as int) * (p as int) < a * (RATIO_ONE as int) {
                scale(p as int, rel as int)
            } else {
                a
            },
            _ => a,
        }
    }

    /// Result of [`Sizon::to_abs`].
    pub open spec fn to_abs_spec(self, par: int) -> Option<int> {
        match self.abs {
            Some(a) => Some(a as int),
            None => match self.rel {
                Some(rel) => Some(scale(par, rel as int)),
                None => None,
            },
        }
    }

    /// A sizon with both parts given.
    pub fn new(abs: Option<u32>, rel: Option<u32>) -> (r: Self)
        ensures
            r.abs == abs,
            r.rel == rel,
    {
        Sizon { abs, rel }
    }

    /// A sizon with only its absolute part.
    pub fn abs(abs: u32) -> (r: Self)
        ensures
            r.abs == Some(abs),
            r.rel.is_none(),
    {
        Sizon { abs: Some(abs), rel: None }
    }

    /// A sizon with only its relative part.
    pub fn rel(rel: u32) -> (r: Self)
        ensures
            r.abs.is_none(),
            r.rel == Some(rel),
    {
        Sizon { abs: None, rel: Some(rel) }
    }

    /// The greater of `abs` and the absolute part; `abs` when there is none.
    pub fn max_abs(&self, abs: u32) -> (r: u32)
        ensures
            r as int == self.max_abs_spec(abs as int),
    {
        match self.abs {
            Some(a) => if a >= abs { a } else { abs },
            None => abs,
        }
    }

    /// The smaller of `abs` and the absolute part; `abs` when there is none.
    pub fn min_abs(&self, abs: u32) -> (r: u32)
        ensures
            r as int == self.min_abs_spec(abs as int),
    {
        match self.abs {
            Some(a) => if a <= abs { a } else { abs },
            None => abs,
        }
    }

    /// The greater of `rel` and the relative part; `rel` when there is none.
    pub fn max_rel(&self, rel: u32) -> (r: u32)
        ensures
            r == (match self.rel {
                Some(x) => if x >= rel { x } else { rel },
                None => rel,
            }),
    {
        match self.rel {
            Some(x) => if x >= rel { x } else { rel },
            None => rel,
        }
    }

    /// The smaller of `rel` and the relative part; `rel` when there is none.
    pub fn min_rel(&self, rel: u32) -> (r: u32)
        ensures
            r == (match self.rel {
                Some(x) => if x <= rel { x } else { rel },
                None => rel,
            }),
    {
        match self.rel {
            Some(x) => if x <= rel { x } else { rel },
            None => rel,
        }
    }

    /// Lower bound: the candidate `abs` raised to this sizon, the relative part
    /// taken against `par` when `par` is a positive length.
    pub fn max(&self, abs: u32, par: Option<u32>) -> (r: u32)
        ensures
            r as int == self.max_spec(abs as int, par),
            r >= abs,
    {
        let a = self.max_abs(abs);
        if let Some(rel) = self.rel {
            if let Some(p) = par {
                if p > 0 {
                    let lhs: u64 = mul_wide(rel, p);
                    let rhs: u64 = mul_wide(a, RATIO_ONE);
                    if lhs > rhs {
                        let r = scale_exec(p, rel);
                        proof { lemma_scale_above(p as int, rel as int, a as int); }
                        return r;
                    }
                }
            }
        }
        a
    }

    /// Upper bound: the candidate `abs` lowered to this sizon, the relative part
    /// taken against `par` when `par` is a positive length.
    pub fn min(&self, abs: u32, par: Option<u32>) -> (r: u32)
        ensures
            r as int == self.min_spec(abs as int, par),
            r <= abs,
    {
        let a = self.min_abs(abs);
        if let Some(rel) = self.rel {
            if let Some(p) = par {
                if p > 0 {
                    let lhs: u64 = mul_wide(rel, p);
                    let rhs: u64 = mul_wide(a, RATIO_ONE);
                    if lhs < rhs {
                        let r = scale_exec(p, rel);
                        proof { lemma_scale_below(p as int, rel as int, a as int); }
                        return r;
                    }
                }
            }
        }
        a
    }

    /// The absolute length against reference `par`: the absolute part when
    /// given, else the relative part of `par`, else nothing.
    pub fn to_abs(&self, par: u32) -> (r: Option<u32>)
        ensures
            match r {
                Some(x) => self.to_abs_spec(par as int) == Some(x as int),
                None => self.to_abs_spec(par as int).is_none(),
            },
    {
        match self.abs {
            Some(a) => Some(a),
            None => match self.rel {
                Some(rel) => Some(scale_exec(par, rel)),
                None => None,
            },
        }
    }
}

impl Default for Sizon {
    /// The sizon with neither part: no value.
    fn default() -> (r: Self)
        ensures
            r.abs.is_none(),
            r.rel.is_none(),
    {
        Sizon { abs: None, rel: None }
    }
}

/// A ratio above `a / p` scales to at least `a`.
pub proof fn lemma_scale_above(p: int, rel: int, a: int)
    requires
        p > 0,
        rel >= 0,
        0 <= a <= u32::MAX,
        rel * p > a * (RATIO_ONE as int),
    ensures
        scale(p, rel) >= a,
{
    let d = RATIO_ONE as int;
    assert(p * rel / d >= a) by (nonlinear_arith)
        requires p * rel > a * d, d > 0, a >= 0;
}

/// A ratio below `a / p` scales to less than `a`.
pub proof fn lemma_scale_below(p: int, rel: int, a: int)
    requires
        p > 0,
        rel >= 0,
        0 <= a <= u32::MAX,
        rel * p < a * (RATIO_ONE as int),
    ensures
        scale(p, rel) < a,
{
    let d = RATIO_ONE as int;
    assert(p * rel / d < a) by (nonlinear_arith)
        requires p * rel < a * d, d > 0, a >= 0;
}

} // verus!
