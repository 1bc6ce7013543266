//! Sizing state and rules of a group of cartons: limits, measurement and the
//! fill of blank space.
use vstd::prelude::*;
use crate::sizon::{Sizon, scale, scale_exec, mul_wide, max_int, min_int, ratio_of, ratio_exec, cap_u32, cap_exec, RATIO_ONE};

pub mod map;
pub mod resize;

pub use map::{CartonsMap, pairs_to_map, lemma_pairs_to_map_has};

verus! {

/// Live sizing state: `Some(sizon)` for a carton that occupies space, `None`
/// for a zeroed one. Its fallback holds the total size of the group.
pub type CartonsMetric = CartonsMap<Option<Sizon>>;

/// Length of an optional size: zero for a zeroed carton.
pub open spec fn len_of(x: Option<u32>) -> int {
    match x {
        Some(v) => v as int,
        None => 0,
    }
}

/// Sum of the sizes in a list of `(id, size)` pairs.
pub open spec fn total(s: Seq<(u64, Option<u32>)>) -> int
    decreases s.len(),
{
    if s.len() == 0 {
        0
    } else {
        total(s.drop_last()) + len_of(s.last().1)
    }
}

/// The ids of a list of `(id, size)` pairs.
pub open spec fn ids_of(s: Seq<(u64, Option<u32>)>) -> Seq<u64> {
    s.map_values(|p: (u64, Option<u32>)| p.0)
}


/// Rules and live state of a group of cartons laid out along one axis.
pub struct CartonsComplex {
    /// Laid out along the width (`true`) or the height (`false`).
    pub lateral: bool,
    /// Each carton sized on its own (`true`), or the group always filling its
    /// container (`false`).
    pub independent: bool,
    /// Name of the attribute that carries a carton's id.
    pub name: String,
    /// Live sizes; `None` marks a zeroed carton; the fallback is the total.
    pub metric: CartonsMetric,
    /// Lower size limit of each carton.
    pub min: CartonsMap<Sizon>,
    /// Upper size limit of each carton.
    pub max: CartonsMap<Sizon>,
    /// Whether a carton may be zeroed.
    pub allow_zero: CartonsMap<bool>,
    /// How far past its lower limit a carton must be pushed to be zeroed, and
    /// how far past zero it must be pulled to come back.
    pub zeroed_when: CartonsMap<Sizon>,
    /// Last size of a zeroed carton, in millionths of the container.
    pub zeroed_cache: CartonsMap<u32>,
}

impl CartonsComplex {
    /// All maps are well formed.
    pub open spec fn wf(&self) -> bool {
        &&& self.metric.wf()
        &&& self.min.wf()
        &&& self.max.wf()
        &&& self.allow_zero.wf()
        &&& self.zeroed_when.wf()
        &&& self.zeroed_cache.wf()
    }

    /// `size` lowered to the upper limit of `id`.
    pub open spec fn max_limited_spec(&self, id: u64, size: int, wrap: u32) -> int {
        self.max.lookup(id).min_spec(size, Some(wrap))
    }

    /// `size` lowered to the upper limit of `id`, then raised to its lower one.
    pub open spec fn limited_spec(&self, id: u64, size: int, wrap: u32) -> int {
        self.min.lookup(id).max_spec(self.max_limited_spec(id, size, wrap), Some(wrap))
    }

    /// The tighter of the two parts of a limit against `reference`; `None`
    /// when the limit has neither.
    pub open spec fn tight_upper(s: Sizon, reference: int) -> Option<int> {
        match (s.abs, s.rel) {
            (Some(a), Some(r)) => Some(min_int(a as int, scale(reference, r as int))),
            (Some(a), None) => Some(a as int),
            (None, Some(r)) => Some(scale(reference, r as int)),
            (None, None) => None,
        }
    }

    /// The larger of the two parts of a limit against `reference`; zero when
    /// the limit has neither.
    pub open spec fn tight_lower(s: Sizon, reference: int) -> int {
        match (s.abs, s.rel) {
            (Some(a), Some(r)) => max_int(a as int, scale(reference, r as int)),
            (Some(a), None) => a as int,
            (None, Some(r)) => scale(reference, r as int),
            (None, None) => 0,
        }
    }

    /// Upper limit of `id` in a container of `wrap`, if it has one.
    pub open spec fn resolved_max_spec(&self, id: u64, wrap: u32) -> Option<int> {
        Self::tight_upper(self.max.lookup(id), wrap as int)
    }

    /// Lower limit of `id` in a container of `wrap`.
    pub open spec fn resolved_min_spec(&self, id: u64, wrap: u32) -> int {
        Self::tight_lower(self.min.lookup(id), wrap as int)
    }

    /// Distance that zeroes or restores `id` when its size is `size`; `None`
    /// when `id` may not be zeroed.
    pub open spec fn zero_threshold_spec(&self, id: u64, size: u32) -> Option<int> {
        if self.allow_zero.lookup(id) {
            Some(Self::tight_lower(self.zeroed_when.lookup(id), size as int))
        } else {
            None
        }
    }

    /// `id` is listed in the metric as zeroed.
    pub open spec fn is_zeroed_spec(&self, id: u64) -> bool {
        self.metric.entries().contains_key(id) && self.metric.entries()[id].is_none()
    }

    /// A group with the given rules and state; its attribute name is `name`,
    /// or "carton" when none is given.
    pub fn new(
        lateral: bool,
        independent: bool,
        name: Option<String>,
        metric: CartonsMetric,
        min: CartonsMap<Sizon>,
        max: CartonsMap<Sizon>,
        allow_zero: CartonsMap<bool>,
        zeroed_when: CartonsMap<Sizon>,
        zeroed_cache: CartonsMap<u32>,
    ) -> (r: Self)
        ensures
            r.lateral == lateral,
            r.independent == independent,
            r.name@ == (match name {
                Some(n) => n@,
                None => "carton"@,
            }),
            r.metric == metric,
            r.min == min,
            r.max == max,
            r.allow_zero == allow_zero,
            r.zeroed_when == zeroed_when,
            r.zeroed_cache == zeroed_cache,
    {
        let name = match name {
            Some(n) => n,
            None => String::from_str("carton"),
        };
        proof { reveal_strlit("carton"); }
        CartonsComplex { lateral, independent, name, metric, min, max, allow_zero, zeroed_when, zeroed_cache }
    }

    /// `size` lowered to the upper limit of `id`.
    fn max_limited(&self, id: u64, size: u32, wrap: u32) -> (r: u32)
        requires
            self.wf(),
        ensures
            r as int == self.max_limited_spec(id, size as int, wrap),
            r <= size,
    {
        self.max.get(&id).min(size, Some(wrap))
    }

    /// `size` lowered to the upper limit of `id`, then raised to its lower one.
    fn limited(&self, id: u64, size: u32, wrap: u32) -> (r: u32)
        requires
            self.wf(),
        ensures
            r as int == self.limited_spec(id, size as int, wrap),
    {
        let s = self.max.get(&id).min(size, Some(wrap));
        self.min.get(&id).max(s, Some(wrap))
    }

    /// Upper limit of `id` in a container of `wrap`, if it has one.
    fn resolved_max(&self, id: u64, wrap: u32) -> (r: Option<u32>)
        requires
            self.wf(),
        ensures
            match r {
                Some(x) => self.resolved_max_spec(id, wrap) == Some(x as int),
                None => self.resolved_max_spec(id, wrap).is_none(),
            },
    {
        let s = self.max.get(&id);
        match (s.abs, s.rel) {
            (Some(a), Some(rel)) => {
                let b = scale_exec(wrap, rel);
                Some(if a <= b { a } else { b })
            },
            (Some(a), None) => Some(a),
            (None, Some(rel)) => Some(scale_exec(wrap, rel)),
            (None, None) => None,
        }
    }

    /// The larger part of limit `s` against `reference`; zero when it has none.
    fn tight_lower_exec(s: &Sizon, reference: u32) -> (r: u32)
        ensures
            r as int == Self::tight_lower(*s, reference as int),
    {
        match (s.abs, s.rel) {
            (Some(a), Some(rel)) => {
                let b = scale_exec(reference, rel);
                if a >= b { a } else { b }
            },
            (Some(a), None) => a,
            (None, Some(rel)) => scale_exec(reference, rel),
            (None, None) => 0,
        }
    }

    /// Lower limit of `id` in a container of `wrap`.
    fn resolved_min(&self, id: u64, wrap: u32) -> (r: u32)
        requires
            self.wf(),
        ensures
            r as int == self.resolved_min_spec(id, wrap),
    {
        Self::tight_lower_exec(self.min.get(&id), wrap)
    }

    /// Distance that zeroes or restores `id` at size `size`; `None` when `id`
    /// may not be zeroed.
    fn zero_threshold(&self, id: u64, size: u32) -> (r: Option<u32>)
        requires
            self.wf(),
        ensures
            match r {
                Some(x) => self.zero_threshold_spec(id, size) == Some(x as int),
                None => self.zero_threshold_spec(id, size).is_none(),
            },
    {
        if !*self.allow_zero.get(&id) {
            return None;
        }
        Some(Self::tight_lower_exec(self.zeroed_when.get(&id), size))
    }

    /// Whether `id` is listed in the metric as zeroed.
    fn is_zeroed(&self, id: u64) -> (r: bool)
        requires
            self.wf(),
        ensures
            r == self.is_zeroed_spec(id),
    {
        match self.metric.get_listed(&id) {
            Some(x) => x.is_none(),
            None => false,
        }
    }

    /// Size to restore `id` to: its cached ratio of `wrap`.
    fn cached_size(&self, id: u64, wrap: u32) -> (r: u32)
        requires
            self.wf(),
        ensures
            r as int == scale(wrap as int, self.zeroed_cache.lookup(id) as int),
    {
        scale_exec(wrap, *self.zeroed_cache.get(&id))
    }
}

impl CartonsComplex {
    /// Growth of carton `id` of size `size` in one step of the proportional
    /// pass, with `blank` left to share in a container of `wrap`.
    pub open spec fn share_delta(&self, id: u64, size: int, blank: int, wrap: u32) -> int {
        max_int(0, self.max_limited_spec(id, size + size * blank / (wrap as int), wrap) - size)
    }

    /// Growth of carton `id` of size `size` in the rear-first pass, with
    /// `blank` left.
    pub open spec fn push_delta(&self, id: u64, size: int, blank: int, wrap: u32) -> int {
        max_int(0, self.max_limited_spec(id, size + blank, wrap) - size)
    }

    /// Proportional pass from position `i` on, with `blank` left: each sized
    /// carton in order grows by its share of what is left, within its upper
    /// limit, until nothing is left. Gives the sizes and what is left.
    pub open spec fn share_pass(&self, s: Seq<(u64, Option<u32>)>, wrap: u32, blank: int, i: int)
        -> (Seq<(u64, Option<u32>)>, int)
        decreases s.len() - i,
    {
        if i < 0 || i >= s.len() || blank <= 0 {
            (s, blank)
        } else {
            match s[i].1 {
                Some(size) => {
                    let d = self.share_delta(s[i].0, size as int, blank, wrap);
                    self.share_pass(s.update(i, (s[i].0, Some((size + d) as u32))), wrap, blank - d, i + 1)
                },
                None => self.share_pass(s, wrap, blank, i + 1),
            }
        }
    }

    /// Rear-first pass over positions `i - 1` down to `0`, with `blank` left:
    /// each sized carton takes what is left, within its upper limit.
    pub open spec fn push_pass(&self, s: Seq<(u64, Option<u32>)>, wrap: u32, blank: int, i: int)
        -> (Seq<(u64, Option<u32>)>, int)
        decreases i,
    {
        if i <= 0 || i > s.len() || blank <= 0 {
            (s, blank)
        } else {
            match s[i - 1].1 {
                Some(size) => {
                    let d = self.push_delta(s[i - 1].0, size as int, blank, wrap);
                    self.push_pass(s.update(i - 1, (s[i - 1].0, Some((size + d) as u32))), wrap, blank - d, i - 1)
                },
                None => self.push_pass(s, wrap, blank, i - 1),
            }
        }
    }

    /// Sizes after the blank of a container of `wrap` is filled: nothing
    /// changes when the sizes already reach `wrap`; otherwise the proportional
    /// pass, then the rear-first pass with what it left.
    pub open spec fn fill_spec(&self, s: Seq<(u64, Option<u32>)>, wrap: u32) -> Seq<(u64, Option<u32>)> {
        let blank = wrap - total(s);
        if blank <= 0 {
            s
        } else {
            let first = self.share_pass(s, wrap, blank, 0);
            self.push_pass(first.0, wrap, first.1, s.len() as int).0
        }
    }

    /// Grows the sizes of `data_sizes` to fill the blank of a container of
    /// `wrap`, each within its upper limit; gives the new total.
    pub fn adjust_to_fill_blank(&self, wrap_size: u32, data_sizes: &mut Vec<(u64, Option<u32>)>) -> (r: u64)
        requires
            self.wf(),
            old(data_sizes)@.len() <= u32::MAX,
        ensures
            final(data_sizes)@ == self.fill_spec(old(data_sizes)@, wrap_size),
            r as int == total(final(data_sizes)@),
    {
        let total0 = get_total_size(data_sizes);
        if total0 >= wrap_size as u64 {
            return total0;
        }
        let ghost s0 = data_sizes@;
        let ghost blank0 = wrap_size - total0;
        let mut blank: u32 = (wrap_size as u64 - total0) as u32;
        let n = data_sizes.len();
        let mut i: usize = 0;
        // proportional pass
        while i < n && blank > 0
            invariant
                self.wf(),
                n == data_sizes@.len() == s0.len(),
                n <= u32::MAX,
                i <= n,
                blank <= wrap_size,
                total(data_sizes@) + blank == wrap_size,
                ids_of(data_sizes@) == ids_of(s0),
                self.share_pass(data_sizes@, wrap_size, blank as int, i as int)
                    == self.share_pass(s0, wrap_size, blank0, 0),
            decreases n - i,
        {
            let (id, sz) = data_sizes[i];
            if let Some(size) = sz {
                proof { lemma_elem_le_total(data_sizes@, i as int); }
                let prod = mul_wide(size, blank);
                let add: u64 = prod / (wrap_size as u64);
                proof {
                    assert((prod as int) / (wrap_size as int) <= blank as int) by (nonlinear_arith)
                        requires prod == size as int * blank as int, size <= wrap_size, wrap_size > 0, blank >= 0;
                }
                let grown = self.max_limited(id, size + add as u32, wrap_size);
                let delta: u32 = if grown > size { grown - size } else { 0 };
                proof {
                    lemma_total_update(data_sizes@, i as int, (id, Some((size + delta) as u32)));
                    assert(ids_of(data_sizes@.update(i as int, (id, Some((size + delta) as u32)))) =~= ids_of(data_sizes@));
                }
                data_sizes.set(i, (id, Some(size + delta)));
                blank = blank - delta;
            }
            i = i + 1;
        }
        let ghost first = self.share_pass(s0, wrap_size, blank0, 0);
        proof {
            assert(self.share_pass(data_sizes@, wrap_size, blank as int, i as int) == (data_sizes@, blank as int));
        }
        // rear-first pass
        let mut j: usize = n;
        while j > 0 && blank > 0
            invariant
                self.wf(),
                n == data_sizes@.len() == s0.len(),
                n <= u32::MAX,
                j <= n,
                blank <= wrap_size,
                total(data_sizes@) + blank == wrap_size,
                ids_of(data_sizes@) == ids_of(s0),
                self.push_pass(data_sizes@, wrap_size, blank as int, j as int)
                    == self.push_pass(first.0, wrap_size, first.1, n as int),
            decreases j,
        {
            let (id, sz) = data_sizes[j - 1];
            if let Some(size) = sz {
                proof { lemma_elem_le_total(data_sizes@, j - 1); }
                let grown = self.max_limited(id, size + blank, wrap_size);
                let delta: u32 = if grown > size { grown - size } else { 0 };
                proof {
                    lemma_total_update(data_sizes@, j - 1, (id, Some((size + delta) as u32)));
                    assert(ids_of(data_sizes@.update(j - 1, (id, Some((size + delta) as u32)))) =~= ids_of(data_sizes@));
                }
                data_sizes.set(j - 1, (id, Some(size + delta)));
                blank = blank - delta;
            }
            j = j - 1;
        }
        proof {
            assert(self.push_pass(data_sizes@, wrap_size, blank as int, j as int) == (data_sizes@, blank as int));
        }
        (wrap_size - blank) as u64
    }
}

/// Two lists with the same ids, sized and zeroed at the same positions.
pub open spec fn same_shape(a: Seq<(u64, Option<u32>)>, b: Seq<(u64, Option<u32>)>) -> bool {
    &&& a.len() == b.len()
    &&& forall|j: int| 0 <= j < a.len() ==> #[trigger] a[j].0 == b[j].0 && a[j].1.is_some() == b[j].1.is_some()
}

impl CartonsComplex {
    /// Room of a list of cartons in a container of `wrap`: the sum of the
    /// upper limits of the sized ones, a carton without upper limit counting
    /// as the whole container.
    pub open spec fn cap_sum(&self, s: Seq<(u64, Option<u32>)>, wrap: u32) -> int
        decreases s.len(),
    {
        if s.len() == 0 {
            0
        } else {
            let last = s.last();
            let c = match last.1 {
                Some(_) => match self.resolved_max_spec(last.0, wrap) {
                    Some(m) => m,
                    None => wrap as int,
                },
                None => 0,
            };
            self.cap_sum(s.drop_last(), wrap) + c
        }
    }

    /// Each size at position `j` of `r`, where `s` had a size, is at least the
    /// upper limit of its carton, which it has.
    pub open spec fn saturated(&self, s: Seq<(u64, Option<u32>)>, r: Seq<(u64, Option<u32>)>, wrap: u32, upto: int) -> bool {
        forall|j: int| 0 <= j < upto && #[trigger] s[j].1.is_some() ==> (
            match self.resolved_max_spec(s[j].0, wrap) {
                Some(m) => len_of(r[j].1) >= m,
                None => false,
            })
    }

    /// Lowering a size to an upper limit against a positive container never
    /// goes above the resolved upper limit, and when it lowers a size at all
    /// the result is that limit.
    pub proof fn lemma_max_limited(&self, id: u64, x: int, wrap: u32)
        requires
            wrap > 0,
            0 <= x <= u32::MAX,
        ensures
            match self.resolved_max_spec(id, wrap) {
                Some(m) => self.max_limited_spec(id, x, wrap) == min_int(x, m),
                None => self.max_limited_spec(id, x, wrap) == x,
            },
    {
        let sz = self.max.lookup(id);
        let a = sz.min_abs_spec(x);
        let d = RATIO_ONE as int;
        if let Some(rel) = sz.rel {
            let p = wrap as int;
            let q = p * (rel as int) / d;
            if (rel as int) * p < a * d {
                assert(q < a) by (nonlinear_arith)
                    requires (rel as int) * p < a * d, d > 0, q == p * (rel as int) / d;
            } else {
                assert(q >= a) by (nonlinear_arith)
                    requires (rel as int) * p >= a * d, d > 0, q == p * (rel as int) / d;
            }
        }
    }

    /// No size of `r` is below the size at the same position of `s`, and one
    /// above it is within the upper limit of its carton.
    pub open spec fn grown_within(&self, s: Seq<(u64, Option<u32>)>, r: Seq<(u64, Option<u32>)>, wrap: u32) -> bool {
        forall|j: int| 0 <= j < s.len() ==> len_of(#[trigger] r[j].1) >= len_of(s[j].1) && (len_of(r[j].1) > len_of(s[j].1) ==> (
            match self.resolved_max_spec(s[j].0, wrap) {
                Some(m) => len_of(r[j].1) <= m,
                None => true,
            }))
    }

    /// Growing one sized carton to `max(size, max_limited(x))` keeps the shape
    /// and the growth within its upper limit.
    pub proof fn lemma_grow_step(&self, s: Seq<(u64, Option<u32>)>, i: int, x: int, wrap: u32)
        requires
            wrap > 0,
            0 <= i < s.len(),
            s[i].1.is_some(),
            len_of(s[i].1) <= x <= u32::MAX,
        ensures
            ({
                let size = len_of(s[i].1);
                let d = max_int(0, self.max_limited_spec(s[i].0, x, wrap) - size);
                let s2 = s.update(i, (s[i].0, Some((size + d) as u32)));
                &&& 0 <= d <= x - size
                &&& same_shape(s, s2)
                &&& self.grown_within(s, s2, wrap)
                &&& total(s2) == total(s) + d
                &&& (d < x - size ==> match self.resolved_max_spec(s[i].0, wrap) {
                    Some(m) => size + d >= m,
                    None => false,
                })
            }),
    {
        let size = len_of(s[i].1);
        let d = max_int(0, self.max_limited_spec(s[i].0, x, wrap) - size);
        let s2 = s.update(i, (s[i].0, Some((size + d) as u32)));
        self.lemma_max_limited(s[i].0, x, wrap);
        lemma_total_update(s, i, (s[i].0, Some((size + d) as u32)));
        assert(same_shape(s, s2));
    }

    /// Growth within limits composes.
    pub proof fn lemma_grown_trans(&self, s: Seq<(u64, Option<u32>)>, t: Seq<(u64, Option<u32>)>, r: Seq<(u64, Option<u32>)>, wrap: u32)
        requires
            same_shape(s, t),
            same_shape(t, r),
            self.grown_within(s, t, wrap),
            self.grown_within(t, r, wrap),
        ensures
            same_shape(s, r),
            self.grown_within(s, r, wrap),
    {
        assert forall|j: int| 0 <= j < s.len() implies len_of(#[trigger] r[j].1) >= len_of(s[j].1) && (len_of(r[j].1) > len_of(s[j].1) ==> (
            match self.resolved_max_spec(s[j].0, wrap) {
                Some(m) => len_of(r[j].1) <= m,
                None => true,
            })) by {
            assert(t[j].0 == s[j].0);
            assert(len_of(t[j].1) >= len_of(s[j].1));
            assert(len_of(r[j].1) >= len_of(t[j].1));
        }
    }

    /// The rear-first pass leaves blank only when every sized carton before
    /// position `i` has reached its upper limit; positions from `i` on are
    /// kept, and so is the shape.
    pub proof fn lemma_push_pass(&self, s: Seq<(u64, Option<u32>)>, wrap: u32, blank: int, i: int)
        requires
            wrap > 0,
            0 <= i <= s.len(),
            0 < blank,
            total(s) + blank == wrap,
        ensures
            ({
                let (r, b) = self.push_pass(s, wrap, blank, i);
                &&& same_shape(s, r)
                &&& self.grown_within(s, r, wrap)
                &&& total(r) + b == wrap
                &&& 0 <= b <= blank
                &&& (forall|j: int| i <= j < s.len() ==> r[j] == s[j])
                &&& (b > 0 ==> self.saturated(s, r, wrap, i))
            }),
        decreases i,
    {
        lemma_total_nonneg(s);
        if i == 0 {
            assert(same_shape(s, s));
        } else {
            match s[i - 1].1 {
                Some(size) => {
                    let id = s[i - 1].0;
                    lemma_elem_le_total(s, i - 1);
                    self.lemma_grow_step(s, i - 1, size + blank, wrap);
                    let d = self.push_delta(id, size as int, blank, wrap);
                    let s2 = s.update(i - 1, (id, Some((size + d) as u32)));
                    if blank - d > 0 {
                        self.lemma_push_pass(s2, wrap, blank - d, i - 1);
                        let (r, b) = self.push_pass(s2, wrap, blank - d, i - 1);
                        self.lemma_grown_trans(s, s2, r, wrap);
                        if b > 0 {
                            assert forall|j: int| 0 <= j < i && #[trigger] s[j].1.is_some() implies (
                                match self.resolved_max_spec(s[j].0, wrap) {
                                    Some(m) => len_of(r[j].1) >= m,
                                    None => false,
                                }) by {
                                if j < i - 1 {
                                    assert(s2[j] == s[j]);
                                    assert(s2[j].1.is_some());
                                } else {
                                    assert(r[j] == s2[j]);
                                }
                            }
                        }
                        assert forall|j: int| i <= j < s.len() implies r[j] == s[j] by {
                            assert(r[j] == s2[j]);
                        }
                    } else {
                        assert(self.push_pass(s2, wrap, blank - d, i - 1) == (s2, blank - d));
                    }
                },
                None => {
                    self.lemma_push_pass(s, wrap, blank, i - 1);
                },
            }
        }
    }

    /// Sizes that reach the upper limits of their cartons add up to at least
    /// the room of the list.
    pub proof fn lemma_saturated_total(&self, s: Seq<(u64, Option<u32>)>, r: Seq<(u64, Option<u32>)>, wrap: u32)
        requires
            same_shape(s, r),
            self.saturated(s, r, wrap, s.len() as int),
        ensures
            total(r) >= self.cap_sum(s, wrap),
        decreases s.len(),
    {
        if s.len() > 0 {
            self.lemma_saturated_total(s.drop_last(), r.drop_last(), wrap);
        }
    }

    /// The proportional pass keeps the shape of the list, and what it adds
    /// is what it takes from the blank.
    pub proof fn lemma_share_pass(&self, s: Seq<(u64, Option<u32>)>, wrap: u32, blank: int, i: int)
        requires
            wrap > 0,
            0 <= i <= s.len(),
            0 <= blank,
            total(s) + blank == wrap,
        ensures
            ({
                let (r, b) = self.share_pass(s, wrap, blank, i);
                &&& same_shape(s, r)
                &&& self.grown_within(s, r, wrap)
                &&& total(r) + b == wrap
                &&& 0 <= b <= blank
            }),
        decreases s.len() - i,
    {
        lemma_total_nonneg(s);
        if i < s.len() && blank > 0 {
            match s[i].1 {
                Some(size) => {
                    let id = s[i].0;
                    lemma_elem_le_total(s, i);
                    let add = size * blank / (wrap as int);
                    assert(add <= blank) by (nonlinear_arith)
                        requires add == size * blank / (wrap as int), size <= wrap, wrap > 0, blank >= 0;
                    assert(add >= 0) by (nonlinear_arith)
                        requires add == size * blank / (wrap as int), size >= 0, wrap > 0, blank >= 0;
                    self.lemma_grow_step(s, i, size + add, wrap);
                    let d = self.share_delta(id, size as int, blank, wrap);
                    let s2 = s.update(i, (id, Some((size + d) as u32)));
                    self.lemma_share_pass(s2, wrap, blank - d, i + 1);
                    let (r, b) = self.share_pass(s2, wrap, blank - d, i + 1);
                    self.lemma_grown_trans(s, s2, r, wrap);
                },
                None => {
                    self.lemma_share_pass(s, wrap, blank, i + 1);
                },
            }
        } else {
            assert(same_shape(s, s));
        }
    }

    /// Filling never takes a carton past its upper limit: a size that grows
    /// ends at most at the limit of its carton.
    pub proof fn lemma_fill_within_max(&self, s: Seq<(u64, Option<u32>)>, wrap: u32)
        ensures
            same_shape(s, self.fill_spec(s, wrap)),
            self.grown_within(s, self.fill_spec(s, wrap), wrap),
    {
        lemma_total_nonneg(s);
        if total(s) < wrap {
            let blank = wrap - total(s);
            self.lemma_share_pass(s, wrap, blank, 0);
            let (f, b) = self.share_pass(s, wrap, blank, 0);
            if b > 0 {
                self.lemma_push_pass(f, wrap, b, s.len() as int);
                let (r, b2) = self.push_pass(f, wrap, b, s.len() as int);
                self.lemma_grown_trans(s, f, r, wrap);
            } else {
                assert(self.push_pass(f, wrap, b, s.len() as int) == (f, b));
            }
        } else {
            assert(same_shape(s, s));
        }
    }

    /// When the sizes do not exceed the container and the room of the
    /// cartons reaches it, filling makes the sizes add up to the container.
    pub proof fn lemma_fill_total(&self, s: Seq<(u64, Option<u32>)>, wrap: u32)
        requires
            total(s) <= wrap,
            self.cap_sum(s, wrap) >= wrap,
        ensures
            total(self.fill_spec(s, wrap)) == wrap,
    {
        lemma_total_nonneg(s);
        if total(s) < wrap {
            let blank = wrap - total(s);
            self.lemma_share_pass(s, wrap, blank, 0);
            let (f, b) = self.share_pass(s, wrap, blank, 0);
            if b > 0 {
                self.lemma_push_pass(f, wrap, b, s.len() as int);
                let (r, b2) = self.push_pass(f, wrap, b, s.len() as int);
                if b2 > 0 {
                    self.lemma_cap_sum_shape(s, f, wrap);
                    self.lemma_saturated_total(f, r, wrap);
                }
            }
        }
    }

    /// The room of a list depends on its shape only.
    pub proof fn lemma_cap_sum_shape(&self, s: Seq<(u64, Option<u32>)>, t: Seq<(u64, Option<u32>)>, wrap: u32)
        requires
            same_shape(s, t),
        ensures
            self.cap_sum(s, wrap) == self.cap_sum(t, wrap),
        decreases s.len(),
    {
        if s.len() > 0 {
            assert(s[s.len() - 1].0 == t[s.len() - 1].0);
            self.lemma_cap_sum_shape(s.drop_last(), t.drop_last(), wrap);
        }
    }
}

/// A resolved lower limit fits in a `u32`.
pub proof fn lemma_min_fits(c: &CartonsComplex, id: u64, wrap: u32)
    ensures
        0 <= c.resolved_min_spec(id, wrap) <= u32::MAX,
{
}

impl CartonsComplex {
    /// In dependent mode a reconcile fills its container exactly, when the
    /// sizes of the live cartons before the fill do not exceed it and their
    /// room reaches it.
    pub proof fn lemma_reconcile_fills(&self, datas: Seq<u64>, wrap: u32)
        requires
            !self.independent,
            total(self.candidates_spec(datas, wrap)) <= wrap,
            self.cap_sum(self.candidates_spec(datas, wrap), wrap) >= wrap,
        ensures
            total(self.reconcile_spec(datas, wrap)) == wrap,
    {
        self.lemma_fill_total(self.candidates_spec(datas, wrap), wrap);
    }
}

/// Two lists of the same length with the same id at each position.
pub open spec fn same_ids(s: Seq<(u64, Option<u32>)>, t: Seq<(u64, Option<u32>)>) -> bool {
    &&& s.len() == t.len()
    &&& forall|j: int| 0 <= j < s.len() ==> #[trigger] t[j].0 == s[j].0
}

impl CartonsComplex {
    /// `v` lies within the limits of carton `id`.
    pub open spec fn fits(&self, id: u64, v: int, wrap: u32) -> bool {
        &&& self.resolved_min_spec(id, wrap) <= v
        &&& match self.resolved_max_spec(id, wrap) {
            Some(m) => v <= m,
            None => true,
        }
    }

    /// Every sized carton of `s` lies within its limits.
    pub open spec fn in_bounds(&self, s: Seq<(u64, Option<u32>)>, wrap: u32) -> bool {
        forall|j: int| 0 <= j < s.len() && (#[trigger] s[j]).1.is_some() ==> self.fits(s[j].0, s[j].1.unwrap() as int, wrap)
    }

    /// The lower limit of carton `id` is not above its upper one.
    pub open spec fn consistent_at(&self, id: u64, wrap: u32) -> bool {
        match self.resolved_max_spec(id, wrap) {
            Some(m) => self.resolved_min_spec(id, wrap) <= m,
            None => true,
        }
    }

    /// No carton of `s` has its lower limit above its upper one.
    pub open spec fn limits_consistent(&self, s: Seq<(u64, Option<u32>)>, wrap: u32) -> bool {
        forall|j: int| 0 <= j < s.len() ==> self.consistent_at(#[trigger] s[j].0, wrap)
    }

    /// Replacing one entry by one of the same id whose size, if any, fits
    /// keeps the list within limits.
    pub proof fn lemma_update_in_bounds(&self, s: Seq<(u64, Option<u32>)>, i: int, x: (u64, Option<u32>), wrap: u32)
        requires
            0 <= i < s.len(),
            x.0 == s[i].0,
            self.in_bounds(s, wrap),
            x.1 matches Some(v) ==> self.fits(x.0, v as int, wrap),
        ensures
            self.in_bounds(s.update(i, x), wrap),
            same_ids(s, s.update(i, x)),
    {
        let t = s.update(i, x);
        assert forall|j: int| 0 <= j < t.len() && (#[trigger] t[j]).1.is_some() implies self.fits(t[j].0, t[j].1.unwrap() as int, wrap) by {
            if j != i {
                assert(t[j] == s[j]);
            }
        }
    }

    /// Raising a size to a lower limit against a positive container gives the
    /// larger of the size and the resolved lower limit.
    pub proof fn lemma_min_raised(&self, id: u64, x: int, wrap: u32)
        requires
            wrap > 0,
            0 <= x <= u32::MAX,
        ensures
            self.min.lookup(id).max_spec(x, Some(wrap)) == max_int(x, self.resolved_min_spec(id, wrap)),
    {
        let sz = self.min.lookup(id);
        let a = sz.max_abs_spec(x);
        let d = RATIO_ONE as int;
        if let Some(rel) = sz.rel {
            let p = wrap as int;
            let q = p * (rel as int) / d;
            if (rel as int) * p > a * d {
                assert(q >= a) by (nonlinear_arith)
                    requires (rel as int) * p > a * d, d > 0, q == p * (rel as int) / d;
            } else {
                assert(q <= a) by (nonlinear_arith)
                    requires (rel as int) * p <= a * d, d > 0, q == p * (rel as int) / d;
            }
        }
    }

    /// Filling keeps every sized carton within its limits.
    pub proof fn lemma_fill_in_bounds(&self, s: Seq<(u64, Option<u32>)>, wrap: u32)
        requires
            self.in_bounds(s, wrap),
        ensures
            self.in_bounds(self.fill_spec(s, wrap), wrap),
            same_ids(s, self.fill_spec(s, wrap)),
    {
        self.lemma_fill_within_max(s, wrap);
        let f = self.fill_spec(s, wrap);
        assert forall|j: int| 0 <= j < f.len() && (#[trigger] f[j]).1.is_some() implies self.fits(f[j].0, f[j].1.unwrap() as int, wrap) by {
            assert(s[j].0 == f[j].0 && s[j].1.is_some());
            assert(len_of(f[j].1) >= len_of(s[j].1));
        }
        assert forall|j: int| 0 <= j < s.len() implies #[trigger] f[j].0 == s[j].0 by {
            assert(s[j].0 == f[j].0);
        }
    }

    /// Every carton that a reconcile sizes lies within its limits, when no
    /// live carton has its lower limit above its upper one.
    pub proof fn lemma_reconcile_in_bounds(&self, datas: Seq<u64>, wrap: u32)
        requires
            wrap > 0,
            forall|j: int| 0 <= j < datas.len() ==> self.consistent_at(#[trigger] datas[j], wrap),
        ensures
            self.in_bounds(self.reconcile_spec(datas, wrap), wrap),
    {
        let c = self.candidates_spec(datas, wrap);
        assert forall|j: int| 0 <= j < c.len() && (#[trigger] c[j]).1.is_some() implies self.fits(c[j].0, c[j].1.unwrap() as int, wrap) by {
            let id = datas[j];
            assert(c[j] == (id, self.candidate_spec(id, wrap)));
            let sz = self.metric.lookup(id).unwrap();
            let size = match sz.rel {
                Some(r) => scale(wrap as int, r as int),
                None => match sz.abs {
                    Some(a) => a as int,
                    None => 0,
                },
            };
            self.lemma_max_limited(id, size, wrap);
            let ml = self.max_limited_spec(id, size, wrap);
            self.lemma_min_raised(id, ml, wrap);
            lemma_min_fits(self, id, wrap);
        }
        if !self.independent {
            self.lemma_fill_in_bounds(c, wrap);
        }
    }
}

impl CartonsComplex {
    /// The proportional pass depends on the upper limits only.
    pub proof fn lemma_share_pass_same_max(&self, other: &CartonsComplex, s: Seq<(u64, Option<u32>)>, wrap: u32, blank: int, i: int)
        requires
            self.max == other.max,
        ensures
            self.share_pass(s, wrap, blank, i) == other.share_pass(s, wrap, blank, i),
        decreases s.len() - i,
    {
        if !(i < 0 || i >= s.len() || blank <= 0) {
            match s[i].1 {
                Some(size) => {
                    let d = self.share_delta(s[i].0, size as int, blank, wrap);
                    self.lemma_share_pass_same_max(other, s.update(i, (s[i].0, Some((size + d) as u32))), wrap, blank - d, i + 1);
                },
                None => self.lemma_share_pass_same_max(other, s, wrap, blank, i + 1),
            }
        }
    }

    /// The rear-first pass depends on the upper limits only.
    pub proof fn lemma_push_pass_same_max(&self, other: &CartonsComplex, s: Seq<(u64, Option<u32>)>, wrap: u32, blank: int, i: int)
        requires
            self.max == other.max,
        ensures
            self.push_pass(s, wrap, blank, i) == other.push_pass(s, wrap, blank, i),
        decreases i,
    {
        if !(i <= 0 || i > s.len() || blank <= 0) {
            match s[i - 1].1 {
                Some(size) => {
                    let d = self.push_delta(s[i - 1].0, size as int, blank, wrap);
                    self.lemma_push_pass_same_max(other, s.update(i - 1, (s[i - 1].0, Some((size + d) as u32))), wrap, blank - d, i - 1);
                },
                None => self.lemma_push_pass_same_max(other, s, wrap, blank, i - 1),
            }
        }
    }

    /// Reconciling again, from the metric that a reconcile built and with the
    /// same limits and mode, gives the same sizes and rebuilds the same
    /// metric, when every live carton's sizon carries a ratio or is zeroed.
    pub proof fn lemma_reconcile_idempotent(&self, next: &CartonsComplex, datas: Seq<u64>, wrap: u32)
        requires
            next.independent == self.independent,
            next.min == self.min,
            next.max == self.max,
            next.metric.entries() == pairs_to_map(self.reconcile_spec(datas, wrap).map_values(|p: (u64, Option<u32>)| revised_entry(self.metric, p))),
            forall|j: int| 0 <= j < datas.len() ==> (#[trigger] self.metric.lookup(datas[j]) matches Some(sz) ==> sz.rel.is_some()),
        ensures
            next.reconcile_spec(datas, wrap) == self.reconcile_spec(datas, wrap),
            pairs_to_map(next.reconcile_spec(datas, wrap).map_values(|p: (u64, Option<u32>)| revised_entry(next.metric, p)))
                == next.metric.entries(),
    {
        let c = self.candidates_spec(datas, wrap);
        let out = self.reconcile_spec(datas, wrap);
        if !self.independent {
            self.lemma_fill_within_max(c, wrap);
        } else {
            assert(same_shape(c, c));
        }
        assert(same_shape(c, out));
        let revised = out.map_values(|p: (u64, Option<u32>)| revised_entry(self.metric, p));
        // what the next metric holds for each live carton
        assert forall|j: int| 0 <= j < datas.len() implies
            #[trigger] next.candidate_spec(datas[j], wrap) == self.candidate_spec(datas[j], wrap) by {
            let id = datas[j];
            assert(revised[j].0 == id);
            lemma_pairs_to_map_has(revised, j);
            let j2 = choose|j2: int| 0 <= j2 < revised.len() && revised[j2].0 == id
                && #[trigger] revised[j2].1 == pairs_to_map(revised)[id];
            assert(c[j2] == (datas[j2], self.candidate_spec(datas[j2], wrap)));
            assert(out[j2].0 == c[j2].0 && out[j2].1.is_some() == c[j2].1.is_some());
            assert(self.metric.lookup(datas[j2]) matches Some(sz) ==> sz.rel.is_some());
        }
        assert(next.candidates_spec(datas, wrap) =~= c);
        if !self.independent {
            let blank = wrap - total(c);
            if blank > 0 {
                self.lemma_share_pass_same_max(next, c, wrap, blank, 0);
                let first = self.share_pass(c, wrap, blank, 0);
                self.lemma_push_pass_same_max(next, first.0, wrap, first.1, c.len() as int);
            }
        }
        // the metric rebuilt from it
        let again = out.map_values(|p: (u64, Option<u32>)| revised_entry(next.metric, p));
        assert forall|j: int| 0 <= j < out.len() implies #[trigger] again[j] == revised[j] by {
            let id = out[j].0;
            assert(c[j] == (datas[j], self.candidate_spec(datas[j], wrap)));
            assert(id == datas[j]);
            if out[j].1.is_some() {
                lemma_pairs_to_map_has(revised, j);
                let j2 = choose|j2: int| 0 <= j2 < revised.len() && revised[j2].0 == id
                    && #[trigger] revised[j2].1 == pairs_to_map(revised)[id];
                assert(c[j2] == (datas[j2], self.candidate_spec(datas[j2], wrap)));
                assert(out[j2].1.is_some() == c[j2].1.is_some());
                assert(self.metric.lookup(datas[j]) matches Some(sz) ==> sz.rel.is_some());
            }
        }
        assert(again =~= revised);
    }
}

/// A size in a list is at most the total of the list.
pub proof fn lemma_elem_le_total(s: Seq<(u64, Option<u32>)>, i: int)
    requires
        0 <= i < s.len(),
    ensures
        len_of(s[i].1) <= total(s),
        total(s) >= 0,
    decreases s.len(),
{
    lemma_total_nonneg(s.drop_last());
    if i < s.len() - 1 {
        lemma_elem_le_total(s.drop_last(), i);
    }
}

/// A total is never negative.
pub proof fn lemma_total_nonneg(s: Seq<(u64, Option<u32>)>)
    ensures
        total(s) >= 0,
    decreases s.len(),
{
    if s.len() > 0 {
        lemma_total_nonneg(s.drop_last());
    }
}

/// Replacing one entry changes the total by the difference of the sizes.
pub proof fn lemma_total_update(s: Seq<(u64, Option<u32>)>, i: int, x: (u64, Option<u32>))
    requires
        0 <= i < s.len(),
    ensures
        total(s.update(i, x)) == total(s) - len_of(s[i].1) + len_of(x.1),
    decreases s.len(),
{
    let t = s.update(i, x);
    if i == s.len() - 1 {
        assert(t.drop_last() =~= s.drop_last());
    } else {
        assert(t.drop_last() =~= s.drop_last().update(i, x));
        lemma_total_update(s.drop_last(), i, x);
    }
}

/// Entry of the metric rebuilt after a reconcile: a sized carton keeps the
/// relative part of its sizon and takes the new size as absolute part.
pub open spec fn revised_entry(metric: CartonsMetric, p: (u64, Option<u32>)) -> (u64, Option<Sizon>) {
    match p.1 {
        Some(size) => match metric.lookup(p.0) {
            Some(sz) => (p.0, Some(Sizon { abs: Some(size), rel: sz.rel })),
            None => (p.0, None),
        },
        None => (p.0, None),
    }
}

/// Entry of the metric rebuilt after a resize: a sized carton takes its size
/// and its ratio of the total.
pub open spec fn fresh_entry(p: (u64, Option<u32>), total_size: int) -> (u64, Option<Sizon>) {
    match p.1 {
        Some(size) => (p.0, Some(Sizon { abs: Some(size), rel: Some(ratio_of(size as int, total_size) as u32) })),
        None => (p.0, None),
    }
}

impl CartonsMap<Option<Sizon>> {
    /// A metric for the listed cartons only: each sized one keeps the
    /// relative part it has here and takes its new size as absolute part;
    /// the fallback is the total size.
    pub fn abs_revised(&self, data_sizes: &Vec<(u64, Option<u32>)>, total_size: u64) -> (r: Self)
        requires
            self.wf(),
        ensures
            r.wf(),
            r.entries() == pairs_to_map(data_sizes@.map_values(|p: (u64, Option<u32>)| revised_entry(*self, p))),
            r.fallback() == Some(Sizon { abs: Some(cap_u32(total_size as int) as u32), rel: None }),
    {
        let mut list: Vec<(u64, Option<Sizon>)> = Vec::new();
        let mut i: usize = 0;
        while i < data_sizes.len()
            invariant
                self.wf(),
                i <= data_sizes@.len(),
                list@ == data_sizes@.take(i as int).map_values(|p: (u64, Option<u32>)| revised_entry(*self, p)),
            decreases data_sizes@.len() - i,
        {
            let (id, size) = data_sizes[i];
            let e: Option<Sizon> = match size {
                Some(sz) => match self.get(&id) {
                    Some(old) => Some(Sizon { abs: Some(sz), rel: old.rel }),
                    None => None,
                },
                None => None,
            };
            list.push((id, e));
            proof {
                assert(data_sizes@.take(i as int + 1).map_values(|p: (u64, Option<u32>)| revised_entry(*self, p))
                    =~= data_sizes@.take(i as int).map_values(|p: (u64, Option<u32>)| revised_entry(*self, p)).push(revised_entry(*self, data_sizes@[i as int])));
            }
            i = i + 1;
        }
        proof {
            assert(data_sizes@.take(i as int) =~= data_sizes@);
        }
        CartonsMap::new(list, Some(Sizon::abs(cap_exec(total_size))))
    }

    /// A metric for the listed cartons only: each sized one takes its size
    /// and its ratio of `total_size`; the fallback is the total size.
    pub fn new_from(data_sizes: &Vec<(u64, Option<u32>)>, total_size: u64) -> (r: Self)
        ensures
            r.wf(),
            r.entries() == pairs_to_map(data_sizes@.map_values(|p: (u64, Option<u32>)| fresh_entry(p, total_size as int))),
            r.fallback() == Some(Sizon { abs: Some(cap_u32(total_size as int) as u32), rel: None }),
    {
        let mut list: Vec<(u64, Option<Sizon>)> = Vec::new();
        let mut i: usize = 0;
        while i < data_sizes.len()
            invariant
                i <= data_sizes@.len(),
                list@ == data_sizes@.take(i as int).map_values(|p: (u64, Option<u32>)| fresh_entry(p, total_size as int)),
            decreases data_sizes@.len() - i,
        {
            let (id, size) = data_sizes[i];
            let e: Option<Sizon> = match size {
                Some(sz) => Some(Sizon { abs: Some(sz), rel: Some(ratio_exec(sz, total_size)) }),
                None => None,
            };
            list.push((id, e));
            proof {
                assert(data_sizes@.take(i as int + 1).map_values(|p: (u64, Option<u32>)| fresh_entry(p, total_size as int))
                    =~= data_sizes@.take(i as int).map_values(|p: (u64, Option<u32>)| fresh_entry(p, total_size as int)).push(fresh_entry(data_sizes@[i as int], total_size as int)));
            }
            i = i + 1;
        }
        proof {
            assert(data_sizes@.take(i as int) =~= data_sizes@);
        }
        CartonsMap::new(list, Some(Sizon::abs(cap_exec(total_size))))
    }
}

/// Live cartons of a resize step, as measured.
pub struct Measured {
    /// Size of the container.
    pub wrap_size: u32,
    /// Each live carton in order, with its measured size or none when zeroed.
    pub data_sizes: Vec<(u64, Option<u32>)>,
    /// Position of the dragged carton.
    pub index: usize,
    /// Size of the dragged carton.
    pub size: Option<u32>,
}

/// What a reconcile gives: the size of each live carton in order, their
/// total, and the metric to keep.
pub struct Reconciled {
    pub data_sizes: Vec<(u64, Option<u32>)>,
    pub total_size: u64,
    pub metric: CartonsMetric,
}

impl CartonsComplex {
    /// Size of carton `id` before any fill: from the relative part of its
    /// sizon against `wrap` (else its absolute part, else zero), within its
    /// limits; `None` for a zeroed carton.
    pub open spec fn candidate_spec(&self, id: u64, wrap: u32) -> Option<u32> {
        match self.metric.lookup(id) {
            Some(sz) => {
                let size = match sz.rel {
                    Some(r) => scale(wrap as int, r as int),
                    None => match sz.abs {
                        Some(a) => a as int,
                        None => 0,
                    },
                };
                Some(self.limited_spec(id, size, wrap) as u32)
            },
            None => None,
        }
    }

    /// Sizes of the cartons `datas` before any fill.
    pub open spec fn candidates_spec(&self, datas: Seq<u64>, wrap: u32) -> Seq<(u64, Option<u32>)> {
        datas.map_values(|id: u64| (id, self.candidate_spec(id, wrap)))
    }

    /// Sizes after a reconcile: the candidates, filled in dependent mode.
    pub open spec fn reconcile_spec(&self, datas: Seq<u64>, wrap: u32) -> Seq<(u64, Option<u32>)> {
        let c = self.candidates_spec(datas, wrap);
        if self.independent { c } else { self.fill_spec(c, wrap) }
    }

    /// Resizes the live cartons `datas`, in order, to a container of
    /// `wrap_size`: each from its stored ratio within its limits, the blank
    /// then filled in dependent mode. Gives the sizes, their total and the
    /// metric to keep, which holds the live cartons only.
    pub fn wrap_effect_on_update(&self, wrap_size: u32, datas: &Vec<u64>) -> (r: Reconciled)
        requires
            self.wf(),
            datas@.len() <= u32::MAX,
        ensures
            r.data_sizes@ == self.reconcile_spec(datas@, wrap_size),
            r.total_size as int == total(r.data_sizes@),
            r.metric.wf(),
            r.metric.entries() == pairs_to_map(r.data_sizes@.map_values(|p: (u64, Option<u32>)| revised_entry(self.metric, p))),
            r.metric.fallback() == Some(Sizon { abs: Some(cap_u32(r.total_size as int) as u32), rel: None }),
    {
        let mut data_sizes: Vec<(u64, Option<u32>)> = Vec::new();
        let mut i: usize = 0;
        while i < datas.len()
            invariant
                self.wf(),
                i <= datas@.len(),
                data_sizes@ == self.candidates_spec(datas@.take(i as int), wrap_size),
            decreases datas@.len() - i,
        {
            let id = datas[i];
            let size: Option<u32> = match self.metric.get(&id) {
                Some(sz) => {
                    let raw: u32 = match sz.rel {
                        Some(r) => scale_exec(wrap_size, r),
                        None => match sz.abs {
                            Some(a) => a,
                            None => 0,
                        },
                    };
                    Some(self.limited(id, raw, wrap_size))
                },
                None => None,
            };
            data_sizes.push((id, size));
            proof {
                assert(self.candidates_spec(datas@.take(i as int + 1), wrap_size)
                    =~= self.candidates_spec(datas@.take(i as int), wrap_size).push((id, self.candidate_spec(id, wrap_size))));
            }
            i = i + 1;
        }
        proof {
            assert(datas@.take(i as int) =~= datas@);
        }
        let total_size = if self.independent {
            get_total_size(&data_sizes)
        } else {
            self.adjust_to_fill_blank(wrap_size, &mut data_sizes)
        };
        let metric = self.metric.abs_revised(&data_sizes, total_size);
        Reconciled { data_sizes, total_size, metric }
    }

    /// Sizes that a mirroring view applies: the absolute part stored for each
    /// live carton, nothing for a zeroed one or one without it.
    pub fn passive_wrap_effect_on_update(&self, datas: &Vec<u64>) -> (r: Vec<(u64, Option<u32>)>)
        requires
            self.wf(),
        ensures
            r@ == datas@.map_values(|id: u64| (id, match self.metric.lookup(id) {
                Some(sz) => sz.abs,
                None => None,
            })),
    {
        let mut r: Vec<(u64, Option<u32>)> = Vec::new();
        let mut i: usize = 0;
        while i < datas.len()
            invariant
                self.wf(),
                i <= datas@.len(),
                r@ == datas@.take(i as int).map_values(|id: u64| (id, match self.metric.lookup(id) {
                    Some(sz) => sz.abs,
                    None => None,
                })),
            decreases datas@.len() - i,
        {
            let id = datas[i];
            let size = match self.metric.get(&id) {
                Some(sz) => sz.abs,
                None => None,
            };
            r.push((id, size));
            proof {
                assert(datas@.take(i as int + 1).map_values(|id: u64| (id, match self.metric.lookup(id) {
                    Some(sz) => sz.abs,
                    None => None,
                })) =~= datas@.take(i as int).map_values(|id: u64| (id, match self.metric.lookup(id) {
                    Some(sz) => sz.abs,
                    None => None,
                })).push((id, size)));
            }
            i = i + 1;
        }
        proof {
            assert(datas@.take(i as int) =~= datas@);
        }
        r
    }
}

/// Sum of the sizes of `data_sizes`.
pub fn get_total_size(data_sizes: &Vec<(u64, Option<u32>)>) -> (r: u64)
    requires
        data_sizes@.len() <= u32::MAX,
    ensures
        r as int == total(data_sizes@),
{
    let mut acc: u64 = 0;
    let mut i: usize = 0;
    while i < data_sizes.len()
        invariant
            i <= data_sizes@.len() <= u32::MAX,
            acc as int == total(data_sizes@.take(i as int)),
            acc <= i * (u32::MAX as int),
        decreases data_sizes@.len() - i,
    {
        proof {
            assert(data_sizes@.take(i as int + 1).drop_last() =~= data_sizes@.take(i as int));
        }
        if let Some(s) = data_sizes[i].1 {
            proof {
                assert((i + 1) * (u32::MAX as int) <= 0xffff_ffff * 0xffff_ffff + 0xffff_ffff) by (nonlinear_arith)
                    requires i <= 0xffff_ffff;
            }
            acc = acc + s as u64;
        }
        i = i + 1;
    }
    proof {
        assert(data_sizes@.take(i as int) =~= data_sizes@);
    }
    acc
}

} // verus!
