//! Resizing of cartons by a drag on the boundary after one of them.
use vstd::prelude::*;
use crate::error::Error;
use crate::sizon::{cap_u32, scale, ratio_of, ratio_exec, mul_wide, min_int, max_int, RATIO_ONE};
use super::{same_ids, CartonsComplex, CartonsMetric, CartonsMap, Measured, fresh_entry, pairs_to_map, total, len_of, same_shape, get_total_size, lemma_total_update, lemma_total_nonneg};
use crate::session::DragSession;

verus! {

/// `list` without any occurrence of `id`.
pub open spec fn without(list: Seq<u64>, id: u64) -> Seq<u64> {
    list.filter(|x: u64| x != id)
}

/// `list` with `id` added at the end, unless it holds it already.
pub open spec fn with_id(list: Seq<u64>, id: u64) -> Seq<u64> {
    if list.contains(id) { list } else { list.push(id) }
}

/// The drag cache with `(i, size)` added at the end, unless it has an entry
/// for position `i` already.
pub open spec fn with_cached(cache: Seq<(usize, u32)>, i: usize, size: u32) -> Seq<(usize, u32)> {
    if exists|j: int| 0 <= j < cache.len() && #[trigger] cache[j].0 == i {
        cache
    } else {
        cache.push((i, size))
    }
}

/// Removes every occurrence of `id` from `list`.
fn remove_id(list: &mut Vec<u64>, id: u64)
    ensures
        final(list)@ == without(old(list)@, id),
{
    let mut kept: Vec<u64> = Vec::new();
    let mut i: usize = 0;
    while i < list.len()
        invariant
            i <= list@.len(),
            list@ == old(list)@,
            kept@ == without(list@.take(i as int), id),
        decreases list@.len() - i,
    {
        let x = list[i];
        proof {
            reveal_with_fuel(Seq::filter, 1);
            assert(list@.take(i as int + 1).drop_last() =~= list@.take(i as int));
        }
        if x != id {
            kept.push(x);
        }
        i = i + 1;
    }
    proof {
        assert(list@.take(i as int) =~= list@);
    }
    *list = kept;
}

/// Adds `id` at the end of `list` unless it holds it already.
fn add_id(list: &mut Vec<u64>, id: u64)
    ensures
        final(list)@ == with_id(old(list)@, id),
{
    let mut i: usize = 0;
    while i < list.len()
        invariant
            i <= list@.len(),
            list@ == old(list)@,
            forall|j: int| 0 <= j < i ==> list@[j] != id,
        decreases list@.len() - i,
    {
        if list[i] == id {
            return;
        }
        i = i + 1;
    }
    list.push(id);
}

/// Adds `(i, size)` to the drag cache unless it has an entry for `i`.
fn add_to_cache(cache: &mut Vec<(usize, u32)>, i: usize, size: u32)
    ensures
        final(cache)@ == with_cached(old(cache)@, i, size),
{
    let mut j: usize = 0;
    while j < cache.len()
        invariant
            j <= cache@.len(),
            cache@ == old(cache)@,
            forall|k: int| 0 <= k < j ==> cache@[k].0 != i,
        decreases cache@.len() - j,
    {
        if cache[j].0 == i {
            return;
        }
        j = j + 1;
    }
    cache.push((i, size));
}

impl CartonsComplex {
    /// New size of a carton grown by `delta` from `size`: the raw size must
    /// reach `min`, is lowered to the upper limit, and must exceed `size`.
    pub open spec fn grow_spec(&self, id: u64, size: u32, delta: int, min: int, wrap: u32) -> Option<u32> {
        if size + delta >= min {
            let n = self.max_limited_spec(id, cap_u32(size + delta), wrap);
            if size < n { Some(n as u32) } else { None }
        } else {
            None
        }
    }

    /// Result of expanding a carton by `delta`: its new size, or `None` when
    /// nothing changes. A zeroed carton comes back at `min` once `delta`
    /// reaches its threshold.
    pub open spec fn expand_spec(&self, id: u64, delta: int, wrap: u32, size: Option<u32>, min: int) -> Option<u32> {
        match size {
            Some(s) => self.grow_spec(id, s, delta, min, wrap),
            None => match self.zero_threshold_spec(id, 0) {
                Some(t) => if delta >= t { Some(min as u32) } else { None },
                None => None,
            },
        }
    }

    /// Result of shrinking a carton by `amount`: its new state (`None` for
    /// zeroed), or `None` when nothing changes. Below `min` a carton that may
    /// be zeroed is zeroed once `amount` reaches its threshold at `size`.
    pub open spec fn shrink_spec(&self, id: u64, amount: int, size: Option<u32>, min: int) -> Option<Option<u32>> {
        match size {
            Some(s) => if s - amount < min {
                match self.zero_threshold_spec(id, s) {
                    Some(t) => if amount >= t { Some(None) } else { None },
                    None => None,
                }
            } else {
                Some(Some((s - amount) as u32))
            },
            None => None,
        }
    }

    /// New size of a carton of size `size` grown by `delta`, or `None` when it
    /// does not grow.
    fn grow(&self, id: u64, size: u32, delta: u64, min: u32, wrap_size: u32) -> (r: Option<u32>)
        requires
            self.wf(),
        ensures
            r == self.grow_spec(id, size, delta as int, min as int, wrap_size),
            match r {
                Some(n) => size < n && n <= size + delta,
                None => true,
            },
    {
        let raw: u32 = if delta >= (u32::MAX - size) as u64 { u32::MAX } else { size + delta as u32 };
        if delta >= min as u64 || size as u64 + delta >= min as u64 {
            let n = self.max_limited(id, raw, wrap_size);
            if size < n {
                return Some(n);
            }
        }
        None
    }

    /// Expands the carton at `index` by `delta`; gives its new size, or
    /// `None` when nothing changes.
    fn handle_expanding(
        &self,
        id: u64,
        delta: u64,
        wrap_size: u32,
        data_sizes: &mut Vec<(u64, Option<u32>)>,
        index: usize,
        size: Option<u32>,
        min: u32,
        zero_restored: &mut Vec<u64>,
    ) -> (r: Option<u32>)
        requires
            self.wf(),
            index < old(data_sizes)@.len(),
            old(data_sizes)@[index as int].0 == id,
        ensures
            r == self.expand_spec(id, delta as int, wrap_size, size, min as int),
            final(data_sizes)@ == (match r {
                Some(n) => old(data_sizes)@.update(index as int, (id, Some(n))),
                None => old(data_sizes)@,
            }),
            final(zero_restored)@ == (match (r, size) {
                (Some(_), None) => without(old(zero_restored)@, id),
                _ => old(zero_restored)@,
            }),
    {
        match size {
            Some(s) => {
                let r = self.grow(id, s, delta, min, wrap_size);
                if let Some(n) = r {
                    data_sizes.set(index, (id, Some(n)));
                }
                r
            },
            None => {
                if let Some(t) = self.zero_threshold(id, 0) {
                    if delta >= t as u64 {
                        data_sizes.set(index, (id, Some(min)));
                        remove_id(zero_restored, id);
                        return Some(min);
                    }
                }
                None
            },
        }
    }

    /// Shrinks the carton at `index` by `amount`; gives its new state, or
    /// `None` when nothing changes. An ordinary shrink records the former
    /// ratio of the carton in `zeroed_cache`.
    fn handle_shrinking(
        &self,
        id: u64,
        amount: u64,
        wrap_size: u32,
        data_sizes: &mut Vec<(u64, Option<u32>)>,
        index: usize,
        size: Option<u32>,
        min: u32,
        zeroed_cache: &mut Vec<(u64, u32)>,
    ) -> (r: Option<Option<u32>>)
        requires
            self.wf(),
            index < old(data_sizes)@.len(),
            old(data_sizes)@[index as int].0 == id,
        ensures
            r == self.shrink_spec(id, amount as int, size, min as int),
            final(data_sizes)@ == (match r {
                Some(n) => old(data_sizes)@.update(index as int, (id, n)),
                None => old(data_sizes)@,
            }),
            final(zeroed_cache)@ == (match (r, size) {
                (Some(Some(_)), Some(s)) => old(zeroed_cache)@.push((id, ratio_of(s as int, wrap_size as int) as u32)),
                _ => old(zeroed_cache)@,
            }),
    {
        if let Some(s) = size {
            if amount > s as u64 || s - (amount as u32) < min {
                if let Some(t) = self.zero_threshold(id, s) {
                    if amount >= t as u64 {
                        data_sizes.set(index, (id, None));
                        return Some(None);
                    }
                }
            } else {
                let n = s - amount as u32;
                data_sizes.set(index, (id, Some(n)));
                zeroed_cache.push((id, ratio_exec(s, wrap_size as u64)));
                return Some(Some(n));
            }
        }
        None
    }

    /// Result of an independent resize of the carton at `index` by `delta`:
    /// its new state, or `None` when the drag is ignored.
    pub open spec fn independent_spec(&self, delta: int, wrap: u32, s: Seq<(u64, Option<u32>)>, index: int) -> Option<Option<u32>> {
        let id = s[index].0;
        let min = self.resolved_min_spec(id, wrap);
        if delta > 0 {
            match self.expand_spec(id, delta, wrap, s[index].1, min) {
                Some(n) => Some(Some(n)),
                None => None,
            }
        } else if delta < 0 {
            self.shrink_spec(id, -delta, s[index].1, min)
        } else {
            None
        }
    }

    /// Resizes the carton at `index` alone by `delta`: it grows within its
    /// upper limit, shrinks down to its lower limit, is zeroed or restored
    /// past its threshold. No other carton changes. `Err(Ignore)` when
    /// nothing changes.
    fn independent_resizing(
        &self,
        delta: i64,
        wrap_size: u32,
        data_sizes: &mut Vec<(u64, Option<u32>)>,
        index: usize,
        zeroed_cache: &mut Vec<(u64, u32)>,
        zero_restored: &mut Vec<u64>,
    ) -> (r: Result<(), Error>)
        requires
            self.wf(),
            index < old(data_sizes)@.len(),
        ensures
            match self.independent_spec(delta as int, wrap_size, old(data_sizes)@, index as int) {
                Some(n) => {
                    &&& r is Ok
                    &&& final(data_sizes)@ == old(data_sizes)@.update(index as int, (old(data_sizes)@[index as int].0, n))
                },
                None => r == Err::<(), Error>(Error::Ignore) && final(data_sizes)@ == old(data_sizes)@,
            },
            final(zeroed_cache)@ == (match (self.independent_spec(delta as int, wrap_size, old(data_sizes)@, index as int), old(data_sizes)@[index as int].1) {
                (Some(Some(_)), Some(s)) => if delta < 0 {
                    old(zeroed_cache)@.push((old(data_sizes)@[index as int].0, ratio_of(s as int, wrap_size as int) as u32))
                } else {
                    old(zeroed_cache)@
                },
                _ => old(zeroed_cache)@,
            }),
            final(zero_restored)@ == (match (self.independent_spec(delta as int, wrap_size, old(data_sizes)@, index as int), old(data_sizes)@[index as int].1) {
                (Some(_), None) => if delta > 0 {
                    without(old(zero_restored)@, old(data_sizes)@[index as int].0)
                } else {
                    old(zero_restored)@
                },
                _ => old(zero_restored)@,
            }),
    {
        let (id, size) = data_sizes[index];
        let min = self.resolved_min(id, wrap_size);
        if delta > 0 {
            match self.handle_expanding(id, delta as u64, wrap_size, data_sizes, index, size, min, zero_restored) {
                Some(_) => Ok(()),
                None => Err(Error::Ignore),
            }
        } else if delta < 0 {
            let amount: u64 = (-(delta + 1)) as u64 + 1;
            match self.handle_shrinking(id, amount, wrap_size, data_sizes, index, size, min, zeroed_cache) {
                Some(_) => Ok(()),
                None => Err(Error::Ignore),
            }
        } else {
            Err(Error::Ignore)
        }
    }
}

/// Position of the `k`-th carton of one side of the boundary after `index`,
/// nearest first: the near side runs from `index` down to `0`, the far side
/// from `index + 1` up.
pub open spec fn side_pos(near: bool, index: int, k: int) -> int {
    if near { index - k } else { index + 1 + k }
}

/// Number of cartons on one side of the boundary after `index`.
pub open spec fn side_len(near: bool, index: int, n: int) -> int {
    if near { index + 1 } else { n - index - 1 }
}

impl CartonsComplex {
    /// Lower limit of the carton at position `i`.
    pub open spec fn min_at(&self, s: Seq<(u64, Option<u32>)>, i: int, wrap: u32) -> int {
        self.resolved_min_spec(s[i].0, wrap)
    }

    /// What the sized cartons of one side, from its `k`-th on, can give up
    /// before they reach their lower limits.
    pub open spec fn slack_sum(&self, s: Seq<(u64, Option<u32>)>, near: bool, index: int, k: int, wrap: u32) -> int
        decreases side_len(near, index, s.len() as int) - k,
    {
        if k < 0 || k >= side_len(near, index, s.len() as int)
            || side_pos(near, index, k) >= s.len() || side_pos(near, index, k) < 0 {
            0
        } else {
            let i = side_pos(near, index, k);
            let here = match s[i].1 {
                Some(size) => max_int(0, size - self.min_at(s, i, wrap)),
                None => 0,
            };
            here + self.slack_sum(s, near, index, k + 1, wrap)
        }
    }

    /// Shrinks the cartons of one side, nearest first from the `k`-th, each
    /// down to its lower limit at most, until `cap` is given up. Each carton
    /// that shrinks is added to the drag cache and its former ratio recorded.
    /// Gives the sizes, what is left of `cap`, the cache and the record.
    pub open spec fn shrink_pass(
        &self,
        s: Seq<(u64, Option<u32>)>,
        near: bool,
        index: int,
        k: int,
        cap: int,
        wrap: u32,
        cache: Seq<(usize, u32)>,
        zc: Seq<(u64, u32)>,
    ) -> (Seq<(u64, Option<u32>)>, int, Seq<(usize, u32)>, Seq<(u64, u32)>)
        decreases side_len(near, index, s.len() as int) - k,
    {
        if k < 0 || k >= side_len(near, index, s.len() as int) || cap <= 0
            || side_pos(near, index, k) >= s.len() || side_pos(near, index, k) < 0 {
            (s, cap, cache, zc)
        } else {
            let i = side_pos(near, index, k);
            let id = s[i].0;
            match s[i].1 {
                Some(size) => {
                    let m = self.min_at(s, i, wrap);
                    if size > m {
                        let a = min_int(size - m, cap);
                        self.shrink_pass(
                            s.update(i, (id, Some((size - a) as u32))), near, index, k + 1, cap - a, wrap,
                            with_cached(cache, i as usize, size),
                            zc.push((id, ratio_of(size as int, wrap as int) as u32)),
                        )
                    } else {
                        self.shrink_pass(s, near, index, k + 1, cap, wrap, cache, zc)
                    }
                },
                None => self.shrink_pass(s, near, index, k + 1, cap, wrap, cache, zc),
            }
        }
    }

    /// Grows the sized cartons of one side, nearest first from the `k`-th,
    /// each as far as `cap` and its upper limit allow. Gives the sizes and
    /// what is left of `cap`.
    pub open spec fn front_pass(&self, s: Seq<(u64, Option<u32>)>, near: bool, index: int, k: int, cap: int, wrap: u32)
        -> (Seq<(u64, Option<u32>)>, int)
        decreases side_len(near, index, s.len() as int) - k,
    {
        if k < 0 || k >= side_len(near, index, s.len() as int) || cap <= 0
            || side_pos(near, index, k) >= s.len() || side_pos(near, index, k) < 0 {
            (s, cap)
        } else {
            let i = side_pos(near, index, k);
            let id = s[i].0;
            match s[i].1 {
                Some(size) => match self.grow_spec(id, size, cap, self.min_at(s, i, wrap), wrap) {
                    Some(n) => self.front_pass(s.update(i, (id, Some(n))), near, index, k + 1, cap - (n - size), wrap),
                    None => self.front_pass(s, near, index, k + 1, cap, wrap),
                },
                None => self.front_pass(s, near, index, k + 1, cap, wrap),
            }
        }
    }

    /// Whether position `i` lies on the growing side of the boundary after
    /// `index`.
    pub open spec fn on_side(near: bool, index: int, n: int, i: int) -> bool {
        0 <= i < n && (if near { i <= index } else { i >= index + 1 })
    }

    /// Gives back to cartons of the growing side what the current drag took
    /// from them: drag cache entries `j - 1` down to `0`, newest first, each
    /// carton growing toward its cached size as far as `cap` allows.
    pub open spec fn cache_pass(
        &self,
        s: Seq<(u64, Option<u32>)>,
        cache: Seq<(usize, u32)>,
        j: int,
        cap: int,
        near: bool,
        index: int,
        wrap: u32,
    ) -> (Seq<(u64, Option<u32>)>, int)
        decreases j,
    {
        if j <= 0 || j > cache.len() || cap <= 0 {
            (s, cap)
        } else {
            let ci = cache[j - 1].0 as int;
            let former = cache[j - 1].1 as int;
            if Self::on_side(near, index, s.len() as int, ci) && s[ci].1.is_some() {
                let size = s[ci].1.unwrap();
                let id = s[ci].0;
                let d = min_int(former - size, cap);
                if d > 0 {
                    match self.grow_spec(id, size, d, self.min_at(s, ci, wrap), wrap) {
                        Some(n) => self.cache_pass(s.update(ci, (id, Some(n))), cache, j - 1, cap - (n - size), near, index, wrap),
                        None => self.cache_pass(s, cache, j - 1, cap, near, index, wrap),
                    }
                } else {
                    self.cache_pass(s, cache, j - 1, cap, near, index, wrap)
                }
            } else {
                self.cache_pass(s, cache, j - 1, cap, near, index, wrap)
            }
        }
    }

    /// Room of a sized carton of size `size`: up to its upper limit, or up to
    /// `u32::MAX` when it has none.
    pub open spec fn room(&self, id: u64, size: int, wrap: u32) -> int {
        match self.resolved_max_spec(id, wrap) {
            Some(m) => max_int(0, m - size),
            None => u32::MAX - size,
        }
    }

    /// Hands `rem` to the sized cartons of one side, nearest first from the
    /// `k`-th, each up to its room. Gives the sizes, what is left, and whether
    /// any sized carton was met.
    pub open spec fn absorb_pass(&self, s: Seq<(u64, Option<u32>)>, near: bool, index: int, k: int, rem: int, wrap: u32, any: bool)
        -> (Seq<(u64, Option<u32>)>, int, bool)
        decreases side_len(near, index, s.len() as int) - k,
    {
        if k < 0 || k >= side_len(near, index, s.len() as int) || rem <= 0
            || side_pos(near, index, k) >= s.len() || side_pos(near, index, k) < 0 {
            (s, rem, any)
        } else {
            let i = side_pos(near, index, k);
            let id = s[i].0;
            match s[i].1 {
                Some(size) => {
                    let c = min_int(self.room(id, size as int, wrap), rem);
                    self.absorb_pass(s.update(i, (id, Some((size + c) as u32))), near, index, k + 1, rem - c, wrap, true)
                },
                None => self.absorb_pass(s, near, index, k + 1, rem, wrap, any),
            }
        }
    }

    /// Result of a dependent resize by `delta` at the boundary after `index`:
    /// the sizes, drag cache, ratio record and restored ids afterwards, or
    /// `None` when the drag is ignored.
    ///
    /// A positive `delta` grows the near side (`index` down to `0`) and
    /// shrinks the far side; a negative one the reverse. When the shrinking
    /// side has nothing to give, its nearest carton is zeroed if the drag
    /// passes its threshold and the growing side takes all of its size. When
    /// the nearest growing carton is zeroed and may come back, it returns at
    /// its lower limit once the drag passes its threshold and the shrinking
    /// side can pay for it. Otherwise what the drag asks, within what the
    /// shrinking side can give, goes first to cartons of the growing side
    /// that this drag shrank, newest first, then to the growing side nearest
    /// first; the shrinking side pays what was taken, nearest first.
    pub open spec fn dependent_spec(
        &self,
        delta: int,
        wrap: u32,
        s: Seq<(u64, Option<u32>)>,
        index: int,
        cache: Seq<(usize, u32)>,
        zc: Seq<(u64, u32)>,
        zr: Seq<u64>,
    ) -> Option<(Seq<(u64, Option<u32>)>, Seq<(usize, u32)>, Seq<(u64, u32)>, Seq<u64>)> {
        let n = s.len() as int;
        let raw = if delta >= 0 { delta } else { -delta };
        let grow_near = delta > 0;
        let shrink_near = !grow_near;
        let msc = self.slack_sum(s, shrink_near, index, 0, wrap);
        if delta == 0 {
            None
        } else if msc == 0 {
            if side_len(shrink_near, index, n) > 0 {
                let i0 = side_pos(shrink_near, index, 0);
                let id0 = s[i0].0;
                match s[i0].1 {
                    Some(size) => match self.zero_threshold_spec(id0, size) {
                        Some(t) => if raw >= t {
                            let (s1, rem, any) = self.absorb_pass(s, grow_near, index, 0, size as int, wrap, false);
                            if rem == 0 && any {
                                Some((
                                    s1.update(i0, (id0, None)),
                                    with_cached(cache, i0 as usize, size),
                                    zc.push((id0, ratio_of(size as int, wrap as int) as u32)),
                                    zr,
                                ))
                            } else {
                                None
                            }
                        } else {
                            None
                        },
                        None => None,
                    },
                    None => None,
                }
            } else {
                None
            }
        } else {
            let e0 = side_pos(grow_near, index, 0);
            if side_len(grow_near, index, n) > 0 && s[e0].1.is_none() && self.zero_threshold_spec(s[e0].0, 0).is_some() {
                let t = self.zero_threshold_spec(s[e0].0, 0).unwrap();
                let m0 = self.min_at(s, e0, wrap);
                if raw >= t && m0 <= msc {
                    let s1 = s.update(e0, (s[e0].0, Some(m0 as u32)));
                    let (s2, _, cache2, zc2) = self.shrink_pass(s1, shrink_near, index, 0, m0, wrap, cache, zc);
                    Some((s2, cache2, zc2, with_id(zr, s[e0].0)))
                } else {
                    None
                }
            } else {
                let cap0 = min_int(raw, msc);
                let (s1, cap1) = self.cache_pass(s, cache, cache.len() as int, cap0, grow_near, index, wrap);
                let (s2, cap2) = self.front_pass(s1, grow_near, index, 0, cap1, wrap);
                let (s3, _, cache3, zc3) = self.shrink_pass(s2, shrink_near, index, 0, cap0 - cap2, wrap, cache, zc);
                Some((s3, cache3, zc3, zr))
            }
        }
    }

    /// Computes [`CartonsComplex::slack_sum`] of one whole side.
    fn slack_side(&self, data_sizes: &Vec<(u64, Option<u32>)>, near: bool, index: usize, wrap_size: u32) -> (r: u64)
        requires
            self.wf(),
            index < data_sizes@.len() <= u32::MAX,
        ensures
            r as int == self.slack_sum(data_sizes@, near, index as int, 0, wrap_size),
    {
        let n = data_sizes.len();
        let len: usize = if near { index + 1 } else { n - index - 1 };
        let mut acc: u64 = 0;
        let mut k: usize = 0;
        while k < len
            invariant
                self.wf(),
                index < n == data_sizes@.len() <= u32::MAX,
                len as int == side_len(near, index as int, n as int),
                k <= len,
                acc <= k * (u32::MAX as int),
                acc + self.slack_sum(data_sizes@, near, index as int, k as int, wrap_size)
                    == self.slack_sum(data_sizes@, near, index as int, 0, wrap_size),
            decreases len - k,
        {
            let i: usize = if near { index - k } else { index + 1 + k };
            let (id, sz) = data_sizes[i];
            if let Some(size) = sz {
                let m = self.resolved_min(id, wrap_size);
                if size > m {
                    proof {
                        assert((k + 1) * (u32::MAX as int) <= 0xffff_ffff * 0xffff_ffff + 0xffff_ffff) by (nonlinear_arith)
                            requires k < 0xffff_ffff;
                    }
                    acc = acc + (size - m) as u64;
                }
            }
            k = k + 1;
        }
        acc
    }

    /// Runs [`CartonsComplex::shrink_pass`] over one whole side; gives what
    /// is left of `cap`.
    fn shrink_side(
        &self,
        data_sizes: &mut Vec<(u64, Option<u32>)>,
        near: bool,
        index: usize,
        cap: u64,
        wrap_size: u32,
        cache: &mut Vec<(usize, u32)>,
        zeroed_cache: &mut Vec<(u64, u32)>,
    ) -> (r: u64)
        requires
            self.wf(),
            index < old(data_sizes)@.len(),
        ensures
            final(data_sizes)@.len() == old(data_sizes)@.len(),
            (final(data_sizes)@, r as int, final(cache)@, final(zeroed_cache)@)
                == self.shrink_pass(old(data_sizes)@, near, index as int, 0, cap as int, wrap_size, old(cache)@, old(zeroed_cache)@),
    {
        let n = data_sizes.len();
        let len: usize = if near { index + 1 } else { n - index - 1 };
        let mut left: u64 = cap;
        let mut k: usize = 0;
        while k < len && left > 0
            invariant
                self.wf(),
                index < n == data_sizes@.len(),
                len as int == side_len(near, index as int, n as int),
                k <= len,
                self.shrink_pass(data_sizes@, near, index as int, k as int, left as int, wrap_size, cache@, zeroed_cache@)
                    == self.shrink_pass(old(data_sizes)@, near, index as int, 0, cap as int, wrap_size, old(cache)@, old(zeroed_cache)@),
            decreases len - k,
        {
            let i: usize = if near { index - k } else { index + 1 + k };
            let (id, sz) = data_sizes[i];
            if let Some(size) = sz {
                let m = self.resolved_min(id, wrap_size);
                if size > m {
                    let a: u32 = if ((size - m) as u64) <= left { size - m } else { left as u32 };
                    data_sizes.set(i, (id, Some(size - a)));
                    add_to_cache(cache, i, size);
                    zeroed_cache.push((id, ratio_exec(size, wrap_size as u64)));
                    left = left - a as u64;
                }
            }
            k = k + 1;
        }
        left
    }

    /// Runs [`CartonsComplex::front_pass`] over one whole side; gives what is
    /// left of `cap`.
    fn front_side(&self, data_sizes: &mut Vec<(u64, Option<u32>)>, near: bool, index: usize, cap: u64, wrap_size: u32) -> (r: u64)
        requires
            self.wf(),
            index < old(data_sizes)@.len(),
        ensures
            final(data_sizes)@.len() == old(data_sizes)@.len(),
            (final(data_sizes)@, r as int) == self.front_pass(old(data_sizes)@, near, index as int, 0, cap as int, wrap_size),
            r <= cap,
    {
        let n = data_sizes.len();
        let len: usize = if near { index + 1 } else { n - index - 1 };
        let mut left: u64 = cap;
        let mut k: usize = 0;
        while k < len && left > 0
            invariant
                self.wf(),
                index < n == data_sizes@.len(),
                len as int == side_len(near, index as int, n as int),
                k <= len,
                left <= cap,
                self.front_pass(data_sizes@, near, index as int, k as int, left as int, wrap_size)
                    == self.front_pass(old(data_sizes)@, near, index as int, 0, cap as int, wrap_size),
            decreases len - k,
        {
            let i: usize = if near { index - k } else { index + 1 + k };
            let (id, sz) = data_sizes[i];
            if let Some(size) = sz {
                let m = self.resolved_min(id, wrap_size);
                if let Some(nw) = self.grow(id, size, left, m, wrap_size) {
                    data_sizes.set(i, (id, Some(nw)));
                    left = left - (nw - size) as u64;
                }
            }
            k = k + 1;
        }
        left
    }

    /// Runs [`CartonsComplex::cache_pass`] over the whole drag cache; gives
    /// what is left of `cap`.
    fn cache_side(
        &self,
        data_sizes: &mut Vec<(u64, Option<u32>)>,
        cache: &Vec<(usize, u32)>,
        near: bool,
        index: usize,
        cap: u64,
        wrap_size: u32,
    ) -> (r: u64)
        requires
            self.wf(),
            index < old(data_sizes)@.len(),
        ensures
            final(data_sizes)@.len() == old(data_sizes)@.len(),
            (final(data_sizes)@, r as int)
                == self.cache_pass(old(data_sizes)@, cache@, cache@.len() as int, cap as int, near, index as int, wrap_size),
            r <= cap,
    {
        let n = data_sizes.len();
        let mut left: u64 = cap;
        let mut j: usize = cache.len();
        while j > 0 && left > 0
            invariant
                self.wf(),
                index < n == data_sizes@.len(),
                j <= cache@.len(),
                left <= cap,
                self.cache_pass(data_sizes@, cache@, j as int, left as int, near, index as int, wrap_size)
                    == self.cache_pass(old(data_sizes)@, cache@, cache@.len() as int, cap as int, near, index as int, wrap_size),
            decreases j,
        {
            let (ci, former) = cache[j - 1];
            let side = ci < n && (if near { ci <= index } else { ci >= index + 1 });
            if side {
                let (id, sz) = data_sizes[ci];
                if let Some(size) = sz {
                    if former > size {
                        let d: u64 = if ((former - size) as u64) <= left { (former - size) as u64 } else { left };
                        let m = self.resolved_min(id, wrap_size);
                        if let Some(nw) = self.grow(id, size, d, m, wrap_size) {
                            data_sizes.set(ci, (id, Some(nw)));
                            left = left - (nw - size) as u64;
                        }
                    }
                }
            }
            j = j - 1;
        }
        left
    }

    /// Runs [`CartonsComplex::absorb_pass`] over one whole side; gives what is
    /// left of `rem` and whether any sized carton was met.
    fn absorb_side(&self, data_sizes: &mut Vec<(u64, Option<u32>)>, near: bool, index: usize, rem: u32, wrap_size: u32) -> (r: (u32, bool))
        requires
            self.wf(),
            index < old(data_sizes)@.len(),
        ensures
            final(data_sizes)@.len() == old(data_sizes)@.len(),
            (final(data_sizes)@, r.0 as int, r.1)
                == self.absorb_pass(old(data_sizes)@, near, index as int, 0, rem as int, wrap_size, false),
    {
        let n = data_sizes.len();
        let len: usize = if near { index + 1 } else { n - index - 1 };
        let mut left: u32 = rem;
        let mut any = false;
        let mut k: usize = 0;
        while k < len && left > 0
            invariant
                self.wf(),
                index < n == data_sizes@.len(),
                len as int == side_len(near, index as int, n as int),
                k <= len,
                self.absorb_pass(data_sizes@, near, index as int, k as int, left as int, wrap_size, any)
                    == self.absorb_pass(old(data_sizes)@, near, index as int, 0, rem as int, wrap_size, false),
            decreases len - k,
        {
            let i: usize = if near { index - k } else { index + 1 + k };
            let (id, sz) = data_sizes[i];
            if let Some(size) = sz {
                let room: u32 = match self.resolved_max(id, wrap_size) {
                    Some(m) => if m > size { m - size } else { 0 },
                    None => u32::MAX - size,
                };
                let c: u32 = if room <= left { room } else { left };
                data_sizes.set(i, (id, Some(size + c)));
                left = left - c;
                any = true;
            }
            k = k + 1;
        }
        (left, any)
    }

    /// Resizes by `delta` at the boundary after the carton at `index`,
    /// keeping the sum of the sizes: see [`CartonsComplex::dependent_spec`].
    /// `Err(Ignore)` with nothing changed when the drag is ignored.
    #[verifier::rlimit(40)]
    fn dependent_resizing(
        &self,
        delta: i64,
        cache: &mut Vec<(usize, u32)>,
        wrap_size: u32,
        data_sizes: &mut Vec<(u64, Option<u32>)>,
        index: usize,
        zeroed_cache: &mut Vec<(u64, u32)>,
        zero_restored: &mut Vec<u64>,
    ) -> (r: Result<(), Error>)
        requires
            self.wf(),
            index < old(data_sizes)@.len() <= u32::MAX,
        ensures
            r is Ok ==> total(final(data_sizes)@) == total(old(data_sizes)@),
            final(data_sizes)@.len() == old(data_sizes)@.len(),
            match self.dependent_spec(delta as int, wrap_size, old(data_sizes)@, index as int,
                old(cache)@, old(zeroed_cache)@, old(zero_restored)@) {
                Some((s, c, z, zr)) => {
                    &&& r is Ok
                    &&& final(data_sizes)@ == s
                    &&& final(cache)@ == c
                    &&& final(zeroed_cache)@ == z
                    &&& final(zero_restored)@ == zr
                },
                None => {
                    &&& r == Err::<(), Error>(Error::Ignore)
                    &&& final(data_sizes)@ == old(data_sizes)@
                    &&& final(cache)@ == old(cache)@
                    &&& final(zeroed_cache)@ == old(zeroed_cache)@
                    &&& final(zero_restored)@ == old(zero_restored)@
                },
            },
    {
        proof {
            self.lemma_dependent_keeps_total(delta as int, wrap_size, data_sizes@, index as int,
                cache@, zeroed_cache@, zero_restored@);
        }
        if delta == 0 {
            return Err(Error::Ignore);
        }
        let raw: u64 = if delta > 0 { delta as u64 } else { (-(delta + 1)) as u64 + 1 };
        let grow_near = delta > 0;
        let shrink_near = !grow_near;
        let n = data_sizes.len();
        let msc = self.slack_side(data_sizes, shrink_near, index, wrap_size);
        if msc == 0 {
            let slen: usize = if shrink_near { index + 1 } else { n - index - 1 };
            if slen > 0 {
                let i0: usize = if shrink_near { index } else { index + 1 };
                let (id0, sz0) = data_sizes[i0];
                if let Some(size) = sz0 {
                    if let Some(t) = self.zero_threshold(id0, size) {
                        if raw >= t as u64 {
                            let mut trial = copy_sizes(data_sizes);
                            let (rem, any) = self.absorb_side(&mut trial, grow_near, index, size, wrap_size);
                            if rem == 0 && any {
                                trial.set(i0, (id0, None));
                                *data_sizes = trial;
                                add_to_cache(cache, i0, size);
                                zeroed_cache.push((id0, ratio_exec(size, wrap_size as u64)));
                                return Ok(());
                            }
                        }
                    }
                }
            }
            return Err(Error::Ignore);
        }
        let glen: usize = if grow_near { index + 1 } else { n - index - 1 };
        if glen > 0 {
            let e0: usize = if grow_near { index } else { index + 1 };
            let (eid, esz) = data_sizes[e0];
            if esz.is_none() {
                if let Some(t) = self.zero_threshold(eid, 0) {
                    let m0 = self.resolved_min(eid, wrap_size);
                    if raw >= t as u64 && m0 as u64 <= msc {
                        data_sizes.set(e0, (eid, Some(m0)));
                        add_id(zero_restored, eid);
                        let _ = self.shrink_side(data_sizes, shrink_near, index, m0 as u64, wrap_size, cache, zeroed_cache);
                        return Ok(());
                    }
                    return Err(Error::Ignore);
                }
            }
        }
        let cap0: u64 = if raw <= msc { raw } else { msc };
        let cap1 = self.cache_side(data_sizes, cache, grow_near, index, cap0, wrap_size);
        let cap2 = self.front_side(data_sizes, grow_near, index, cap1, wrap_size);
        let _ = self.shrink_side(data_sizes, shrink_near, index, cap0 - cap2, wrap_size, cache, zeroed_cache);
        Ok(())
    }
}

/// What a resize gives: the sizes of the live cartons, the first position
/// whose style changes, the total size and the metric to keep.
pub struct Resized {
    pub data_sizes: Vec<(u64, Option<u32>)>,
    pub since: usize,
    pub total_size: u64,
    pub metric: CartonsMetric,
}

/// What a drag step records beside the sizes: the former ratio of each
/// carton that shrank, in order, and the ids of the cartons it restored.
pub struct ResizeRecord {
    pub zeroed_cache: Vec<(u64, u32)>,
    pub zero_restored: Vec<u64>,
}

/// `m` without the ids of `ids`.
pub open spec fn remove_all(m: Map<u64, u32>, ids: Seq<u64>) -> Map<u64, u32>
    decreases ids.len(),
{
    if ids.len() == 0 { m } else { remove_all(m, ids.drop_last()).remove(ids.last()) }
}

/// `m` with the pairs of `pairs` inserted in order.
pub open spec fn insert_all(m: Map<u64, u32>, pairs: Seq<(u64, u32)>) -> Map<u64, u32>
    decreases pairs.len(),
{
    if pairs.len() == 0 { m } else { insert_all(m, pairs.drop_last()).insert(pairs.last().0, pairs.last().1) }
}

impl CartonsComplex {
    /// Sizes of a resize step, before any fill: a zeroed carton has none,
    /// every other one its measured size.
    pub open spec fn measured_sizes(&self, cartons: Seq<(u64, u32)>) -> Seq<(u64, Option<u32>)> {
        cartons.map_values(|p: (u64, u32)| (p.0, if self.is_zeroed_spec(p.0) { None::<u32> } else { Some(p.1) }))
    }

    /// Lists the live cartons of a resize step, each with its measured size
    /// or none when the metric has it zeroed, and finds the first one with
    /// id `data`. `Err(Msg)` when there is none.
    pub fn measures(&self, wrap_size: u32, cartons: &Vec<(u64, u32)>, data: u64) -> (r: Result<Measured, Error>)
        requires
            self.wf(),
        ensures
            match r {
                Ok(m) => {
                    &&& m.wrap_size == wrap_size
                    &&& m.data_sizes@ == self.measured_sizes(cartons@)
                    &&& m.index < cartons@.len()
                    &&& cartons@[m.index as int].0 == data
                    &&& forall|j: int| 0 <= j < m.index ==> cartons@[j].0 != data
                    &&& m.size == m.data_sizes@[m.index as int].1
                },
                Err(e) => {
                    &&& forall|j: int| 0 <= j < cartons@.len() ==> cartons@[j].0 != data
                    &&& e matches Error::Msg(t) && t@ == "data is not found"@
                },
            },
    {
        let mut data_sizes: Vec<(u64, Option<u32>)> = Vec::new();
        let mut found: Option<usize> = None;
        let mut i: usize = 0;
        while i < cartons.len()
            invariant
                self.wf(),
                i <= cartons@.len(),
                data_sizes@ == self.measured_sizes(cartons@.take(i as int)),
                match found {
                    Some(k) => k < i && cartons@[k as int].0 == data && forall|j: int| 0 <= j < k ==> cartons@[j].0 != data,
                    None => forall|j: int| 0 <= j < i ==> cartons@[j].0 != data,
                },
            decreases cartons@.len() - i,
        {
            let (id, size) = cartons[i];
            let e: Option<u32> = if self.is_zeroed(id) { None } else { Some(size) };
            data_sizes.push((id, e));
            proof {
                assert(self.measured_sizes(cartons@.take(i as int + 1))
                    =~= self.measured_sizes(cartons@.take(i as int)).push((id, e)));
            }
            if found.is_none() && id == data {
                found = Some(i);
            }
            i = i + 1;
        }
        proof {
            assert(cartons@.take(i as int) =~= cartons@);
        }
        match found {
            Some(index) => {
                let size = data_sizes[index].1;
                Ok(Measured { wrap_size, data_sizes, index, size })
            },
            None => {
                proof { reveal_strlit("data is not found"); }
                Err(Error::Msg(String::from_str("data is not found")))
            },
        }
    }

    /// Result of a resize step on the measured sizes `s` with the carton at
    /// `index` dragged by `delta`: the sizes, the first changed position, the
    /// drag cache, the ratio record and the restored ids; `None` when the
    /// step is ignored. Independent mode changes that carton alone; dependent
    /// mode cascades and then fills the blank.
    pub open spec fn resize_spec(
        &self,
        delta: int,
        wrap: u32,
        s: Seq<(u64, Option<u32>)>,
        index: int,
        cache: Seq<(usize, u32)>,
        zc: Seq<(u64, u32)>,
        zr: Seq<u64>,
    ) -> Option<(Seq<(u64, Option<u32>)>, int, Seq<(usize, u32)>, Seq<(u64, u32)>, Seq<u64>)> {
        let id = s[index].0;
        if self.independent {
            match self.independent_spec(delta, wrap, s, index) {
                Some(n) => Some((
                    s.update(index, (id, n)),
                    index,
                    cache,
                    match (n, s[index].1) {
                        (Some(_), Some(sz)) => if delta < 0 {
                            zc.push((id, ratio_of(sz as int, wrap as int) as u32))
                        } else {
                            zc
                        },
                        _ => zc,
                    },
                    if delta > 0 && s[index].1.is_none() { without(zr, id) } else { zr },
                )),
                None => None,
            }
        } else {
            match self.dependent_spec(delta, wrap, s, index, cache, zc, zr) {
                Some((s1, c, z, r)) => Some((self.fill_spec(s1, wrap), 0, c, z, r)),
                None => None,
            }
        }
    }

    /// One resize step: measures the live cartons `cartons` in a container
    /// of `wrap_size`, drags the boundary after carton `data` by `delta`
    /// (independently or with cascade), fills the blank in dependent mode and
    /// builds the metric to keep from the new sizes. Ratios of cartons that
    /// shrank, and ids of cartons restored, are appended to `record`.
    pub fn update_resize(
        &self,
        wrap_size: u32,
        cartons: &Vec<(u64, u32)>,
        data: u64,
        delta: i64,
        cache: &mut Vec<(usize, u32)>,
        record: &mut ResizeRecord,
    ) -> (r: Result<Resized, Error>)
        requires
            self.wf(),
            cartons@.len() <= u32::MAX,
        ensures
            match r {
                Ok(x) => {
                    &&& x.metric.wf()
                    &&& x.total_size as int == total(x.data_sizes@)
                    &&& x.metric.entries() == pairs_to_map(x.data_sizes@.map_values(|p: (u64, Option<u32>)| fresh_entry(p, x.total_size as int)))
                    &&& x.metric.fallback() == Some(crate::sizon::Sizon { abs: Some(cap_u32(x.total_size as int) as u32), rel: None })
                    &&& exists|index: int| 0 <= index < cartons@.len() && cartons@[index].0 == data
                        && (forall|j: int| 0 <= j < index ==> cartons@[j].0 != data)
                        && self.resize_spec(delta as int, wrap_size, self.measured_sizes(cartons@), index,
                            old(cache)@, old(record).zeroed_cache@, old(record).zero_restored@)
                            == Some((x.data_sizes@, x.since as int, final(cache)@, final(record).zeroed_cache@, final(record).zero_restored@))
                },
                Err(Error::Msg(_)) => {
                    &&& forall|j: int| 0 <= j < cartons@.len() ==> cartons@[j].0 != data
                    &&& final(cache)@ == old(cache)@
                    &&& final(record).zeroed_cache@ == old(record).zeroed_cache@
                    &&& final(record).zero_restored@ == old(record).zero_restored@
                },
                Err(Error::Ignore) => {
                    &&& exists|index: int| 0 <= index < cartons@.len() && cartons@[index].0 == data
                        && (forall|j: int| 0 <= j < index ==> cartons@[j].0 != data)
                        && self.resize_spec(delta as int, wrap_size, self.measured_sizes(cartons@), index,
                            old(cache)@, old(record).zeroed_cache@, old(record).zero_restored@) is None
                    &&& final(cache)@ == old(cache)@
                    &&& final(record).zeroed_cache@ == old(record).zeroed_cache@
                    &&& final(record).zero_restored@ == old(record).zero_restored@
                },
            },
    {
        let m = match self.measures(wrap_size, cartons, data) {
            Ok(m) => m,
            Err(e) => return Err(e),
        };
        let Measured { wrap_size: _, data_sizes, index, size: _ } = m;
        let mut data_sizes = data_sizes;
        proof {
            assert(cartons@[index as int].0 == data);
        }
        if self.independent {
            match self.independent_resizing(delta, wrap_size, &mut data_sizes, index, &mut record.zeroed_cache, &mut record.zero_restored) {
                Ok(()) => {},
                Err(e) => return Err(e),
            }
            let total_size = get_total_size(&data_sizes);
            let metric = CartonsMap::new_from(&data_sizes, total_size);
            Ok(Resized { data_sizes, since: index, total_size, metric })
        } else {
            match self.dependent_resizing(delta, cache, wrap_size, &mut data_sizes, index, &mut record.zeroed_cache, &mut record.zero_restored) {
                Ok(()) => {},
                Err(e) => return Err(e),
            }
            let total_size = self.adjust_to_fill_blank(wrap_size, &mut data_sizes);
            let metric = CartonsMap::new_from(&data_sizes, total_size);
            Ok(Resized { data_sizes, since: 0, total_size, metric })
        }
    }
}

/// Change of the ratio cache made by a collapse or a restore.
pub enum CacheChange {
    /// The restored carton's ratio is dropped.
    Remove,
    /// The collapsed carton's ratio is kept.
    Insert(u32),
}

impl CartonsComplex {
    /// Takes `rem` from the sized cartons from position `k` on, in order,
    /// each down to its lower limit at most. Gives the sizes and what could
    /// not be taken.
    pub open spec fn fund_pass(&self, s: Seq<(u64, Option<u32>)>, k: int, rem: int, wrap: u32) -> (Seq<(u64, Option<u32>)>, int)
        decreases s.len() - k,
    {
        if k < 0 || k >= s.len() || rem <= 0 {
            (s, rem)
        } else {
            let id = s[k].0;
            match s[k].1 {
                Some(size) => {
                    let take = min_int(max_int(0, size - self.min_at(s, k, wrap)), rem);
                    if take > 0 {
                        self.fund_pass(s.update(k, (id, Some((size - take) as u32))), k + 1, rem - take, wrap)
                    } else {
                        self.fund_pass(s, k + 1, rem, wrap)
                    }
                },
                None => self.fund_pass(s, k + 1, rem, wrap),
            }
        }
    }

    /// Size a zeroed carton comes back at: its cached ratio of `wrap`,
    /// lowered to its upper limit.
    pub open spec fn restore_size(&self, id: u64, wrap: u32) -> int {
        let cache = scale(wrap as int, self.zeroed_cache.lookup(id) as int);
        match self.resolved_max_spec(id, wrap) {
            Some(m) => min_int(cache, m),
            None => cache,
        }
    }

    /// Proportional share of the sized carton of size `size` at position
    /// `k` in paying `want` out of the `slack` that all cartons can give:
    /// its own slack times `want / slack`, rounded down.
    pub open spec fn fund_share(&self, s: Seq<(u64, Option<u32>)>, k: int, size: int, want: int, slack: int, wrap: u32) -> int {
        if slack > 0 {
            max_int(0, size - self.min_at(s, k, wrap)) * want / slack
        } else {
            0
        }
    }

    /// Proportional funding from position `k` on: each sized carton gives its
    /// [`CartonsComplex::fund_share`]. Gives the sizes and what was taken.
    pub open spec fn share_fund_pass(&self, s: Seq<(u64, Option<u32>)>, k: int, want: int, slack: int, wrap: u32)
        -> (Seq<(u64, Option<u32>)>, int)
        decreases s.len() - k,
    {
        if k < 0 || k >= s.len() {
            (s, 0)
        } else {
            let id = s[k].0;
            match s[k].1 {
                Some(size) => {
                    let take = self.fund_share(s, k, size as int, want, slack, wrap);
                    let rest = self.share_fund_pass(s.update(k, (id, Some((size - take) as u32))), k + 1, want, slack, wrap);
                    (rest.0, take + rest.1)
                },
                None => self.share_fund_pass(s, k + 1, want, slack, wrap),
            }
        }
    }

    /// Result of switching the carton at `index` of `s` on (restore) or off
    /// (collapse): the sizes before any fill and the change of the ratio
    /// cache, or `None` when nothing changes.
    ///
    /// A zeroed carton is restored to its cached ratio of `wrap`, lowered to
    /// its upper limit: in independent mode when that reaches its lower
    /// limit. In dependent mode the other cartons pay for it, as far as their
    /// slack above their lower limits allows: each gives its share of the
    /// slack in proportion, and what rounding leaves is taken in order; the
    /// carton takes what they paid when that reaches its lower limit. A sized
    /// carton that may be zeroed is collapsed: in independent mode always; in
    /// dependent mode when the other cartons, in order and each up to its
    /// room, take its whole size.
    pub open spec fn switch_spec(&self, wrap: u32, s: Seq<(u64, Option<u32>)>, index: int, on: bool)
        -> Option<(Seq<(u64, Option<u32>)>, CacheChange)>
    {
        let id = s[index].0;
        if on {
            match s[index].1 {
                None => {
                    let want = self.restore_size(id, wrap);
                    let min = self.resolved_min_spec(id, wrap);
                    if self.independent {
                        if want >= min { Some((s.update(index, (id, Some(want as u32))), CacheChange::Remove)) } else { None }
                    } else {
                        let slack = self.slack_sum(s, false, -1, 0, wrap);
                        let target = min_int(want, slack);
                        let (s1, taken) = self.share_fund_pass(s, 0, target, slack, wrap);
                        let (s2, rem) = self.fund_pass(s1, 0, max_int(0, target - taken), wrap);
                        let got = target - rem;
                        if got >= min { Some((s2.update(index, (id, Some(got as u32))), CacheChange::Remove)) } else { None }
                    }
                },
                Some(_) => None,
            }
        } else {
            match s[index].1 {
                Some(size) => if self.allow_zero.lookup(id) {
                    let ratio = ratio_of(size as int, wrap as int) as u32;
                    if self.independent {
                        Some((s.update(index, (id, None)), CacheChange::Insert(ratio)))
                    } else {
                        let (s1, rem, _) = self.absorb_pass(s.update(index, (id, None)), false, -1, 0, size as int, wrap, false);
                        if rem == 0 { Some((s1, CacheChange::Insert(ratio))) } else { None }
                    }
                } else {
                    None
                },
                None => None,
            }
        }
    }

    /// What all sized cartons can give before they reach their lower limits.
    fn slack_all(&self, data_sizes: &Vec<(u64, Option<u32>)>, wrap_size: u32) -> (r: u64)
        requires
            self.wf(),
            data_sizes@.len() <= u32::MAX,
        ensures
            r as int == self.slack_sum(data_sizes@, false, -1, 0, wrap_size),
    {
        let n = data_sizes.len();
        let mut acc: u64 = 0;
        let mut k: usize = 0;
        while k < n
            invariant
                self.wf(),
                n == data_sizes@.len() <= u32::MAX,
                k <= n,
                acc <= k * (u32::MAX as int),
                acc + self.slack_sum(data_sizes@, false, -1, k as int, wrap_size)
                    == self.slack_sum(data_sizes@, false, -1, 0, wrap_size),
            decreases n - k,
        {
            let (id, sz) = data_sizes[k];
            if let Some(size) = sz {
                let m = self.resolved_min(id, wrap_size);
                if size > m {
                    proof {
                        assert((k + 1) * (u32::MAX as int) <= 0xffff_ffff * 0xffff_ffff + 0xffff_ffff) by (nonlinear_arith)
                            requires k < 0xffff_ffff;
                    }
                    acc = acc + (size - m) as u64;
                }
            }
            k = k + 1;
        }
        acc
    }

    /// Runs [`CartonsComplex::share_fund_pass`] over the whole list; gives
    /// what was taken.
    fn share_fund_all(&self, data_sizes: &mut Vec<(u64, Option<u32>)>, want: u32, slack: u64, wrap_size: u32) -> (r: u64)
        requires
            self.wf(),
            old(data_sizes)@.len() <= u32::MAX,
            want <= slack,
        ensures
            final(data_sizes)@.len() == old(data_sizes)@.len(),
            (final(data_sizes)@, r as int) == self.share_fund_pass(old(data_sizes)@, 0, want as int, slack as int, wrap_size),
    {
        let n = data_sizes.len();
        let mut taken: u64 = 0;
        let mut k: usize = 0;
        while k < n
            invariant
                self.wf(),
                n == data_sizes@.len() <= u32::MAX,
                k <= n,
                want <= slack,
                taken <= k * (u32::MAX as int),
                self.share_fund_pass(data_sizes@, k as int, want as int, slack as int, wrap_size).0
                    == self.share_fund_pass(old(data_sizes)@, 0, want as int, slack as int, wrap_size).0,
                taken + self.share_fund_pass(data_sizes@, k as int, want as int, slack as int, wrap_size).1
                    == self.share_fund_pass(old(data_sizes)@, 0, want as int, slack as int, wrap_size).1,
            decreases n - k,
        {
            let (id, sz) = data_sizes[k];
            if let Some(size) = sz {
                let m = self.resolved_min(id, wrap_size);
                let sl: u32 = if size > m { size - m } else { 0 };
                let take: u64 = if slack > 0 { mul_wide(sl, want) / slack } else { 0 };
                proof {
                    if slack > 0 {
                        assert((sl as int * want as int) / (slack as int) <= sl as int) by (nonlinear_arith)
                            requires want <= slack, slack > 0, sl >= 0;
                        assert((k + 1) * (u32::MAX as int) <= 0xffff_ffff * 0xffff_ffff + 0xffff_ffff) by (nonlinear_arith)
                            requires k < 0xffff_ffff;
                    }
                }
                data_sizes.set(k, (id, Some(size - take as u32)));
                taken = taken + take;
            }
            k = k + 1;
        }
        taken
    }

    /// Runs [`CartonsComplex::fund_pass`] over the whole list; gives what
    /// could not be taken.
    fn fund_all(&self, data_sizes: &mut Vec<(u64, Option<u32>)>, rem: u32, wrap_size: u32) -> (r: u32)
        requires
            self.wf(),
        ensures
            final(data_sizes)@.len() == old(data_sizes)@.len(),
            (final(data_sizes)@, r as int) == self.fund_pass(old(data_sizes)@, 0, rem as int, wrap_size),
            r <= rem,
    {
        let n = data_sizes.len();
        let mut left: u32 = rem;
        let mut k: usize = 0;
        while k < n && left > 0
            invariant
                self.wf(),
                n == data_sizes@.len(),
                k <= n,
                left <= rem,
                self.fund_pass(data_sizes@, k as int, left as int, wrap_size)
                    == self.fund_pass(old(data_sizes)@, 0, rem as int, wrap_size),
            decreases n - k,
        {
            let (id, sz) = data_sizes[k];
            if let Some(size) = sz {
                let m = self.resolved_min(id, wrap_size);
                if size > m {
                    let take: u32 = if size - m <= left { size - m } else { left };
                    data_sizes.set(k, (id, Some(size - take)));
                    left = left - take;
                }
            }
            k = k + 1;
        }
        left
    }

    /// Runs [`CartonsComplex::absorb_pass`] over the whole list, in order;
    /// gives what is left of `rem`.
    fn absorb_all(&self, data_sizes: &mut Vec<(u64, Option<u32>)>, rem: u32, wrap_size: u32) -> (r: u32)
        requires
            self.wf(),
        ensures
            final(data_sizes)@.len() == old(data_sizes)@.len(),
            (final(data_sizes)@, r as int) == ({
                let t = self.absorb_pass(old(data_sizes)@, false, -1, 0, rem as int, wrap_size, false);
                (t.0, t.1)
            }),
    {
        let n = data_sizes.len();
        let mut left: u32 = rem;
        let mut any = false;
        let mut k: usize = 0;
        while k < n && left > 0
            invariant
                self.wf(),
                n == data_sizes@.len(),
                k <= n,
                self.absorb_pass(data_sizes@, false, -1, k as int, left as int, wrap_size, any)
                    == self.absorb_pass(old(data_sizes)@, false, -1, 0, rem as int, wrap_size, false),
            decreases n - k,
        {
            let (id, sz) = data_sizes[k];
            if let Some(size) = sz {
                let room: u32 = match self.resolved_max(id, wrap_size) {
                    Some(m) => if m > size { m - size } else { 0 },
                    None => u32::MAX - size,
                };
                let c: u32 = if room <= left { room } else { left };
                data_sizes.set(k, (id, Some(size + c)));
                left = left - c;
                any = true;
            }
            k = k + 1;
        }
        left
    }

    /// Collapses (`on == false`) or restores (`on == true`) carton `data` of
    /// the live cartons `cartons` outside of a drag: see
    /// [`CartonsComplex::switch_spec`]. On success the blank is filled in
    /// dependent mode, the metric is rebuilt from the new sizes, the ratio
    /// cache is updated, and the new sizes are given. `Err(Msg)` when `data`
    /// is not live, `Err(Ignore)` when nothing changes; the group is then
    /// left as it was.
    pub fn switch_zero(&mut self, wrap_size: u32, cartons: &Vec<(u64, u32)>, data: u64, on: bool) -> (r: Result<Vec<(u64, Option<u32>)>, Error>)
        requires
            old(self).wf(),
            cartons@.len() <= u32::MAX,
        ensures
            final(self).wf(),
            final(self).lateral == old(self).lateral,
            final(self).independent == old(self).independent,
            final(self).name == old(self).name,
            final(self).min == old(self).min,
            final(self).max == old(self).max,
            final(self).allow_zero == old(self).allow_zero,
            final(self).zeroed_when == old(self).zeroed_when,
            match r {
                Ok(sizes) => exists|index: int| 0 <= index < cartons@.len() && cartons@[index].0 == data
                    && (forall|j: int| 0 <= j < index ==> cartons@[j].0 != data)
                    && match old(self).switch_spec(wrap_size, old(self).measured_sizes(cartons@), index, on) {
                        Some((s1, change)) => {
                            let filled = if old(self).independent { s1 } else { old(self).fill_spec(s1, wrap_size) };
                            &&& sizes@ == filled
                            &&& final(self).metric.entries() == pairs_to_map(filled.map_values(|p: (u64, Option<u32>)| fresh_entry(p, total(filled))))
                            &&& final(self).metric.fallback() == Some(crate::sizon::Sizon { abs: Some(cap_u32(total(filled)) as u32), rel: None })
                            &&& final(self).zeroed_cache.fallback() == old(self).zeroed_cache.fallback()
                            &&& final(self).zeroed_cache.entries() == match change {
                                CacheChange::Remove => old(self).zeroed_cache.entries().remove(data),
                                CacheChange::Insert(v) => old(self).zeroed_cache.entries().insert(data, v),
                            }
                        },
                        None => false,
                    },
                Err(e) => {
                    &&& final(self).metric == old(self).metric
                    &&& final(self).zeroed_cache == old(self).zeroed_cache
                    &&& match e {
                        Error::Msg(_) => forall|j: int| 0 <= j < cartons@.len() ==> cartons@[j].0 != data,
                        Error::Ignore => exists|index: int| 0 <= index < cartons@.len() && cartons@[index].0 == data
                            && (forall|j: int| 0 <= j < index ==> cartons@[j].0 != data)
                            && old(self).switch_spec(wrap_size, old(self).measured_sizes(cartons@), index, on) is None,
                    }
                },
            },
    {
        let m = match self.measures(wrap_size, cartons, data) {
            Ok(m) => m,
            Err(e) => return Err(e),
        };
        let Measured { wrap_size: _, data_sizes, index, size } = m;
        let mut data_sizes = data_sizes;
        proof {
            assert(cartons@[index as int].0 == data);
        }
        let id = data;
        let mut changed = false;
        let mut insert_ratio: Option<u32> = None;
        if on {
            if size.is_none() {
                let cache = self.cached_size(id, wrap_size);
                let want: u32 = match self.resolved_max(id, wrap_size) {
                    Some(m) => if cache <= m { cache } else { m },
                    None => cache,
                };
                let min = self.resolved_min(id, wrap_size);
                if self.independent {
                    if want >= min {
                        data_sizes.set(index, (id, Some(want)));
                        changed = true;
                    }
                } else {
                    let slack = self.slack_all(&data_sizes, wrap_size);
                    let target: u32 = if (want as u64) <= slack { want } else { slack as u32 };
                    let mut trial = copy_sizes(&data_sizes);
                    let taken = self.share_fund_all(&mut trial, target, slack, wrap_size);
                    let left: u32 = if taken <= target as u64 { target - taken as u32 } else { 0 };
                    let rem = self.fund_all(&mut trial, left, wrap_size);
                    let got = target - rem;
                    if got >= min {
                        trial.set(index, (id, Some(got)));
                        data_sizes = trial;
                        changed = true;
                    }
                }
            }
        } else if let Some(sz) = size {
            if *self.allow_zero.get(&id) {
                let ratio = ratio_exec(sz, wrap_size as u64);
                if self.independent {
                    data_sizes.set(index, (id, None));
                    insert_ratio = Some(ratio);
                    changed = true;
                } else {
                    let mut trial = copy_sizes(&data_sizes);
                    trial.set(index, (id, None));
                    let rem = self.absorb_all(&mut trial, sz, wrap_size);
                    if rem == 0 {
                        data_sizes = trial;
                        insert_ratio = Some(ratio);
                        changed = true;
                    }
                }
            }
        }
        if !changed {
            return Err(Error::Ignore);
        }
        let total_size = if self.independent {
            get_total_size(&data_sizes)
        } else {
            self.adjust_to_fill_blank(wrap_size, &mut data_sizes)
        };
        match insert_ratio {
            Some(v) => self.zeroed_cache.insert(id, v),
            None => self.zeroed_cache.remove(&id),
        }
        self.metric = CartonsMap::new_from(&data_sizes, total_size);
        Ok(data_sizes)
    }
}

impl CartonsComplex {
    /// One pointer move of a drag on the resizer after carton `data`: the
    /// session turns the pointer position into a drag distance (see
    /// [`DragSession::drag_delta`]), then [`CartonsComplex::update_resize`]
    /// runs with the session's drag cache. Gives the resize and what it
    /// recorded. `Err(Ignore)` when the move gives no distance.
    pub fn resize_work(
        &self,
        session: &mut DragSession,
        client_pos: i32,
        resizer_front: i32,
        wrap_size: u32,
        cartons: &Vec<(u64, u32)>,
        data: u64,
    ) -> (r: Result<(Resized, ResizeRecord), Error>)
        requires
            self.wf(),
            old(session).wf(),
            cartons@.len() <= u32::MAX,
        ensures
            final(session).wf(),
            final(session).shift == old(session).shift,
            final(session).pos == old(session).moved_pos(client_pos),
            match old(session).drag_spec(client_pos, resizer_front) {
                None => (r matches Err(Error::Ignore)) && final(session).cache@ == old(session).cache@,
                Some(delta) => match r {
                    Ok(p) => p.0.metric.wf()
                        && p.0.total_size as int == total(p.0.data_sizes@)
                        && p.0.metric.entries() == pairs_to_map(p.0.data_sizes@.map_values(|q: (u64, Option<u32>)| fresh_entry(q, p.0.total_size as int)))
                        && p.0.metric.fallback() == Some(crate::sizon::Sizon { abs: Some(cap_u32(p.0.total_size as int) as u32), rel: None })
                        && exists|index: int| 0 <= index < cartons@.len() && cartons@[index].0 == data
                        && (forall|j: int| 0 <= j < index ==> cartons@[j].0 != data)
                        && self.resize_spec(delta, wrap_size, self.measured_sizes(cartons@), index,
                            old(session).cache@, Seq::empty(), Seq::empty())
                            == Some((p.0.data_sizes@, p.0.since as int, final(session).cache@, p.1.zeroed_cache@, p.1.zero_restored@)),
                    Err(Error::Msg(_)) => forall|j: int| 0 <= j < cartons@.len() ==> cartons@[j].0 != data,
                    Err(Error::Ignore) => final(session).cache@ == old(session).cache@
                        && exists|index: int| 0 <= index < cartons@.len() && cartons@[index].0 == data
                        && (forall|j: int| 0 <= j < index ==> cartons@[j].0 != data)
                        && self.resize_spec(delta, wrap_size, self.measured_sizes(cartons@), index,
                            old(session).cache@, Seq::empty(), Seq::empty()) is None,
                },
            },
    {
        let delta = match session.drag_delta(client_pos, resizer_front) {
            Some(d) => d,
            None => return Err(Error::Ignore),
        };
        let mut record = ResizeRecord { zeroed_cache: Vec::new(), zero_restored: Vec::new() };
        proof {
            assert(record.zeroed_cache@ =~= Seq::<(u64, u32)>::empty());
            assert(record.zero_restored@ =~= Seq::<u64>::empty());
        }
        match self.update_resize(wrap_size, cartons, data, delta, &mut session.cache, &mut record) {
            Ok(x) => {
                let out = (x, record);
                proof {
                    // the distance as the contract names it
                    let dd = old(session).drag_spec(client_pos, resizer_front).unwrap();
                    assert(dd == delta as int);
                }
                Ok(out)
            },
            Err(e) => Err(e),
        }
    }

    /// Keeps the outcome of a drag step: `metric` becomes the live state, the
    /// restored ids leave the ratio cache, then the recorded ratios enter it
    /// in order.
    pub fn apply_resize(&mut self, metric: CartonsMetric, record: &ResizeRecord)
        requires
            old(self).wf(),
            metric.wf(),
        ensures
            final(self).wf(),
            final(self).metric == metric,
            final(self).zeroed_cache.fallback() == old(self).zeroed_cache.fallback(),
            final(self).zeroed_cache.entries()
                == insert_all(remove_all(old(self).zeroed_cache.entries(), record.zero_restored@), record.zeroed_cache@),
            final(self).lateral == old(self).lateral,
            final(self).independent == old(self).independent,
            final(self).name == old(self).name,
            final(self).min == old(self).min,
            final(self).max == old(self).max,
            final(self).allow_zero == old(self).allow_zero,
            final(self).zeroed_when == old(self).zeroed_when,
    {
        self.metric = metric;
        let mut i: usize = 0;
        while i < record.zero_restored.len()
            invariant
                self.metric == metric,
                self.lateral == old(self).lateral,
                self.independent == old(self).independent,
                self.name == old(self).name,
                self.min == old(self).min,
                self.max == old(self).max,
                self.allow_zero == old(self).allow_zero,
                self.zeroed_when == old(self).zeroed_when,
                self.zeroed_cache.wf(),
                self.zeroed_cache.fallback() == old(self).zeroed_cache.fallback(),
                i <= record.zero_restored@.len(),
                self.zeroed_cache.entries() == remove_all(old(self).zeroed_cache.entries(), record.zero_restored@.take(i as int)),
            decreases record.zero_restored@.len() - i,
        {
            self.zeroed_cache.remove(&record.zero_restored[i]);
            proof {
                assert(record.zero_restored@.take(i as int + 1).drop_last() =~= record.zero_restored@.take(i as int));
            }
            i = i + 1;
        }
        proof {
            assert(record.zero_restored@.take(i as int) =~= record.zero_restored@);
        }
        let ghost base = self.zeroed_cache.entries();
        let mut j: usize = 0;
        while j < record.zeroed_cache.len()
            invariant
                self.metric == metric,
                self.lateral == old(self).lateral,
                self.independent == old(self).independent,
                self.name == old(self).name,
                self.min == old(self).min,
                self.max == old(self).max,
                self.allow_zero == old(self).allow_zero,
                self.zeroed_when == old(self).zeroed_when,
                self.zeroed_cache.wf(),
                self.zeroed_cache.fallback() == old(self).zeroed_cache.fallback(),
                j <= record.zeroed_cache@.len(),
                self.zeroed_cache.entries() == insert_all(base, record.zeroed_cache@.take(j as int)),
            decreases record.zeroed_cache@.len() - j,
        {
            let (k, v) = record.zeroed_cache[j];
            self.zeroed_cache.insert(k, v);
            proof {
                assert(record.zeroed_cache@.take(j as int + 1).drop_last() =~= record.zeroed_cache@.take(j as int));
            }
            j = j + 1;
        }
        proof {
            assert(record.zeroed_cache@.take(j as int) =~= record.zeroed_cache@);
        }
    }
}

/// Style updates for the cartons from position `since` on: each position
/// with its size (zero for a zeroed carton) and its offset, the sum of the
/// sizes before it.
pub open spec fn style_spec(s: Seq<(u64, Option<u32>)>, since: int) -> Seq<(usize, u32, u64)> {
    if since > s.len() { Seq::empty() } else { style_full(s, since) }
}

/// [`style_spec`] for a start within the list.
pub open spec fn style_full(s: Seq<(u64, Option<u32>)>, since: int) -> Seq<(usize, u32, u64)> {
    Seq::new((s.len() - since) as nat, |k: int| ((since + k) as usize, len_of(s[since + k].1) as u32, total(s.take(since + k)) as u64))
}

/// Position, size and offset of each carton from position `since` on, for
/// the caller to write into the layout; nothing when `since` is past the end.
pub fn update_style(data_sizes: &Vec<(u64, Option<u32>)>, since: usize) -> (r: Vec<(usize, u32, u64)>)
    requires
        data_sizes@.len() <= u32::MAX,
    ensures
        r@ == style_spec(data_sizes@, since as int),
{
    if since > data_sizes.len() {
        return Vec::new();
    }
    let mut r: Vec<(usize, u32, u64)> = Vec::new();
    let mut pos: u64 = 0;
    let mut i: usize = 0;
    while i < data_sizes.len()
        invariant
            since <= data_sizes@.len() <= u32::MAX,
            i <= data_sizes@.len(),
            pos as int == total(data_sizes@.take(i as int)),
            pos <= i * (u32::MAX as int),
            r@ == (if i <= since { Seq::empty() } else { style_full(data_sizes@.take(i as int), since as int) }),
        decreases data_sizes@.len() - i,
    {
        let size: u32 = match data_sizes[i].1 {
            Some(x) => x,
            None => 0,
        };
        proof {
            assert(data_sizes@.take(i as int + 1).drop_last() =~= data_sizes@.take(i as int));
            assert((i + 1) * (u32::MAX as int) <= 0xffff_ffff * 0xffff_ffff + 0xffff_ffff) by (nonlinear_arith)
                requires i < 0xffff_ffff;
        }
        if i >= since {
            r.push((i, size, pos));
            proof {
                let t = data_sizes@.take(i as int + 1);
                let prev = data_sizes@.take(i as int);
                assert forall|k: int| 0 <= k < i + 1 - since implies #[trigger] t.take(since + k) =~= data_sizes@.take(since + k) by {}
                assert forall|k: int| 0 <= k < i - since implies #[trigger] prev.take(since + k) =~= data_sizes@.take(since + k) by {}
                assert(t.take(i as int) =~= prev);
                assert forall|k: int| 0 <= k < i + 1 - since implies #[trigger] r@[k] == style_full(t, since as int)[k] by {
                    if k < i - since {
                        assert(prev.take(since + k) =~= t.take(since + k));
                    }
                }
                assert(r@ =~= style_full(t, since as int));
            }
        }
        pos = pos + size as u64;
        i = i + 1;
    }
    proof {
        assert(data_sizes@.take(i as int) =~= data_sizes@);
        if i <= since {
            assert(r@ =~= style_full(data_sizes@, since as int));
        }
    }
    r
}

/// `t` agrees with `s` at every position off the growing side.
pub open spec fn same_off_side(s: Seq<(u64, Option<u32>)>, t: Seq<(u64, Option<u32>)>, near: bool, index: int) -> bool {
    &&& s.len() == t.len()
    &&& forall|j: int| 0 <= j < s.len() && !CartonsComplex::on_side(near, index, s.len() as int, j) ==> #[trigger] t[j] == s[j]
}

impl CartonsComplex {
    /// The shrink pass takes what its side can give, up to `cap`, and the
    /// sizes lose exactly what it took; nothing off its side changes.
    pub proof fn lemma_shrink_pass(
        &self,
        s: Seq<(u64, Option<u32>)>,
        near: bool,
        index: int,
        k: int,
        cap: int,
        wrap: u32,
        cache: Seq<(usize, u32)>,
        zc: Seq<(u64, u32)>,
    )
        requires
            0 <= k,
            0 <= cap,
        ensures
            ({
                let (t, left, _, _) = self.shrink_pass(s, near, index, k, cap, wrap, cache, zc);
                &&& total(t) == total(s) - (cap - left)
                &&& left == max_int(0, cap - self.slack_sum(s, near, index, k, wrap))
                &&& same_off_side(s, t, near, index)
            }),
        decreases side_len(near, index, s.len() as int) - k,
    {
        if k >= side_len(near, index, s.len() as int) || side_pos(near, index, k) >= s.len() || side_pos(near, index, k) < 0 || cap <= 0 {
            if cap > 0 {
                assert(self.slack_sum(s, near, index, k, wrap) == 0);
            } else {
                self.lemma_slack_nonneg(s, near, index, k, wrap);
            }
        } else {
            let i = side_pos(near, index, k);
            let id = s[i].0;
            match s[i].1 {
                Some(size) => {
                    let m = self.min_at(s, i, wrap);
                    if size > m {
                        let a = min_int(size - m, cap);
                        let s2 = s.update(i, (id, Some((size - a) as u32)));
                        lemma_total_update(s, i, (id, Some((size - a) as u32)));
                        self.lemma_slack_update(s, near, index, k + 1, i, (id, Some((size - a) as u32)), wrap);
                        self.lemma_shrink_pass(s2, near, index, k + 1, cap - a, wrap,
                            with_cached(cache, i as usize, size), zc.push((id, ratio_of(size as int, wrap as int) as u32)));
                        self.lemma_slack_nonneg(s, near, index, k + 1, wrap);
                    } else {
                        self.lemma_shrink_pass(s, near, index, k + 1, cap, wrap, cache, zc);
                    }
                },
                None => {
                    self.lemma_shrink_pass(s, near, index, k + 1, cap, wrap, cache, zc);
                },
            }
        }
    }

    /// What a side can give is never negative.
    pub proof fn lemma_slack_nonneg(&self, s: Seq<(u64, Option<u32>)>, near: bool, index: int, k: int, wrap: u32)
        ensures
            self.slack_sum(s, near, index, k, wrap) >= 0,
        decreases side_len(near, index, s.len() as int) - k,
    {
        if !(k < 0 || k >= side_len(near, index, s.len() as int) || side_pos(near, index, k) >= s.len() || side_pos(near, index, k) < 0) {
            self.lemma_slack_nonneg(s, near, index, k + 1, wrap);
        }
    }

    /// What a side gives from its `k`-th carton on does not depend on a
    /// position before it, or off the side.
    pub proof fn lemma_slack_update(&self, s: Seq<(u64, Option<u32>)>, near: bool, index: int, k: int, i: int, x: (u64, Option<u32>), wrap: u32)
        requires
            0 <= i < s.len(),
            x.0 == s[i].0,
            forall|kk: int| k <= kk ==> side_pos(near, index, kk) != i,
        ensures
            self.slack_sum(s.update(i, x), near, index, k, wrap) == self.slack_sum(s, near, index, k, wrap),
        decreases side_len(near, index, s.len() as int) - k,
    {
        if !(k < 0 || k >= side_len(near, index, s.len() as int) || side_pos(near, index, k) >= s.len() || side_pos(near, index, k) < 0) {
            self.lemma_slack_update(s, near, index, k + 1, i, x, wrap);
        }
    }

    /// What a side gives depends only on its own positions.
    pub proof fn lemma_slack_same_side(&self, s: Seq<(u64, Option<u32>)>, t: Seq<(u64, Option<u32>)>, near: bool, index: int, k: int, wrap: u32)
        requires
            s.len() == t.len(),
            forall|kk: int| k <= kk < side_len(near, index, s.len() as int) && 0 <= side_pos(near, index, kk) < s.len()
                ==> #[trigger] t[side_pos(near, index, kk)] == s[side_pos(near, index, kk)],
        ensures
            self.slack_sum(t, near, index, k, wrap) == self.slack_sum(s, near, index, k, wrap),
        decreases side_len(near, index, s.len() as int) - k,
    {
        if !(k < 0 || k >= side_len(near, index, s.len() as int) || side_pos(near, index, k) >= s.len() || side_pos(near, index, k) < 0) {
            assert(t[side_pos(near, index, k)] == s[side_pos(near, index, k)]);
            self.lemma_slack_same_side(s, t, near, index, k + 1, wrap);
        }
    }

    /// A carton that grows by `grow_spec` grows by at most what it was given.
    pub proof fn lemma_grow_bound(&self, id: u64, size: u32, d: int, min: int, wrap: u32)
        requires
            d >= 0,
        ensures
            self.grow_spec(id, size, d, min, wrap) matches Some(n) ==> size < n <= size + d,
    {
        let x = cap_u32(size + d);
        let sz = self.max.lookup(id);
        let a = sz.min_abs_spec(x);
        if let (Some(rel), Some(p)) = (sz.rel, Some(wrap)) {
            if p > 0 && (rel as int) * (p as int) < a * (RATIO_ONE as int) {
                crate::sizon::lemma_scale_below(p as int, rel as int, a);
            }
        }
    }

    /// The front pass hands out at most `cap`, and the sizes gain exactly
    /// what it handed out; nothing off its side changes.
    pub proof fn lemma_front_pass(&self, s: Seq<(u64, Option<u32>)>, near: bool, index: int, k: int, cap: int, wrap: u32)
        requires
            0 <= k,
            0 <= cap,
        ensures
            ({
                let (t, left) = self.front_pass(s, near, index, k, cap, wrap);
                &&& total(t) == total(s) + (cap - left)
                &&& 0 <= left <= cap
                &&& same_off_side(s, t, near, index)
            }),
        decreases side_len(near, index, s.len() as int) - k,
    {
        if !(k >= side_len(near, index, s.len() as int) || side_pos(near, index, k) >= s.len() || side_pos(near, index, k) < 0 || cap <= 0) {
            let i = side_pos(near, index, k);
            let id = s[i].0;
            match s[i].1 {
                Some(size) => {
                    self.lemma_grow_bound(id, size, cap, self.min_at(s, i, wrap), wrap);
                    match self.grow_spec(id, size, cap, self.min_at(s, i, wrap), wrap) {
                        Some(n) => {
                            lemma_total_update(s, i, (id, Some(n)));
                            self.lemma_front_pass(s.update(i, (id, Some(n))), near, index, k + 1, cap - (n - size), wrap);
                        },
                        None => self.lemma_front_pass(s, near, index, k + 1, cap, wrap),
                    }
                },
                None => self.lemma_front_pass(s, near, index, k + 1, cap, wrap),
            }
        }
    }

    /// The cache pass hands out at most `cap`, and the sizes gain exactly
    /// what it handed out; nothing off the growing side changes.
    pub proof fn lemma_cache_pass(&self, s: Seq<(u64, Option<u32>)>, cache: Seq<(usize, u32)>, j: int, cap: int, near: bool, index: int, wrap: u32)
        requires
            0 <= cap,
        ensures
            ({
                let (t, left) = self.cache_pass(s, cache, j, cap, near, index, wrap);
                &&& total(t) == total(s) + (cap - left)
                &&& 0 <= left <= cap
                &&& same_off_side(s, t, near, index)
            }),
        decreases j,
    {
        if !(j <= 0 || j > cache.len() || cap <= 0) {
            let ci = cache[j - 1].0 as int;
            let former = cache[j - 1].1 as int;
            if Self::on_side(near, index, s.len() as int, ci) && s[ci].1.is_some() {
                let size = s[ci].1.unwrap();
                let id = s[ci].0;
                let d = min_int(former - size, cap);
                if d > 0 {
                    self.lemma_grow_bound(id, size, d, self.min_at(s, ci, wrap), wrap);
                    match self.grow_spec(id, size, d, self.min_at(s, ci, wrap), wrap) {
                        Some(n) => {
                            lemma_total_update(s, ci, (id, Some(n)));
                            self.lemma_cache_pass(s.update(ci, (id, Some(n))), cache, j - 1, cap - (n - size), near, index, wrap);
                        },
                        None => self.lemma_cache_pass(s, cache, j - 1, cap, near, index, wrap),
                    }
                } else {
                    self.lemma_cache_pass(s, cache, j - 1, cap, near, index, wrap);
                }
            } else {
                self.lemma_cache_pass(s, cache, j - 1, cap, near, index, wrap);
            }
        }
    }

    /// The absorb pass hands out at most `rem`, and the sizes gain exactly
    /// what it handed out; nothing off its side changes.
    pub proof fn lemma_absorb_pass(&self, s: Seq<(u64, Option<u32>)>, near: bool, index: int, k: int, rem: int, wrap: u32, any: bool)
        requires
            0 <= k,
            0 <= rem,
        ensures
            ({
                let (t, left, _) = self.absorb_pass(s, near, index, k, rem, wrap, any);
                &&& total(t) == total(s) + (rem - left)
                &&& 0 <= left <= rem
                &&& same_off_side(s, t, near, index)
            }),
        decreases side_len(near, index, s.len() as int) - k,
    {
        if !(k >= side_len(near, index, s.len() as int) || side_pos(near, index, k) >= s.len() || side_pos(near, index, k) < 0 || rem <= 0) {
            let i = side_pos(near, index, k);
            let id = s[i].0;
            match s[i].1 {
                Some(size) => {
                    let c = min_int(self.room(id, size as int, wrap), rem);
                    lemma_total_update(s, i, (id, Some((size + c) as u32)));
                    self.lemma_absorb_pass(s.update(i, (id, Some((size + c) as u32))), near, index, k + 1, rem - c, wrap, true);
                },
                None => self.lemma_absorb_pass(s, near, index, k + 1, rem, wrap, any),
            }
        }
    }

    /// A dependent resize that goes through keeps the sum of the sizes.
    pub proof fn lemma_dependent_keeps_total(
        &self,
        delta: int,
        wrap: u32,
        s: Seq<(u64, Option<u32>)>,
        index: int,
        cache: Seq<(usize, u32)>,
        zc: Seq<(u64, u32)>,
        zr: Seq<u64>,
    )
        requires
            0 <= index < s.len(),
        ensures
            self.dependent_spec(delta, wrap, s, index, cache, zc, zr) matches Some((t, _, _, _)) ==> total(t) == total(s) && t.len() == s.len(),
    {
        let n = s.len() as int;
        let raw = if delta >= 0 { delta } else { -delta };
        let grow_near = delta > 0;
        let shrink_near = !grow_near;
        let msc = self.slack_sum(s, shrink_near, index, 0, wrap);
        self.lemma_slack_nonneg(s, shrink_near, index, 0, wrap);
        if delta == 0 {
        } else if msc == 0 {
            if side_len(shrink_near, index, n) > 0 {
                let i0 = side_pos(shrink_near, index, 0);
                let id0 = s[i0].0;
                if let Some(size) = s[i0].1 {
                    self.lemma_absorb_pass(s, grow_near, index, 0, size as int, wrap, false);
                    let (s1, rem, any) = self.absorb_pass(s, grow_near, index, 0, size as int, wrap, false);
                    assert(!Self::on_side(grow_near, index, n, i0));
                    assert(s1[i0] == s[i0]);
                    lemma_total_update(s1, i0, (id0, None));
                }
            }
        } else {
            let e0 = side_pos(grow_near, index, 0);
            if side_len(grow_near, index, n) > 0 && s[e0].1.is_none() && self.zero_threshold_spec(s[e0].0, 0).is_some() {
                let m0 = self.min_at(s, e0, wrap);
                let s1 = s.update(e0, (s[e0].0, Some(m0 as u32)));
                crate::cartons::lemma_min_fits(self, s[e0].0, wrap);
                lemma_total_update(s, e0, (s[e0].0, Some(m0 as u32)));
                self.lemma_slack_update(s, shrink_near, index, 0, e0, (s[e0].0, Some(m0 as u32)), wrap);
                if m0 <= msc {
                    self.lemma_shrink_pass(s1, shrink_near, index, 0, m0, wrap, cache, zc);
                }
            } else {
                let cap0 = min_int(raw, msc);
                self.lemma_cache_pass(s, cache, cache.len() as int, cap0, grow_near, index, wrap);
                let (s1, cap1) = self.cache_pass(s, cache, cache.len() as int, cap0, grow_near, index, wrap);
                self.lemma_front_pass(s1, grow_near, index, 0, cap1, wrap);
                let (s2, cap2) = self.front_pass(s1, grow_near, index, 0, cap1, wrap);
                assert forall|kk: int| 0 <= kk < side_len(shrink_near, index, n) && 0 <= side_pos(shrink_near, index, kk) < n
                    implies #[trigger] s2[side_pos(shrink_near, index, kk)] == s[side_pos(shrink_near, index, kk)] by {
                    let j = side_pos(shrink_near, index, kk);
                    assert(!Self::on_side(grow_near, index, n, j));
                    assert(s1[j] == s[j]);
                }
                self.lemma_slack_same_side(s, s2, shrink_near, index, 0, wrap);
                self.lemma_shrink_pass(s2, shrink_near, index, 0, cap0 - cap2, wrap, cache, zc);
            }
        }
    }
}

impl CartonsComplex {
    /// In dependent mode a resize step that goes through keeps the container
    /// filled: when the measured sizes do not exceed the container, and the
    /// room of the cartons that occupy space after the cascade reaches it,
    /// the sizes afterwards add up to exactly the container.
    pub proof fn lemma_resize_fills(
        &self,
        delta: int,
        wrap: u32,
        s: Seq<(u64, Option<u32>)>,
        index: int,
        cache: Seq<(usize, u32)>,
        zc: Seq<(u64, u32)>,
        zr: Seq<u64>,
    )
        requires
            !self.independent,
            0 <= index < s.len(),
            total(s) <= wrap,
            self.dependent_spec(delta, wrap, s, index, cache, zc, zr) matches Some((t, _, _, _)) ==> self.cap_sum(t, wrap) >= wrap,
        ensures
            self.resize_spec(delta, wrap, s, index, cache, zc, zr) matches Some((u, _, _, _, _)) ==> total(u) == wrap,
    {
        self.lemma_dependent_keeps_total(delta, wrap, s, index, cache, zc, zr);
        if let Some((t, _, _, _)) = self.dependent_spec(delta, wrap, s, index, cache, zc, zr) {
            self.lemma_fill_total(t, wrap);
        }
    }
}

impl CartonsComplex {
    /// What a carton grows to fits its limits, when they are consistent.
    pub proof fn lemma_grow_fits(&self, id: u64, size: u32, d: int, wrap: u32)
        requires
            wrap > 0,
            d >= 0,
            self.consistent_at(id, wrap),
        ensures
            self.grow_spec(id, size, d, self.resolved_min_spec(id, wrap), wrap) matches Some(n) ==> self.fits(id, n as int, wrap),
    {
        let x = cap_u32(size + d);
        self.lemma_max_limited(id, x, wrap);
        crate::cartons::lemma_min_fits(self, id, wrap);
    }

    /// The shrink pass keeps ids and limits.
    pub proof fn lemma_shrink_pass_bounds(&self, s: Seq<(u64, Option<u32>)>, near: bool, index: int, k: int, cap: int, wrap: u32,
        cache: Seq<(usize, u32)>, zc: Seq<(u64, u32)>)
        requires
            self.in_bounds(s, wrap),
        ensures
            self.in_bounds(self.shrink_pass(s, near, index, k, cap, wrap, cache, zc).0, wrap),
            same_ids(s, self.shrink_pass(s, near, index, k, cap, wrap, cache, zc).0),
        decreases side_len(near, index, s.len() as int) - k,
    {
        if k < 0 || k >= side_len(near, index, s.len() as int) || side_pos(near, index, k) >= s.len() || side_pos(near, index, k) < 0 || cap <= 0 {
        } else {
            let i = side_pos(near, index, k);
            let id = s[i].0;
            match s[i].1 {
                Some(size) => {
                    let m = self.min_at(s, i, wrap);
                    if size > m {
                        let a = min_int(size - m, cap);
                        let x = (id, Some((size - a) as u32));
                        assert(s[i].1.is_some());
                        self.lemma_update_in_bounds(s, i, x, wrap);
                        let s2 = s.update(i, x);
                        self.lemma_shrink_pass_bounds(s2, near, index, k + 1, cap - a, wrap,
                            with_cached(cache, i as usize, size), zc.push((id, ratio_of(size as int, wrap as int) as u32)));
                    } else {
                        self.lemma_shrink_pass_bounds(s, near, index, k + 1, cap, wrap, cache, zc);
                    }
                },
                None => self.lemma_shrink_pass_bounds(s, near, index, k + 1, cap, wrap, cache, zc),
            }
        }
    }

    /// The front pass keeps ids and limits.
    pub proof fn lemma_front_pass_bounds(&self, s: Seq<(u64, Option<u32>)>, near: bool, index: int, k: int, cap: int, wrap: u32)
        requires
            wrap > 0,
            self.in_bounds(s, wrap),
            self.limits_consistent(s, wrap),
        ensures
            self.in_bounds(self.front_pass(s, near, index, k, cap, wrap).0, wrap),
            same_ids(s, self.front_pass(s, near, index, k, cap, wrap).0),
        decreases side_len(near, index, s.len() as int) - k,
    {
        if !(k < 0 || k >= side_len(near, index, s.len() as int) || side_pos(near, index, k) >= s.len() || side_pos(near, index, k) < 0 || cap <= 0) {
            let i = side_pos(near, index, k);
            let id = s[i].0;
            match s[i].1 {
                Some(size) => {
                    assert(self.consistent_at(s[i].0, wrap));
                    self.lemma_grow_fits(id, size, cap, wrap);
                    match self.grow_spec(id, size, cap, self.min_at(s, i, wrap), wrap) {
                        Some(n) => {
                            self.lemma_update_in_bounds(s, i, (id, Some(n)), wrap);
                            let s2 = s.update(i, (id, Some(n)));
                            assert(self.limits_consistent(s2, wrap)) by {
                                assert forall|j: int| 0 <= j < s2.len() implies self.consistent_at(#[trigger] s2[j].0, wrap) by {
                                    assert(s2[j].0 == s[j].0);
                                }
                            }
                            self.lemma_front_pass_bounds(s2, near, index, k + 1, cap - (n - size), wrap);
                        },
                        None => self.lemma_front_pass_bounds(s, near, index, k + 1, cap, wrap),
                    }
                },
                None => self.lemma_front_pass_bounds(s, near, index, k + 1, cap, wrap),
            }
        }
    }

    /// The cache pass keeps ids and limits.
    pub proof fn lemma_cache_pass_bounds(&self, s: Seq<(u64, Option<u32>)>, cache: Seq<(usize, u32)>, j: int, cap: int, near: bool, index: int, wrap: u32)
        requires
            wrap > 0,
            self.in_bounds(s, wrap),
            self.limits_consistent(s, wrap),
        ensures
            self.in_bounds(self.cache_pass(s, cache, j, cap, near, index, wrap).0, wrap),
            same_ids(s, self.cache_pass(s, cache, j, cap, near, index, wrap).0),
        decreases j,
    {
        if !(j <= 0 || j > cache.len() || cap <= 0) {
            let ci = cache[j - 1].0 as int;
            let former = cache[j - 1].1 as int;
            if Self::on_side(near, index, s.len() as int, ci) && s[ci].1.is_some() {
                let size = s[ci].1.unwrap();
                let id = s[ci].0;
                let d = min_int(former - size, cap);
                if d > 0 {
                    assert(self.consistent_at(s[ci].0, wrap));
                    self.lemma_grow_fits(id, size, d, wrap);
                    match self.grow_spec(id, size, d, self.min_at(s, ci, wrap), wrap) {
                        Some(n) => {
                            self.lemma_update_in_bounds(s, ci, (id, Some(n)), wrap);
                            let s2 = s.update(ci, (id, Some(n)));
                            assert(self.limits_consistent(s2, wrap)) by {
                                assert forall|jj: int| 0 <= jj < s2.len() implies self.consistent_at(#[trigger] s2[jj].0, wrap) by {
                                    assert(s2[jj].0 == s[jj].0);
                                }
                            }
                            self.lemma_cache_pass_bounds(s2, cache, j - 1, cap - (n - size), near, index, wrap);
                        },
                        None => self.lemma_cache_pass_bounds(s, cache, j - 1, cap, near, index, wrap),
                    }
                } else {
                    self.lemma_cache_pass_bounds(s, cache, j - 1, cap, near, index, wrap);
                }
            } else {
                self.lemma_cache_pass_bounds(s, cache, j - 1, cap, near, index, wrap);
            }
        }
    }

    /// The absorb pass keeps ids and limits.
    pub proof fn lemma_absorb_pass_bounds(&self, s: Seq<(u64, Option<u32>)>, near: bool, index: int, k: int, rem: int, wrap: u32, any: bool)
        requires
            self.in_bounds(s, wrap),
        ensures
            self.in_bounds(self.absorb_pass(s, near, index, k, rem, wrap, any).0, wrap),
            same_ids(s, self.absorb_pass(s, near, index, k, rem, wrap, any).0),
        decreases side_len(near, index, s.len() as int) - k,
    {
        if !(k < 0 || k >= side_len(near, index, s.len() as int) || side_pos(near, index, k) >= s.len() || side_pos(near, index, k) < 0 || rem <= 0) {
            let i = side_pos(near, index, k);
            let id = s[i].0;
            match s[i].1 {
                Some(size) => {
                    let c = min_int(self.room(id, size as int, wrap), rem);
                    assert(s[i].1.is_some());
                    self.lemma_update_in_bounds(s, i, (id, Some((size + c) as u32)), wrap);
                    self.lemma_absorb_pass_bounds(s.update(i, (id, Some((size + c) as u32))), near, index, k + 1, rem - c, wrap, true);
                },
                None => self.lemma_absorb_pass_bounds(s, near, index, k + 1, rem, wrap, any),
            }
        }
    }

    /// A resize step keeps every sized carton within its limits, when they
    /// were within them before, no carton has its lower limit above its upper
    /// one, and the container is not empty.
    pub proof fn lemma_resize_in_bounds(
        &self,
        delta: int,
        wrap: u32,
        s: Seq<(u64, Option<u32>)>,
        index: int,
        cache: Seq<(usize, u32)>,
        zc: Seq<(u64, u32)>,
        zr: Seq<u64>,
    )
        requires
            wrap > 0,
            0 <= index < s.len(),
            self.in_bounds(s, wrap),
            self.limits_consistent(s, wrap),
        ensures
            self.resize_spec(delta, wrap, s, index, cache, zc, zr) matches Some((u, _, _, _, _)) ==> self.in_bounds(u, wrap),
    {
        let id = s[index].0;
        assert(self.consistent_at(s[index].0, wrap));
        crate::cartons::lemma_min_fits(self, id, wrap);
        if self.independent {
            if let Some(n) = self.independent_spec(delta, wrap, s, index) {
                if let Some(v) = n {
                    if delta > 0 {
                        if let Some(sz) = s[index].1 {
                            self.lemma_grow_fits(id, sz, delta, wrap);
                        }
                    } else {
                        assert(s[index].1.is_some());
                    }
                }
                self.lemma_update_in_bounds(s, index, (id, n), wrap);
            }
        } else {
            let n = s.len() as int;
            let grow_near = delta > 0;
            let shrink_near = !grow_near;
            let raw = if delta >= 0 { delta } else { -delta };
            let msc = self.slack_sum(s, shrink_near, index, 0, wrap);
            let mut t = s;
            if delta == 0 {
            } else if msc == 0 {
                if side_len(shrink_near, index, n) > 0 {
                    let i0 = side_pos(shrink_near, index, 0);
                    if let Some(size) = s[i0].1 {
                        self.lemma_absorb_pass_bounds(s, grow_near, index, 0, size as int, wrap, false);
                        let s1 = self.absorb_pass(s, grow_near, index, 0, size as int, wrap, false).0;
                        self.lemma_update_in_bounds(s1, i0, (s[i0].0, None), wrap);
                        t = s1.update(i0, (s[i0].0, None));
                    }
                }
            } else {
                let e0 = side_pos(grow_near, index, 0);
                if side_len(grow_near, index, n) > 0 && s[e0].1.is_none() && self.zero_threshold_spec(s[e0].0, 0).is_some() {
                    let m0 = self.min_at(s, e0, wrap);
                    assert(self.consistent_at(s[e0].0, wrap));
                    crate::cartons::lemma_min_fits(self, s[e0].0, wrap);
                    self.lemma_update_in_bounds(s, e0, (s[e0].0, Some(m0 as u32)), wrap);
                    let s1 = s.update(e0, (s[e0].0, Some(m0 as u32)));
                    self.lemma_shrink_pass_bounds(s1, shrink_near, index, 0, m0, wrap, cache, zc);
                    t = self.shrink_pass(s1, shrink_near, index, 0, m0, wrap, cache, zc).0;
                } else {
                    let cap0 = min_int(raw, msc);
                    self.lemma_cache_pass_bounds(s, cache, cache.len() as int, cap0, grow_near, index, wrap);
                    let (s1, cap1) = self.cache_pass(s, cache, cache.len() as int, cap0, grow_near, index, wrap);
                    assert(self.limits_consistent(s1, wrap)) by {
                        assert forall|j: int| 0 <= j < s1.len() implies self.consistent_at(#[trigger] s1[j].0, wrap) by {
                            assert(s1[j].0 == s[j].0);
                        }
                    }
                    self.lemma_front_pass_bounds(s1, grow_near, index, 0, cap1, wrap);
                    let (s2, cap2) = self.front_pass(s1, grow_near, index, 0, cap1, wrap);
                    self.lemma_shrink_pass_bounds(s2, shrink_near, index, 0, cap0 - cap2, wrap, cache, zc);
                    t = self.shrink_pass(s2, shrink_near, index, 0, cap0 - cap2, wrap, cache, zc).0;
                }
            }
            if let Some((t2, _, _, _)) = self.dependent_spec(delta, wrap, s, index, cache, zc, zr) {
                assert(t2 == t);
                self.lemma_fill_in_bounds(t, wrap);
            }
        }
    }
}

impl CartonsComplex {
    /// The funding pass keeps ids and limits.
    pub proof fn lemma_fund_pass_bounds(&self, s: Seq<(u64, Option<u32>)>, k: int, rem: int, wrap: u32)
        requires
            self.in_bounds(s, wrap),
        ensures
            self.in_bounds(self.fund_pass(s, k, rem, wrap).0, wrap),
            same_ids(s, self.fund_pass(s, k, rem, wrap).0),
            self.fund_pass(s, k, rem, wrap).1 <= rem,
            rem >= 0 ==> self.fund_pass(s, k, rem, wrap).1 >= 0,
        decreases s.len() - k,
    {
        if !(k < 0 || k >= s.len() || rem <= 0) {
            let id = s[k].0;
            match s[k].1 {
                Some(size) => {
                    let take = min_int(max_int(0, size - self.min_at(s, k, wrap)), rem);
                    if take > 0 {
                        assert(s[k].1.is_some());
                        self.lemma_update_in_bounds(s, k, (id, Some((size - take) as u32)), wrap);
                        self.lemma_fund_pass_bounds(s.update(k, (id, Some((size - take) as u32))), k + 1, rem - take, wrap);
                    } else {
                        self.lemma_fund_pass_bounds(s, k + 1, rem, wrap);
                    }
                },
                None => self.lemma_fund_pass_bounds(s, k + 1, rem, wrap),
            }
        }
    }

    /// The proportional funding pass keeps ids and limits, when it asks for
    /// no more than the slack it shares out.
    pub proof fn lemma_share_fund_pass_bounds(&self, s: Seq<(u64, Option<u32>)>, k: int, want: int, slack: int, wrap: u32)
        requires
            self.in_bounds(s, wrap),
            0 <= want <= slack,
        ensures
            self.in_bounds(self.share_fund_pass(s, k, want, slack, wrap).0, wrap),
            same_ids(s, self.share_fund_pass(s, k, want, slack, wrap).0),
        decreases s.len() - k,
    {
        if !(k < 0 || k >= s.len()) {
            let id = s[k].0;
            match s[k].1 {
                Some(size) => {
                    let sl = max_int(0, size - self.min_at(s, k, wrap));
                    let take = self.fund_share(s, k, size as int, want, slack, wrap);
                    if slack > 0 {
                        assert(sl * want / slack <= sl) by (nonlinear_arith)
                            requires 0 <= want <= slack, slack > 0, sl >= 0;
                        assert(sl * want / slack >= 0) by (nonlinear_arith)
                            requires 0 <= want, slack > 0, sl >= 0;
                    }
                    assert(s[k].1.is_some());
                    self.lemma_update_in_bounds(s, k, (id, Some((size - take) as u32)), wrap);
                    self.lemma_share_fund_pass_bounds(s.update(k, (id, Some((size - take) as u32))), k + 1, want, slack, wrap);
                },
                None => self.lemma_share_fund_pass_bounds(s, k + 1, want, slack, wrap),
            }
        }
    }

    /// A collapse or restore keeps every sized carton within its limits,
    /// when they were within them before.
    pub proof fn lemma_switch_in_bounds(&self, wrap: u32, s: Seq<(u64, Option<u32>)>, index: int, on: bool)
        requires
            0 <= index < s.len(),
            self.in_bounds(s, wrap),
        ensures
            self.switch_spec(wrap, s, index, on) matches Some((t, _))
                ==> self.in_bounds(if self.independent { t } else { self.fill_spec(t, wrap) }, wrap),
    {
        let id = s[index].0;
        if let Some((t, _)) = self.switch_spec(wrap, s, index, on) {
            if on {
                let want = self.restore_size(id, wrap);
                if self.independent {
                    self.lemma_update_in_bounds(s, index, (id, Some(want as u32)), wrap);
                } else {
                    let slack = self.slack_sum(s, false, -1, 0, wrap);
                    self.lemma_slack_nonneg(s, false, -1, 0, wrap);
                    let target = min_int(want, slack);
                    self.lemma_share_fund_pass_bounds(s, 0, target, slack, wrap);
                    let (s1, taken) = self.share_fund_pass(s, 0, target, slack, wrap);
                    self.lemma_fund_pass_bounds(s1, 0, max_int(0, target - taken), wrap);
                    let (s2, rem) = self.fund_pass(s1, 0, max_int(0, target - taken), wrap);
                    assert(s2[index].0 == id);
                    self.lemma_update_in_bounds(s2, index, (id, Some((target - rem) as u32)), wrap);
                    self.lemma_fill_in_bounds(t, wrap);
                }
            } else {
                self.lemma_update_in_bounds(s, index, (id, None), wrap);
                if !self.independent {
                    let size = s[index].1.unwrap();
                    let s0 = s.update(index, (id, None));
                    self.lemma_absorb_pass_bounds(s0, false, -1, 0, size as int, wrap, false);
                    self.lemma_fill_in_bounds(t, wrap);
                }
            }
        }
    }
}

/// A copy of a list of sizes.
fn copy_sizes(v: &Vec<(u64, Option<u32>)>) -> (r: Vec<(u64, Option<u32>)>)
    ensures
        r@ == v@,
{
    let mut r: Vec<(u64, Option<u32>)> = Vec::new();
    let mut i: usize = 0;
    while i < v.len()
        invariant
            i <= v@.len(),
            r@ == v@.take(i as int),
        decreases v@.len() - i,
    {
        r.push(v[i]);
        proof {
            assert(v@.take(i as int + 1) =~= v@.take(i as int).push(v@[i as int]));
        }
        i = i + 1;
    }
    proof {
        assert(v@.take(i as int) =~= v@);
    }
    r
}

} // verus!
