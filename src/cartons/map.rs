//! Keyed attribute map: a value for each listed panel id, and a fallback for
//! every other id.
use vstd::prelude::*;

verus! {

/// Positions of the stored values, by panel id, held in a
/// `hashbrown::HashMap<u64, usize>` that only the wrappers below touch.
#[verifier::external_body]
pub struct SlotTable {
    inner: hashbrown::HashMap<u64, usize>,
}

/// What a [`SlotTable`] holds: for each id, the position of its value.
pub uninterp spec fn slot_entries(t: SlotTable) -> Map<u64, usize>;

/// Relies on `hashbrown::HashMap::new`: the new map is empty.
#[verifier::external_body]
fn slots_new() -> (r: SlotTable)
    ensures
        forall|k: u64| !#[trigger] slot_entries(r).contains_key(k),
{
    SlotTable { inner: hashbrown::HashMap::new() }
}

/// Relies on `hashbrown::HashMap::get`: the value stored under `k`, if any.
#[verifier::external_body]
fn slots_get(t: &SlotTable, k: u64) -> (r: Option<usize>)
    ensures
        r == (if slot_entries(*t).contains_key(k) {
            Some(slot_entries(*t)[k])
        } else {
            None::<usize>
        }),
{
    t.inner.get(&k).copied()
}

/// Relies on `hashbrown::HashMap::insert`: `k` maps to `v` afterwards, every
/// other entry is kept.
#[verifier::external_body]
fn slots_insert(t: &mut SlotTable, k: u64, v: usize)
    ensures
        slot_entries(*final(t)) == slot_entries(*old(t)).insert(k, v),
{
    t.inner.insert(k, v);
}

/// Relies on `hashbrown::HashMap::remove`: `k` is absent afterwards, every
/// other entry is kept.
#[verifier::external_body]
fn slots_remove(t: &mut SlotTable, k: u64)
    ensures
        slot_entries(*final(t)) == slot_entries(*old(t)).remove(k),
{
    t.inner.remove(&k);
}

/// A value for each listed panel id, and `default` for every other id.
pub struct CartonsMap<V> {
    slots: SlotTable,
    values: Vec<V>,
    default: V,
}

impl<V> CartonsMap<V> {
    /// Every listed id points at a stored value of its own.
    pub closed spec fn wf(&self) -> bool {
        &&& forall|k: u64| #[trigger] slot_entries(self.slots).contains_key(k)
            ==> (slot_entries(self.slots)[k] as int) < self.values@.len()
        &&& forall|k1: u64, k2: u64|
            #[trigger] slot_entries(self.slots).contains_key(k1)
            && #[trigger] slot_entries(self.slots).contains_key(k2) && k1 != k2
            ==> slot_entries(self.slots)[k1] != slot_entries(self.slots)[k2]
    }

    /// The listed ids and their values.
    pub closed spec fn entries(&self) -> Map<u64, V> {
        Map::new(
            |k: u64| slot_entries(self.slots).contains_key(k),
            |k: u64| self.values@[slot_entries(self.slots)[k] as int],
        )
    }

    /// The value given for an id that is not listed.
    pub closed spec fn fallback(&self) -> V {
        self.default
    }

    /// The value that [`CartonsMap::get`] gives for `k`.
    pub open spec fn lookup(&self, k: u64) -> V {
        if self.entries().contains_key(k) {
            self.entries()[k]
        } else {
            self.fallback()
        }
    }

    /// The value given for an id that is not listed.
    pub fn default_value(&self) -> (r: &V)
        ensures
            *r == self.fallback(),
    {
        &self.default
    }

    /// Replaces the value given for an id that is not listed.
    pub fn set_default(&mut self, value: V)
        requires
            old(self).wf(),
        ensures
            final(self).wf(),
            final(self).fallback() == value,
            final(self).entries() == old(self).entries(),
    {
        self.default = value;
    }

    /// A map that holds `list`, a later pair of one id replacing an earlier one,
    /// with fallback `default`.
    pub fn new(list: Vec<(u64, V)>, default: V) -> (r: Self)
        ensures
            r.wf(),
            r.fallback() == default,
            r.entries() == pairs_to_map(list@),
    {
        let mut r = CartonsMap { slots: slots_new(), values: Vec::new(), default };
        proof {
            assert(r.entries() =~= Map::<u64, V>::empty());
        }
        let mut list = list;
        let ghost whole = list@;
        let ghost mut suffix: Seq<(u64, V)> = Seq::empty();
        // walk from the last pair back: an id already listed keeps the later value
        while list.len() > 0
            invariant
                r.wf(),
                r.fallback() == default,
                whole == list@ + suffix,
                r.entries() == pairs_to_map(suffix),
            decreases list.len(),
        {
            let x = list.pop().unwrap();
            proof {
                let s2 = seq![x].add(suffix);
                assert(s2.drop_first() =~= suffix);
                assert(whole =~= list@ + s2);
                suffix = s2;
            }
            if !r.contains(&x.0) {
                r.insert(x.0, x.1);
            }
        }
        proof {
            assert(suffix =~= whole);
        }
        r
    }

    /// The value listed for `data`, or the fallback.
    pub fn get(&self, data: &u64) -> (r: &V)
        requires
            self.wf(),
        ensures
            *r == self.lookup(*data),
    {
        match slots_get(&self.slots, *data) {
            Some(i) => &self.values[i],
            None => &self.default,
        }
    }

    /// Whether `data` is listed.
    pub fn contains(&self, data: &u64) -> (r: bool)
        ensures
            r == self.entries().contains_key(*data),
    {
        slots_get(&self.slots, *data).is_some()
    }

    /// The value listed for `data`, if it is listed.
    pub fn get_listed(&self, data: &u64) -> (r: Option<&V>)
        requires
            self.wf(),
        ensures
            r == (if self.entries().contains_key(*data) {
                Some(&self.entries()[*data])
            } else {
                None
            }),
    {
        match slots_get(&self.slots, *data) {
            Some(i) => Some(&self.values[i]),
            None => None,
        }
    }

    /// Unlists `data`: it gets the fallback from then on.
    pub fn remove(&mut self, data: &u64)
        requires
            old(self).wf(),
        ensures
            final(self).wf(),
            final(self).fallback() == old(self).fallback(),
            final(self).entries() == old(self).entries().remove(*data),
    {
        slots_remove(&mut self.slots, *data);
        proof {
            assert(self.entries() =~= old(self).entries().remove(*data));
        }
    }

    /// Lists `data` with `value`, replacing what was listed for it.
    pub fn insert(&mut self, data: u64, value: V)
        requires
            old(self).wf(),
        ensures
            final(self).wf(),
            final(self).fallback() == old(self).fallback(),
            final(self).entries() == old(self).entries().insert(data, value),
    {
        match slots_get(&self.slots, data) {
            Some(i) => {
                self.values.set(i, value);
            },
            None => {
                let i = self.values.len();
                self.values.push(value);
                slots_insert(&mut self.slots, data, i);
            },
        }
        proof {
            assert(self.entries() =~= old(self).entries().insert(data, value));
        }
    }
}

/// The map that a list of pairs describes, a later pair of one id replacing an
/// earlier one.
pub open spec fn pairs_to_map<V>(list: Seq<(u64, V)>) -> Map<u64, V>
    decreases list.len(),
{
    if list.len() == 0 {
        Map::empty()
    } else {
        let later = pairs_to_map(list.drop_first());
        if later.contains_key(list[0].0) {
            later
        } else {
            later.insert(list[0].0, list[0].1)
        }
    }
}

/// Every id of a list of pairs is in its map, with the value of one of its
/// pairs.
pub proof fn lemma_pairs_to_map_has<V>(list: Seq<(u64, V)>, j: int)
    requires
        0 <= j < list.len(),
    ensures
        pairs_to_map(list).contains_key(list[j].0),
        exists|j2: int| 0 <= j2 < list.len() && list[j2].0 == list[j].0 && #[trigger] list[j2].1 == pairs_to_map(list)[list[j].0],
    decreases list.len(),
{
    let k = list[j].0;
    let later = pairs_to_map(list.drop_first());
    if j == 0 {
        if later.contains_key(k) {
            lemma_pairs_to_map_in(list.drop_first(), k);
            let j3 = choose|j3: int| 0 <= j3 < list.drop_first().len() && list.drop_first()[j3].0 == k
                && #[trigger] list.drop_first()[j3].1 == later[k];
            assert(list[j3 + 1] == list.drop_first()[j3]);
        } else {
            assert(list[0].1 == pairs_to_map(list)[k]);
        }
    } else {
        lemma_pairs_to_map_has(list.drop_first(), j - 1);
        assert(list.drop_first()[j - 1] == list[j]);
        let j3 = choose|j3: int| 0 <= j3 < list.drop_first().len() && list.drop_first()[j3].0 == k
            && #[trigger] list.drop_first()[j3].1 == later[k];
        assert(list[j3 + 1] == list.drop_first()[j3]);
    }
}

/// A key in the map of a list of pairs has the value of one of its pairs.
pub proof fn lemma_pairs_to_map_in<V>(list: Seq<(u64, V)>, k: u64)
    requires
        pairs_to_map(list).contains_key(k),
    ensures
        exists|j2: int| 0 <= j2 < list.len() && list[j2].0 == k && #[trigger] list[j2].1 == pairs_to_map(list)[k],
    decreases list.len(),
{
    if list.len() > 0 {
        let later = pairs_to_map(list.drop_first());
        if later.contains_key(k) {
            lemma_pairs_to_map_in(list.drop_first(), k);
            let j3 = choose|j3: int| 0 <= j3 < list.drop_first().len() && list.drop_first()[j3].0 == k
                && #[trigger] list.drop_first()[j3].1 == later[k];
            assert(list[j3 + 1] == list.drop_first()[j3]);
        } else {
            assert(list[0].0 == k);
            assert(list[0].1 == pairs_to_map(list)[k]);
        }
    }
}

} // verus!
