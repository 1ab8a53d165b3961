//! Thin verified facades over the `hashbrown` hash tables that back the
//! graph store. Each facade holds the outside collection in a private field;
//! its contents are named by an uninterpreted view, and every method states
//! over that view what the `hashbrown` source shows the call does.

use vstd::prelude::*;

verus! {

/// What an [`IdSet`] holds. Named, because the set lives inside
/// `hashbrown::HashSet`, which Verus cannot look into.
pub uninterp spec fn id_set_elems(s: IdSet) -> Set<u32>;

/// A set of raw vertex ids, backed by `hashbrown::HashSet<u32>`.
#[verifier::external_body]
pub struct IdSet {
    inner: hashbrown::HashSet<u32>,
}

impl View for IdSet {
    type V = Set<u32>;

    open spec fn view(&self) -> Set<u32> {
        id_set_elems(*self)
    }
}

impl Clone for IdSet {
    /// Relies on `hashbrown::HashSet::clone`: the copy holds the same items.
    #[verifier::external_body]
    fn clone(&self) -> (r: Self)
        ensures
            id_set_elems(r) == id_set_elems(*self),
    {
        IdSet { inner: self.inner.clone() }
    }
}

impl IdSet {
    /// Relies on `hashbrown::HashSet::new`: the new set is empty.
    #[verifier::external_body]
    pub fn new() -> (r: Self)
        ensures
            id_set_elems(r) == Set::<u32>::empty(),
    {
        IdSet { inner: hashbrown::HashSet::new() }
    }

    /// Relies on `hashbrown::HashSet::with_capacity`: the new set is empty.
    #[verifier::external_body]
    pub fn with_capacity(capacity: usize) -> (r: Self)
        ensures
            id_set_elems(r) == Set::<u32>::empty(),
    {
        IdSet { inner: hashbrown::HashSet::with_capacity(capacity) }
    }

    /// Relies on `hashbrown::HashSet::insert`: adds the value, and reports
    /// whether it was newly added.
    #[verifier::external_body]
    pub fn insert(&mut self, v: u32) -> (r: bool)
        ensures
            id_set_elems(*final(self)) == id_set_elems(*old(self)).insert(v),
            r == !id_set_elems(*old(self)).contains(v),
    {
        self.inner.insert(v)
    }

    /// Relies on `hashbrown::HashSet::remove`: drops the value, and reports
    /// whether it was present.
    #[verifier::external_body]
    pub fn remove(&mut self, v: u32) -> (r: bool)
        ensures
            id_set_elems(*final(self)) == id_set_elems(*old(self)).remove(v),
            r == id_set_elems(*old(self)).contains(v),
    {
        self.inner.remove(&v)
    }

    /// Relies on `hashbrown::HashSet::contains`.
    #[verifier::external_body]
    pub fn contains(&self, v: u32) -> (r: bool)
        ensures
            r == id_set_elems(*self).contains(v),
    {
        self.inner.contains(&v)
    }

    /// Relies on `hashbrown::HashSet::len`.
    #[verifier::external_body]
    pub fn len(&self) -> (r: usize)
        ensures
            r == id_set_elems(*self).len(),
    {
        self.inner.len()
    }

    /// Relies on `hashbrown::HashSet::iter`: yields each item exactly once,
    /// in no promised order.
    #[verifier::external_body]
    pub fn to_vec(&self) -> (r: Vec<u32>)
        ensures
            r@.no_duplicates(),
            r@.to_set() == id_set_elems(*self),
    {
        self.inner.iter().copied().collect()
    }

    /// Relies on `hashbrown::HashSet::reserve`: contents are unchanged.
    #[verifier::external_body]
    pub fn reserve(&mut self, additional: usize)
        ensures
            id_set_elems(*final(self)) == id_set_elems(*old(self)),
    {
        self.inner.reserve(additional)
    }

    /// Relies on `hashbrown::HashSet::shrink_to_fit`: contents are unchanged.
    #[verifier::external_body]
    pub fn shrink_to_fit(&mut self)
        ensures
            id_set_elems(*final(self)) == id_set_elems(*old(self)),
    {
        self.inner.shrink_to_fit()
    }

    /// Relies on `hashbrown::HashSet::capacity`. Nothing is promised of the
    /// value: what was allocated is the allocator's business.
    #[verifier::external_body]
    pub fn capacity(&self) -> usize {
        self.inner.capacity()
    }
}

} // verus!

verus! {

/// What an [`IdMap`] holds: raw vertex ids mapped to unsigned counters
/// (indices, remaining degrees, distances).
pub uninterp spec fn id_map_entries(m: IdMap) -> Map<u32, u64>;

/// A map from raw vertex ids to `u64` values, backed by
/// `hashbrown::HashMap<u32, u64>`.
#[verifier::external_body]
pub struct IdMap {
    inner: hashbrown::HashMap<u32, u64>,
}

impl View for IdMap {
    type V = Map<u32, u64>;

    open spec fn view(&self) -> Map<u32, u64> {
        id_map_entries(*self)
    }
}

impl Clone for IdMap {
    /// Relies on `hashbrown::HashMap::clone`: the copy holds the same entries.
    #[verifier::external_body]
    fn clone(&self) -> (r: Self)
        ensures
            id_map_entries(r) == id_map_entries(*self),
    {
        IdMap { inner: self.inner.clone() }
    }
}

impl IdMap {
    /// The view of a IdMap with nothing in it.
    pub open spec fn empty_view() -> Map<u32, u64> {
        Map::empty()
    }

    /// Relies on `hashbrown::HashMap::new`: the new map is empty.
    #[verifier::external_body]
    pub fn new() -> (r: Self)
        ensures
            id_map_entries(r) == IdMap::empty_view(),
    {
        IdMap { inner: hashbrown::HashMap::new() }
    }

    /// Relies on `hashbrown::HashMap::with_capacity`: the new map is empty.
    #[verifier::external_body]
    pub fn with_capacity(capacity: usize) -> (r: Self)
        ensures
            id_map_entries(r) == IdMap::empty_view(),
    {
        IdMap { inner: hashbrown::HashMap::with_capacity(capacity) }
    }

    /// Relies on `hashbrown::HashMap::insert`: sets the key's value and
    /// returns the value it replaced.
    #[verifier::external_body]
    pub fn insert(&mut self, k: u32, v: u64) -> (r: Option<u64>)
        ensures
            id_map_entries(*final(self)) == id_map_entries(*old(self)).insert(k, v),
            r == (if id_map_entries(*old(self)).dom().contains(k) {
                Some(id_map_entries(*old(self))[k])
            } else {
                None::<u64>
            }),
    {
        self.inner.insert(k, v)
    }

    /// Relies on `hashbrown::HashMap::get`.
    #[verifier::external_body]
    pub fn get(&self, k: u32) -> (r: Option<u64>)
        ensures
            r == (if id_map_entries(*self).dom().contains(k) {
                Some(id_map_entries(*self)[k])
            } else {
                None::<u64>
            }),
    {
        self.inner.get(&k).copied()
    }

    /// Relies on `hashbrown::HashMap::remove`: drops the key and returns the
    /// value it had.
    #[verifier::external_body]
    pub fn remove(&mut self, k: u32) -> (r: Option<u64>)
        ensures
            id_map_entries(*final(self)) == id_map_entries(*old(self)).remove(k),
            r == (if id_map_entries(*old(self)).dom().contains(k) {
                Some(id_map_entries(*old(self))[k])
            } else {
                None::<u64>
            }),
    {
        self.inner.remove(&k)
    }

    /// Relies on `hashbrown::HashMap::contains_key`.
    #[verifier::external_body]
    pub fn contains_key(&self, k: u32) -> (r: bool)
        ensures
            r == id_map_entries(*self).dom().contains(k),
    {
        self.inner.contains_key(&k)
    }

    /// Relies on `hashbrown::HashMap::clear`: the map is empty afterwards.
    #[verifier::external_body]
    pub fn clear(&mut self)
        ensures
            id_map_entries(*final(self)) == IdMap::empty_view(),
    {
        self.inner.clear()
    }

    /// Relies on `hashbrown::HashMap::reserve`: contents are unchanged.
    #[verifier::external_body]
    pub fn reserve(&mut self, additional: usize)
        ensures
            id_map_entries(*final(self)) == id_map_entries(*old(self)),
    {
        self.inner.reserve(additional)
    }

    /// Relies on `hashbrown::HashMap::shrink_to_fit`: contents are unchanged.
    #[verifier::external_body]
    pub fn shrink_to_fit(&mut self)
        ensures
            id_map_entries(*final(self)) == id_map_entries(*old(self)),
    {
        self.inner.shrink_to_fit()
    }

    /// Relies on `hashbrown::HashMap::capacity`. Nothing is promised of the
    /// value: what was allocated is the allocator's business.
    #[verifier::external_body]
    pub fn capacity(&self) -> usize {
        self.inner.capacity()
    }
}

} // verus!

verus! {

/// What an [`AdjMap`] holds: each vertex's neighbor list.
pub uninterp spec fn adj_map_entries(m: AdjMap) -> Map<u32, Seq<u32>>;

/// A map from raw vertex ids to neighbor lists, backed by
/// `hashbrown::HashMap<u32, Vec<u32>>`.
#[verifier::external_body]
pub struct AdjMap {
    inner: hashbrown::HashMap<u32, Vec<u32>>,
}

impl View for AdjMap {
    type V = Map<u32, Seq<u32>>;

    open spec fn view(&self) -> Map<u32, Seq<u32>> {
        adj_map_entries(*self)
    }
}

impl Clone for AdjMap {
    /// Relies on `hashbrown::HashMap::clone`: the copy holds the same entries.
    #[verifier::external_body]
    fn clone(&self) -> (r: Self)
        ensures
            adj_map_entries(r) == adj_map_entries(*self),
    {
        AdjMap { inner: self.inner.clone() }
    }
}

impl AdjMap {
    /// The view of a AdjMap with nothing in it.
    pub open spec fn empty_view() -> Map<u32, Seq<u32>> {
        Map::empty()
    }

    /// Relies on `hashbrown::HashMap::new`: the new map is empty.
    #[verifier::external_body]
    pub fn new() -> (r: Self)
        ensures
            adj_map_entries(r) == AdjMap::empty_view(),
    {
        AdjMap { inner: hashbrown::HashMap::new() }
    }

    /// Relies on `hashbrown::HashMap::with_capacity`: the new map is empty.
    #[verifier::external_body]
    pub fn with_capacity(capacity: usize) -> (r: Self)
        ensures
            adj_map_entries(r) == AdjMap::empty_view(),
    {
        AdjMap { inner: hashbrown::HashMap::with_capacity(capacity) }
    }

    /// Relies on `hashbrown::HashMap::get`; the list is handed out as a copy.
    #[verifier::external_body]
    pub fn get(&self, k: u32) -> (r: Option<Vec<u32>>)
        ensures
            match r {
                Some(v) => adj_map_entries(*self).dom().contains(k)
                    && v@ == adj_map_entries(*self)[k],
                None => !adj_map_entries(*self).dom().contains(k),
            },
    {
        self.inner.get(&k).cloned()
    }

    /// Relies on `hashbrown::HashMap::insert`: sets the key's list.
    #[verifier::external_body]
    pub fn insert(&mut self, k: u32, v: Vec<u32>)
        ensures
            adj_map_entries(*final(self)) == adj_map_entries(*old(self)).insert(k, v@),
    {
        self.inner.insert(k, v);
    }

    /// Relies on `hashbrown::HashMap::remove`: drops the key and returns the
    /// list it had.
    #[verifier::external_body]
    pub fn remove(&mut self, k: u32) -> (r: Option<Vec<u32>>)
        ensures
            adj_map_entries(*final(self)) == adj_map_entries(*old(self)).remove(k),
            match r {
                Some(v) => adj_map_entries(*old(self)).dom().contains(k)
                    && v@ == adj_map_entries(*old(self))[k],
                None => !adj_map_entries(*old(self)).dom().contains(k),
            },
    {
        self.inner.remove(&k)
    }

    /// Relies on `hashbrown::HashMap::contains_key`.
    #[verifier::external_body]
    pub fn contains_key(&self, k: u32) -> (r: bool)
        ensures
            r == adj_map_entries(*self).dom().contains(k),
    {
        self.inner.contains_key(&k)
    }

    /// Relies on `hashbrown::HashMap::reserve`: contents are unchanged.
    #[verifier::external_body]
    pub fn reserve(&mut self, additional: usize)
        ensures
            adj_map_entries(*final(self)) == adj_map_entries(*old(self)),
    {
        self.inner.reserve(additional)
    }

    /// Relies on `hashbrown::HashMap::shrink_to_fit`: contents are unchanged.
    #[verifier::external_body]
    pub fn shrink_to_fit(&mut self)
        ensures
            adj_map_entries(*final(self)) == adj_map_entries(*old(self)),
    {
        self.inner.shrink_to_fit()
    }

    /// Relies on `hashbrown::HashMap::capacity`. Nothing is promised of the
    /// value: what was allocated is the allocator's business.
    #[verifier::external_body]
    pub fn capacity(&self) -> usize {
        self.inner.capacity()
    }
}

} // verus!

verus! {

/// What a [`WeightMap`] holds: each edge, as its (outbound, inbound) pair of
/// raw vertex ids, mapped to its weight.
pub uninterp spec fn weight_map_entries(m: WeightMap) -> Map<(u32, u32), i64>;

/// A map from edges to weights, backed by
/// `hashbrown::HashMap<(u32, u32), i64>`.
#[verifier::external_body]
pub struct WeightMap {
    inner: hashbrown::HashMap<(u32, u32), i64>,
}

impl View for WeightMap {
    type V = Map<(u32, u32), i64>;

    open spec fn view(&self) -> Map<(u32, u32), i64> {
        weight_map_entries(*self)
    }
}

impl Clone for WeightMap {
    /// Relies on `hashbrown::HashMap::clone`: the copy holds the same entries.
    #[verifier::external_body]
    fn clone(&self) -> (r: Self)
        ensures
            weight_map_entries(r) == weight_map_entries(*self),
    {
        WeightMap { inner: self.inner.clone() }
    }
}

impl WeightMap {
    /// The view of a WeightMap with nothing in it.
    pub open spec fn empty_view() -> Map<(u32, u32), i64> {
        Map::empty()
    }

    /// Relies on `hashbrown::HashMap::new`: the new map is empty.
    #[verifier::external_body]
    pub fn new() -> (r: Self)
        ensures
            weight_map_entries(r) == WeightMap::empty_view(),
    {
        WeightMap { inner: hashbrown::HashMap::new() }
    }

    /// Relies on `hashbrown::HashMap::with_capacity`: the new map is empty.
    #[verifier::external_body]
    pub fn with_capacity(capacity: usize) -> (r: Self)
        ensures
            weight_map_entries(r) == WeightMap::empty_view(),
    {
        WeightMap { inner: hashbrown::HashMap::with_capacity(capacity) }
    }

    /// Relies on `hashbrown::HashMap::insert`: sets the edge's weight.
    #[verifier::external_body]
    pub fn insert(&mut self, a: u32, b: u32, w: i64)
        ensures
            weight_map_entries(*final(self)) == weight_map_entries(*old(self)).insert((a, b), w),
    {
        self.inner.insert((a, b), w);
    }

    /// Relies on `hashbrown::HashMap::get`.
    #[verifier::external_body]
    pub fn get(&self, a: u32, b: u32) -> (r: Option<i64>)
        ensures
            r == (if weight_map_entries(*self).dom().contains((a, b)) {
                Some(weight_map_entries(*self)[(a, b)])
            } else {
                None::<i64>
            }),
    {
        self.inner.get(&(a, b)).copied()
    }

    /// Relies on `hashbrown::HashMap::remove`: drops the edge and returns the
    /// weight it had.
    #[verifier::external_body]
    pub fn remove(&mut self, a: u32, b: u32) -> (r: Option<i64>)
        ensures
            weight_map_entries(*final(self)) == weight_map_entries(*old(self)).remove((a, b)),
            r == (if weight_map_entries(*old(self)).dom().contains((a, b)) {
                Some(weight_map_entries(*old(self))[(a, b)])
            } else {
                None::<i64>
            }),
    {
        self.inner.remove(&(a, b))
    }

    /// Relies on `hashbrown::HashMap::contains_key`.
    #[verifier::external_body]
    pub fn contains_key(&self, a: u32, b: u32) -> (r: bool)
        ensures
            r == weight_map_entries(*self).dom().contains((a, b)),
    {
        self.inner.contains_key(&(a, b))
    }

    /// Relies on `hashbrown::HashMap::len`.
    #[verifier::external_body]
    pub fn len(&self) -> (r: usize)
        ensures
            r == weight_map_entries(*self).len(),
    {
        self.inner.len()
    }

    /// Relies on `hashbrown::HashMap::iter`: yields each entry exactly once,
    /// in no promised order.
    #[verifier::external_body]
    pub fn pairs(&self) -> (r: Vec<((u32, u32), i64)>)
        ensures
            r@.map_values(|p: ((u32, u32), i64)| p.0).no_duplicates(),
            forall|i: int|
                0 <= i < r@.len() ==> weight_map_entries(*self).contains_pair(
                    (#[trigger] r@[i]).0,
                    r@[i].1,
                ),
            forall|k: (u32, u32)|
                weight_map_entries(*self).dom().contains(k) ==> exists|i: int|
                    0 <= i < r@.len() && (#[trigger] r@[i]).0 == k,
            r@.len() == weight_map_entries(*self).len(),
    {
        self.inner.iter().map(|(k, v)| (*k, *v)).collect()
    }

    /// Relies on `hashbrown::HashMap::reserve`: contents are unchanged.
    #[verifier::external_body]
    pub fn reserve(&mut self, additional: usize)
        ensures
            weight_map_entries(*final(self)) == weight_map_entries(*old(self)),
    {
        self.inner.reserve(additional)
    }

    /// Relies on `hashbrown::HashMap::shrink_to_fit`: contents are unchanged.
    #[verifier::external_body]
    pub fn shrink_to_fit(&mut self)
        ensures
            weight_map_entries(*final(self)) == weight_map_entries(*old(self)),
    {
        self.inner.shrink_to_fit()
    }

    /// Relies on `hashbrown::HashMap::capacity`. Nothing is promised of the
    /// value: what was allocated is the allocator's business.
    #[verifier::external_body]
    pub fn capacity(&self) -> usize {
        self.inner.capacity()
    }
}

} // verus!

verus! {

/// What a [`LabelMap`] holds: display labels keyed by raw vertex id.
pub uninterp spec fn label_map_entries(m: LabelMap) -> Map<u32, Seq<char>>;

/// A map from raw vertex ids to display labels, backed by
/// `hashbrown::HashMap<u32, String>`.
#[verifier::external_body]
pub struct LabelMap {
    inner: hashbrown::HashMap<u32, String>,
}

impl View for LabelMap {
    type V = Map<u32, Seq<char>>;

    open spec fn view(&self) -> Map<u32, Seq<char>> {
        label_map_entries(*self)
    }
}

impl Clone for LabelMap {
    /// Relies on `hashbrown::HashMap::clone`: the copy holds the same entries.
    #[verifier::external_body]
    fn clone(&self) -> (r: Self)
        ensures
            label_map_entries(r) == label_map_entries(*self),
    {
        LabelMap { inner: self.inner.clone() }
    }
}

impl LabelMap {
    /// The view of a LabelMap with nothing in it.
    pub open spec fn empty_view() -> Map<u32, Seq<char>> {
        Map::empty()
    }

    /// Relies on `hashbrown::HashMap::new`: the new map is empty.
    #[verifier::external_body]
    pub fn new() -> (r: Self)
        ensures
            label_map_entries(r) == LabelMap::empty_view(),
    {
        LabelMap { inner: hashbrown::HashMap::new() }
    }

    /// Relies on `hashbrown::HashMap::with_capacity`: the new map is empty.
    #[verifier::external_body]
    pub fn with_capacity(capacity: usize) -> (r: Self)
        ensures
            label_map_entries(r) == LabelMap::empty_view(),
    {
        LabelMap { inner: hashbrown::HashMap::with_capacity(capacity) }
    }

    /// Relies on `hashbrown::HashMap::insert`: sets the key's label and
    /// returns the label it replaced.
    #[verifier::external_body]
    pub fn insert(&mut self, k: u32, v: String) -> (r: Option<String>)
        ensures
            label_map_entries(*final(self)) == label_map_entries(*old(self)).insert(k, v@),
            match r {
                Some(s) => label_map_entries(*old(self)).dom().contains(k)
                    && s@ == label_map_entries(*old(self))[k],
                None => !label_map_entries(*old(self)).dom().contains(k),
            },
    {
        self.inner.insert(k, v)
    }

    /// Relies on `hashbrown::HashMap::get`; the label is handed out as a copy.
    #[verifier::external_body]
    pub fn get(&self, k: u32) -> (r: Option<String>)
        ensures
            match r {
                Some(s) => label_map_entries(*self).dom().contains(k)
                    && s@ == label_map_entries(*self)[k],
                None => !label_map_entries(*self).dom().contains(k),
            },
    {
        self.inner.get(&k).cloned()
    }

    /// Relies on `hashbrown::HashMap::iter`: yields each entry exactly once,
    /// in no promised order.
    #[verifier::external_body]
    pub fn pairs(&self) -> (r: Vec<(u32, String)>)
        ensures
            r@.map_values(|p: (u32, String)| p.0).no_duplicates(),
            forall|i: int|
                0 <= i < r@.len() ==> label_map_entries(*self).contains_pair(
                    (#[trigger] r@[i]).0,
                    r@[i].1@,
                ),
            forall|k: u32|
                label_map_entries(*self).dom().contains(k) ==> exists|i: int|
                    0 <= i < r@.len() && (#[trigger] r@[i]).0 == k,
            r@.len() == label_map_entries(*self).len(),
    {
        self.inner.iter().map(|(k, v)| (*k, v.clone())).collect()
    }

    /// Relies on `hashbrown::HashMap::reserve`: contents are unchanged.
    #[verifier::external_body]
    pub fn reserve(&mut self, additional: usize)
        ensures
            label_map_entries(*final(self)) == label_map_entries(*old(self)),
    {
        self.inner.reserve(additional)
    }

    /// Relies on `hashbrown::HashMap::shrink_to_fit`: contents are unchanged.
    #[verifier::external_body]
    pub fn shrink_to_fit(&mut self)
        ensures
            label_map_entries(*final(self)) == label_map_entries(*old(self)),
    {
        self.inner.shrink_to_fit()
    }

    /// Relies on `hashbrown::HashMap::capacity`. Nothing is promised of the
    /// value: what was allocated is the allocator's business.
    #[verifier::external_body]
    pub fn capacity(&self) -> usize {
        self.inner.capacity()
    }
}

} // verus!

verus! {

/// What a [`PrevMap`] holds: for each settled vertex, the vertex it was
/// reached from, or `None` for the search source.
pub uninterp spec fn prev_map_entries(m: PrevMap) -> Map<u32, Option<u32>>;

/// A predecessor table, backed by `hashbrown::HashMap<u32, Option<u32>>`.
#[verifier::external_body]
pub struct PrevMap {
    inner: hashbrown::HashMap<u32, Option<u32>>,
}

impl View for PrevMap {
    type V = Map<u32, Option<u32>>;

    open spec fn view(&self) -> Map<u32, Option<u32>> {
        prev_map_entries(*self)
    }
}

impl Clone for PrevMap {
    /// Relies on `hashbrown::HashMap::clone`: the copy holds the same entries.
    #[verifier::external_body]
    fn clone(&self) -> (r: Self)
        ensures
            prev_map_entries(r) == prev_map_entries(*self),
    {
        PrevMap { inner: self.inner.clone() }
    }
}

impl PrevMap {
    /// The view of a PrevMap with nothing in it.
    pub open spec fn empty_view() -> Map<u32, Option<u32>> {
        Map::empty()
    }

    /// Relies on `hashbrown::HashMap::with_capacity`: the new map is empty.
    #[verifier::external_body]
    pub fn with_capacity(capacity: usize) -> (r: Self)
        ensures
            prev_map_entries(r) == PrevMap::empty_view(),
    {
        PrevMap { inner: hashbrown::HashMap::with_capacity(capacity) }
    }

    /// Relies on `hashbrown::HashMap::insert`: sets the key's predecessor.
    #[verifier::external_body]
    pub fn insert(&mut self, k: u32, v: Option<u32>)
        ensures
            prev_map_entries(*final(self)) == prev_map_entries(*old(self)).insert(k, v),
    {
        self.inner.insert(k, v);
    }

    /// Relies on `hashbrown::HashMap::get`.
    #[verifier::external_body]
    pub fn get(&self, k: u32) -> (r: Option<Option<u32>>)
        ensures
            r == (if prev_map_entries(*self).dom().contains(k) {
                Some(prev_map_entries(*self)[k])
            } else {
                None::<Option<u32>>
            }),
    {
        self.inner.get(&k).copied()
    }

    /// Relies on `hashbrown::HashMap::contains_key`.
    #[verifier::external_body]
    pub fn contains_key(&self, k: u32) -> (r: bool)
        ensures
            r == prev_map_entries(*self).dom().contains(k),
    {
        self.inner.contains_key(&k)
    }

    /// Relies on `hashbrown::HashMap::clear`: the map is empty afterwards.
    #[verifier::external_body]
    pub fn clear(&mut self)
        ensures
            prev_map_entries(*final(self)) == PrevMap::empty_view(),
    {
        self.inner.clear()
    }
}

} // verus!
