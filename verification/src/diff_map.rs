use std::collections::HashMap;
use vstd::prelude::*;
use vstd::std_specs::iter::IteratorSpec;

verus! {

/// The state of an overlay map, as contracts see it.
///
/// `base` is the map that snapshots read. `overlay` holds what was written
/// while a snapshot was outstanding: `Some(v)` for a value, `None` for a
/// deletion. `cleared` says that `base` counts as empty. `borrows` is the
/// number of snapshots outstanding.
pub struct OverlayState<V> {
    pub base: Map<i64, V>,
    pub overlay: Map<i64, Option<V>>,
    pub cleared: bool,
    pub borrows: nat,
}

impl<V> OverlayState<V> {
    /// With no snapshot outstanding nothing is pending: the overlay is empty
    /// and the base is not marked as cleared.
    pub open spec fn wf(self) -> bool {
        self.borrows == 0 ==> self.overlay == Map::<i64, Option<V>>::empty() && !self.cleared
    }

    /// Whether a read finds `key`: the overlay decides where it mentions the
    /// key, otherwise the base does unless it counts as empty.
    pub open spec fn has(self, key: i64) -> bool {
        if self.overlay.contains_key(key) {
            self.overlay[key] is Some
        } else {
            !self.cleared && self.base.contains_key(key)
        }
    }

    /// What a read of a key that is found returns.
    pub open spec fn value(self, key: i64) -> V {
        if self.overlay.contains_key(key) {
            self.overlay[key].unwrap()
        } else {
            self.base[key]
        }
    }

    /// The map that readers see.
    pub open spec fn view(self) -> Map<i64, V> {
        Map::new(|k: i64| self.has(k), |k: i64| self.value(k))
    }

    /// The state after a write of `val` under `key`.
    pub open spec fn put(self, key: i64, val: V) -> Self {
        if self.borrows == 0 {
            OverlayState { base: self.base.insert(key, val), ..self }
        } else {
            OverlayState { overlay: self.overlay.insert(key, Some(val)), ..self }
        }
    }

    /// The state after a deletion of `key`.
    pub open spec fn cut(self, key: i64) -> Self {
        if self.borrows == 0 {
            OverlayState { base: self.base.remove(key), ..self }
        } else {
            OverlayState { overlay: self.overlay.insert(key, None), ..self }
        }
    }

    /// The state after everything was removed.
    pub open spec fn wiped(self) -> Self {
        if self.borrows == 0 {
            OverlayState { base: Map::empty(), ..self }
        } else {
            OverlayState { overlay: Map::empty(), cleared: true, ..self }
        }
    }

    /// The state after one more snapshot was taken.
    pub open spec fn lent(self) -> Self {
        OverlayState { borrows: self.borrows + 1, ..self }
    }

    /// The state after one snapshot was given back. When it was the last
    /// one, what was pending is folded into the base.
    pub open spec fn settled(self) -> Self {
        if self.borrows == 0 {
            self
        } else if self.borrows == 1 {
            OverlayState { base: self.view(), overlay: Map::empty(), cleared: false, borrows: 0 }
        } else {
            OverlayState { borrows: (self.borrows - 1) as nat, ..self }
        }
    }

    /// A write shows to readers as an insertion, whether or not a snapshot is
    /// outstanding.
    pub proof fn law_put(self, key: i64, val: V)
        requires
            self.wf(),
        ensures
            self.put(key, val).wf(),
            self.put(key, val).view() == self.view().insert(key, val),
    {
        assert(self.put(key, val).view() =~= self.view().insert(key, val));
    }

    /// A deletion shows to readers as a removal, whether or not a snapshot is
    /// outstanding.
    pub proof fn law_cut(self, key: i64)
        requires
            self.wf(),
        ensures
            self.cut(key).wf(),
            self.cut(key).view() == self.view().remove(key),
    {
        assert(self.cut(key).view() =~= self.view().remove(key));
    }

    /// After a clear readers see nothing, whether or not a snapshot is
    /// outstanding.
    pub proof fn law_wiped(self)
        requires
            self.wf(),
        ensures
            self.wiped().wf(),
            self.wiped().view() == Map::<i64, V>::empty(),
    {
        assert(self.wiped().view() =~= Map::<i64, V>::empty());
    }

    /// Taking a snapshot changes nothing for readers; and a snapshot taken
    /// while none is outstanding reads exactly what readers see at that moment.
    pub proof fn law_lent(self)
        requires
            self.wf(),
        ensures
            self.lent().wf(),
            self.lent().view() == self.view(),
            self.lent().base == self.base,
            self.borrows == 0 ==> self.lent().base == self.view(),
    {
        assert(self.lent().view() =~= self.view());
        if self.borrows == 0 {
            assert(self.base =~= self.view());
        }
    }

    /// Snapshot isolation: while a snapshot is outstanding, no write, deletion
    /// or clear touches what the snapshot reads, nor does taking a further
    /// snapshot or giving back one that is not the last.
    pub proof fn law_isolation(self, key: i64, val: V)
        requires
            self.borrows > 0,
        ensures
            self.put(key, val).base == self.base,
            self.cut(key).base == self.base,
            self.wiped().base == self.base,
            self.lent().base == self.base,
            self.borrows > 1 ==> self.settled().base == self.base,
            self.put(key, val).borrows == self.borrows,
            self.cut(key).borrows == self.borrows,
            self.wiped().borrows == self.borrows,
    {
    }

    /// Giving a snapshot back changes nothing for readers. After the last
    /// one is given back, the base is what readers see.
    pub proof fn law_settled(self)
        requires
            self.wf(),
        ensures
            self.settled().wf(),
            self.settled().view() == self.view(),
            self.borrows == 1 ==> self.settled().base == self.view(),
    {
        assert(self.settled().view() =~= self.view());
    }
}

/// Calls `HashMap::shrink_to_fit`, which lowers the capacity of the map. The
/// contract claims that the map holds the same keys and values afterwards.
#[verifier::external_body]
fn shrink_hash_map<V>(m: &mut HashMap<i64, V>)
    ensures
        final(m)@ == old(m)@,
{
    m.shrink_to_fit()
}

/// A receipt for one snapshot taken of a [`DiffMap`]. Giving it back with
/// [`DiffMap::release`] ends the snapshot.
pub struct SnapshotBorrow {
    ticket: usize,
}

impl SnapshotBorrow {
    /// How many snapshots were outstanding, this one included, when this one
    /// was taken.
    pub closed spec fn spec_ticket(&self) -> nat {
        self.ticket as nat
    }

    /// How many snapshots were outstanding, this one included, when this one
    /// was taken.
    pub fn ticket(&self) -> (t: usize)
        ensures
            t == self.spec_ticket(),
    {
        self.ticket
    }
}

/// A map from keys to values that can be read as a frozen snapshot while
/// writers go on.
///
/// While no snapshot is outstanding, writes go to the base map. While at
/// least one is, writes go to an overlay, and the base map stays as the
/// snapshot found it. When the last snapshot is given back the overlay is
/// folded into the base.
pub struct DiffMap<V> {
    num_borrows: usize,
    cleared: bool,
    diff: HashMap<i64, Option<V>>,
    map: HashMap<i64, V>,
}

impl<V> View for DiffMap<V> {
    type V = Map<i64, V>;

    /// The map that readers see.
    open spec fn view(&self) -> Map<i64, V> {
        self.state().view()
    }
}

impl<V> DiffMap<V> {
    /// The state of the map, as contracts see it.
    pub closed spec fn state(&self) -> OverlayState<V> {
        OverlayState {
            base: self.map@,
            overlay: self.diff@,
            cleared: self.cleared,
            borrows: self.num_borrows as nat,
        }
    }

    /// The invariant of the map: that of its state.
    pub open spec fn wf(&self) -> bool {
        self.state().wf()
    }

    /// The keys of a hash map, each once, in the order in which the map
    /// hands them out.
    fn keys_of<W>(m: &HashMap<i64, W>) -> (out: Vec<i64>)
        ensures
            out@.no_duplicates(),
            out@.to_set() == m@.dom(),
            out@.len() == m@.dom().len(),
    {
        broadcast use vstd::std_specs::hash::group_hash_axioms;

        let mut out: Vec<i64> = Vec::new();
        for k in it: m.keys()
            invariant
                out@.len() == it.index(),
                forall|i: int| 0 <= i < out@.len() ==> out@[i] == *it.seq()[i],
        {
            out.push(*k);
        }
        proof {
            let s = m.keys().remaining();
            assert(out@ =~= s.unref());
            assert forall|i: int, j: int|
                0 <= i < out@.len() && 0 <= j < out@.len() && i != j implies out@[i] != out@[j] by {
                assert(s[i] != s[j]);
            }
        }
        out
    }
}

impl<V: Copy> DiffMap<V> {
    /// An empty map with no snapshot outstanding.
    pub fn new() -> (m: Self)
        ensures
            m.wf(),
            m@ == Map::<i64, V>::empty(),
            m.state() == (OverlayState {
                base: Map::<i64, V>::empty(),
                overlay: Map::<i64, Option<V>>::empty(),
                cleared: false,
                borrows: 0,
            }),
    {
        let m = DiffMap { num_borrows: 0, cleared: false, diff: HashMap::new(), map: HashMap::new() };
        assert(m.state().view() =~= Map::<i64, V>::empty());
        m
    }

    /// A map with the contents of `map` and no snapshot outstanding.
    pub fn from_map(map: HashMap<i64, V>) -> (m: Self)
        ensures
            m.wf(),
            m@ == map@,
            m.state() == (OverlayState {
                base: map@,
                overlay: Map::<i64, Option<V>>::empty(),
                cleared: false,
                borrows: 0,
            }),
    {
        let m = DiffMap { num_borrows: 0, cleared: false, diff: HashMap::new(), map };
        assert(m.state().view() =~= map@);
        m
    }

    /// An empty map with room for `capacity` entries.
    pub fn with_capacity(capacity: usize) -> (m: Self)
        ensures
            m.wf(),
            m@ == Map::<i64, V>::empty(),
            m.state() == (OverlayState {
                base: Map::<i64, V>::empty(),
                overlay: Map::<i64, Option<V>>::empty(),
                cleared: false,
                borrows: 0,
            }),
    {
        let m = DiffMap {
            num_borrows: 0,
            cleared: false,
            diff: HashMap::new(),
            map: HashMap::with_capacity(capacity),
        };
        assert(m.state().view() =~= Map::<i64, V>::empty());
        m
    }

    /// Gives spare room of the base map back, unless a snapshot is
    /// outstanding. The contents stay as they are.
    pub fn shrink_to_fit(&mut self)
        ensures
            final(self).state() == old(self).state(),
    {
        if self.num_borrows == 0 {
            shrink_hash_map(&mut self.map);
        }
    }

    /// The value under `key`, if readers see one.
    pub fn get(&self, key: &i64) -> (found: Option<V>)
        ensures
            found == (if self@.contains_key(*key) {
                Some(self@[*key])
            } else {
                None
            }),
    {
        broadcast use vstd::std_specs::hash::group_hash_axioms;

        match self.diff.get(key) {
            Some(slot) => *slot,
            None => {
                if self.cleared {
                    None
                } else {
                    match self.map.get(key) {
                        Some(v) => Some(*v),
                        None => None,
                    }
                }
            },
        }
    }

    /// Whether readers see a value under `key`.
    pub fn contains_key(&self, key: &i64) -> (found: bool)
        ensures
            found == self@.contains_key(*key),
    {
        self.get(key).is_some()
    }

    /// Writes `val` under `key` and returns the value that readers saw there
    /// before. While a snapshot is outstanding the write goes to the overlay.
    pub fn insert(&mut self, key: i64, val: V) -> (previous: Option<V>)
        requires
            old(self).wf(),
        ensures
            final(self).wf(),
            final(self).state() == old(self).state().put(key, val),
            final(self)@ == old(self)@.insert(key, val),
            previous == (if old(self)@.contains_key(key) {
                Some(old(self)@[key])
            } else {
                None
            }),
    {
        broadcast use vstd::std_specs::hash::group_hash_axioms;

        proof {
            self.state().law_put(key, val);
        }
        let previous = self.get(&key);
        if self.num_borrows == 0 {
            self.map.insert(key, val);
        } else {
            self.diff.insert(key, Some(val));
        }
        previous
    }

    /// Deletes `key` and returns the value that readers saw there before.
    /// While a snapshot is outstanding the overlay records the deletion.
    pub fn remove(&mut self, key: &i64) -> (previous: Option<V>)
        requires
            old(self).wf(),
        ensures
            final(self).wf(),
            final(self).state() == old(self).state().cut(*key),
            final(self)@ == old(self)@.remove(*key),
            previous == (if old(self)@.contains_key(*key) {
                Some(old(self)@[*key])
            } else {
                None
            }),
    {
        broadcast use vstd::std_specs::hash::group_hash_axioms;

        proof {
            self.state().law_cut(*key);
        }
        let previous = self.get(key);
        if self.num_borrows == 0 {
            self.map.remove(key);
        } else {
            self.diff.insert(*key, None);
        }
        previous
    }

    /// Removes everything. While a snapshot is outstanding the base map is
    /// only marked as cleared.
    pub fn clear(&mut self)
        requires
            old(self).wf(),
        ensures
            final(self).wf(),
            final(self).state() == old(self).state().wiped(),
            final(self)@ == Map::<i64, V>::empty(),
    {
        broadcast use vstd::std_specs::hash::group_hash_axioms;

        proof {
            self.state().law_wiped();
        }
        if self.num_borrows == 0 {
            self.map.clear();
        } else {
            self.cleared = true;
            self.diff.clear();
        }
    }

    /// Whether a snapshot is outstanding.
    pub fn is_borrowed(&self) -> (r: bool)
        ensures
            r == (self.state().borrows > 0),
    {
        self.num_borrows > 0
    }

    /// How many snapshots are outstanding.
    pub fn borrow_count(&self) -> (n: usize)
        ensures
            n == self.state().borrows,
    {
        self.num_borrows
    }

    /// Takes a snapshot: from now on, and until the receipt is given back,
    /// the base map stays as it is and writes go to the overlay.
    pub fn snapshot_borrow(&mut self) -> (receipt: SnapshotBorrow)
        requires
            old(self).wf(),
            old(self).state().borrows < usize::MAX,
        ensures
            final(self).wf(),
            final(self).state() == old(self).state().lent(),
            final(self)@ == old(self)@,
            receipt.spec_ticket() == final(self).state().borrows,
    {
        proof {
            self.state().law_lent();
        }
        self.num_borrows = self.num_borrows + 1;
        SnapshotBorrow { ticket: self.num_borrows }
    }

    /// The map that snapshots read.
    pub fn base_map(&self) -> (base: &HashMap<i64, V>)
        ensures
            base@ == self.state().base,
    {
        &self.map
    }

    /// What a snapshot reads, as pairs of key and value: every key of the
    /// base map once, with its value, in no particular order.
    pub fn snapshot_pairs(&self) -> (pairs: Vec<(i64, V)>)
        ensures
            pairs@.len() == self.state().base.dom().len(),
            pairs@.map_values(|p: (i64, V)| p.0).no_duplicates(),
            pairs@.map_values(|p: (i64, V)| p.0).to_set() == self.state().base.dom(),
            forall|i: int|
                0 <= i < pairs@.len() ==> self.state().base.contains_key((#[trigger] pairs@[i]).0)
                    && self.state().base[pairs@[i].0] == pairs@[i].1,
    {
        broadcast use vstd::std_specs::hash::group_hash_axioms;

        let keys = Self::keys_of(&self.map);
        let mut pairs: Vec<(i64, V)> = Vec::new();
        let mut i: usize = 0;
        while i < keys.len()
            invariant
                0 <= i <= keys@.len(),
                keys@.to_set() == self.map@.dom(),
                pairs@.len() == i,
                forall|j: int| 0 <= j < i ==> (#[trigger] pairs@[j]).0 == keys@[j],
                forall|j: int|
                    0 <= j < i ==> self.map@.contains_key((#[trigger] pairs@[j]).0) && self.map@[pairs@[j].0]
                        == pairs@[j].1,
            decreases keys@.len() - i,
        {
            let k = keys[i];
            assert(keys@.to_set().contains(k));
            match self.map.get(&k) {
                Some(v) => {
                    pairs.push((k, *v));
                },
                None => {
                    assert(false);
                },
            }
            i = i + 1;
        }
        assert(pairs@.map_values(|p: (i64, V)| p.0) =~= keys@);
        pairs
    }

    /// Gives a snapshot back. When it was the last one outstanding, what was
    /// written meanwhile is folded into the base map. Readers see no change.
    /// With no snapshot outstanding nothing happens.
    pub fn release(&mut self, receipt: SnapshotBorrow)
        requires
            old(self).wf(),
        ensures
            final(self).wf(),
            final(self).state() == old(self).state().settled(),
            final(self)@ == old(self)@,
    {
        broadcast use vstd::std_specs::hash::group_hash_axioms;

        proof {
            self.state().law_settled();
        }
        if self.num_borrows == 0 {
            return ;
        }
        if self.num_borrows > 1 {
            self.num_borrows = self.num_borrows - 1;
            return ;
        }
        let ghost before = self.state();
        if self.cleared {
            self.map.clear();
            self.cleared = false;
        }
        let ghost ground = self.map@;
        let keys = Self::keys_of(&self.diff);
        let mut i: usize = 0;
        while i < keys.len()
            invariant
                0 <= i <= keys@.len(),
                keys@.to_set() == self.diff@.dom(),
                self.diff@ == before.overlay,
                self.num_borrows == 1,
                !self.cleared,
                forall|k: i64|
                    self.map@.contains_key(k) == (if keys@.take(i as int).contains(k) {
                        before.overlay[k] is Some
                    } else {
                        ground.contains_key(k)
                    }),
                forall|k: i64|
                    self.map@.contains_key(k) ==> #[trigger] self.map@[k] == (if keys@.take(
                        i as int,
                    ).contains(k) {
                        before.overlay[k].unwrap()
                    } else {
                        ground[k]
                    }),
            decreases keys@.len() - i,
        {
            let k = keys[i];
            assert(keys@.to_set().contains(k));
            let ghost t0 = keys@.take(i as int);
            let ghost t1 = keys@.take(i + 1);
            assert(t1 =~= t0.push(k));
            assert forall|q: i64| t1.contains(q) == (t0.contains(q) || q == k) by {
                if t0.contains(q) {
                    let j = choose|j: int| 0 <= j < t0.len() && t0[j] == q;
                    assert(t1[j] == q);
                }
                if q == k {
                    assert(t1[i as int] == q);
                }
                if t1.contains(q) {
                    let j = choose|j: int| 0 <= j < t1.len() && t1[j] == q;
                    if j < i {
                        assert(t0[j] == q);
                    }
                }
            }
            match self.diff.get(&k) {
                Some(slot) => {
                    match *slot {
                        Some(v) => {
                            self.map.insert(k, v);
                        },
                        None => {
                            self.map.remove(&k);
                        },
                    }
                },
                None => {
                    assert(false);
                },
            }
            i = i + 1;
        }
        proof {
            assert(keys@.take(keys@.len() as int) =~= keys@);
            assert forall|k: i64| keys@.contains(k) == before.overlay.contains_key(k) by {
                assert(keys@.to_set().contains(k) == keys@.contains(k));
            }
            assert(self.map@ =~= before.view());
        }
        self.diff.clear();
        self.num_borrows = 0;
    }
}

} // verus!
