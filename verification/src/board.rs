use crate::diff_map::DiffMap;
use crate::diff_map::OverlayState;
use crate::diff_map::SnapshotBorrow;
use crate::entry::Entry;
use crate::ranking::descending;
use crate::ranking::lemma_insert_descending;
use crate::ranking::lemma_rank_bound;
use crate::ranking::lemma_rank_finds;
use crate::ranking::lemma_remove_descending;
use crate::ranking::rank_in;
use crate::tree::Tree;
use crate::window::agrees;
use crate::window::bottom_of;
use crate::window::lemma_agrees_insert;
use crate::window::lemma_agrees_remove;
use crate::window::lemma_agrees_size;
use crate::window::top_of;
use vstd::prelude::*;

verus! {

/// Why a board turned an entry away.
#[derive(Clone, Copy, Debug, PartialEq, Eq, Structural)]
pub enum BoardError {
    /// The board is full and the entry would rank at or below its size cap.
    CapReject,
}

impl BoardError {
    /// The reason in words.
    pub fn message(&self) -> (text: String)
        ensures
            text@ == "Too low rank to fall into the size cap."@,
    {
        "Too low rank to fall into the size cap.".to_string()
    }
}

/// Remembered results of the two edge queries, each with the time at which
/// it was computed and a flag that says whether anybody ever asked for a
/// remembered result.
pub struct Cache {
    pub top_cache: Option<Vec<(usize, Entry)>>,
    pub bottom_cache: Option<Vec<(usize, Entry)>>,
    pub top_cache_time: u64,
    pub bottom_cache_time: u64,
    pub top_requested: bool,
    pub bottom_requested: bool,
}

/// A leaderboard: entries ranked by score, found by key, optionally capped
/// in size.
///
/// Seen from outside, a board is the sequence of its entries in rank order:
/// position 0 holds rank 1.
pub struct Board {
    tree: Tree<Entry>,
    map: DiffMap<Entry>,
    size_cap: Option<usize>,
    cache: Cache,
}

impl View for Board {
    type V = Seq<Entry>;

    /// The entries in rank order, rank 1 first.
    closed spec fn view(&self) -> Seq<Entry> {
        self.tree@
    }
}

impl Board {
    /// The state of the key index, with what it holds for snapshots.
    pub closed spec fn index_state(&self) -> OverlayState<Entry> {
        self.map.state()
    }

    /// The key index as readers see it: the entry under each key.
    pub open spec fn index(&self) -> Map<i64, Entry> {
        self.index_state().view()
    }

    /// The size cap, if one is set.
    pub closed spec fn cap(&self) -> Option<usize> {
        self.size_cap
    }

    /// The remembered result of the top query, if there is one.
    pub closed spec fn top_cached(&self) -> Option<Seq<(usize, Entry)>> {
        match self.cache.top_cache {
            Some(v) => Some(v@),
            None => None,
        }
    }

    /// The remembered result of the bottom query, if there is one.
    pub closed spec fn bottom_cached(&self) -> Option<Seq<(usize, Entry)>> {
        match self.cache.bottom_cache {
            Some(v) => Some(v@),
            None => None,
        }
    }

    /// When the remembered top result was computed.
    pub closed spec fn top_stamp(&self) -> u64 {
        self.cache.top_cache_time
    }

    /// When the remembered bottom result was computed.
    pub closed spec fn bottom_stamp(&self) -> u64 {
        self.cache.bottom_cache_time
    }

    /// Whether a caller ever asked for a remembered top result.
    pub closed spec fn top_wanted(&self) -> bool {
        self.cache.top_requested
    }

    /// Whether a caller ever asked for a remembered bottom result.
    pub closed spec fn bottom_wanted(&self) -> bool {
        self.cache.bottom_requested
    }

    /// Every entry of the map carries the key under which it stands.
    pub open spec fn keyed(m: Map<i64, Entry>) -> bool {
        forall|k: i64| m.contains_key(k) ==> (#[trigger] m[k]).key == k
    }

    /// The invariant of a board: the ranking is a well-formed tree, the key
    /// index agrees with it, what snapshots read is keyed like the index, and
    /// a remembered edge result is what the query would compute now.
    pub closed spec fn wf(&self) -> bool {
        &&& self.tree.wf()
        &&& self.map.wf()
        &&& agrees(self.tree@, self.map@)
        &&& Self::keyed(self.map.state().base)
        &&& (self.cache.top_cache matches Some(v) ==> v@ == top_of(self.tree@, v@.len() as int))
        &&& (self.cache.bottom_cache matches Some(v) ==> v@ == bottom_of(
            self.tree@,
            v@.len() as int,
        ))
    }

    /// The board holds no more entries than its cap allows.
    pub open spec fn within_cap(&self) -> bool {
        self.cap() matches Some(c) ==> self@.len() <= c
    }

    /// What the invariant gives: the ranking is strictly descending and holds
    /// no entry twice; index and ranking agree and have the same size; every
    /// key is ranked once; a remembered edge result is current.
    pub proof fn lemma_wf(&self)
        requires
            self.wf(),
        ensures
            descending(self@),
            self@.no_duplicates(),
            self@.len() <= usize::MAX,
            self.index_state().wf(),
            agrees(self@, self.index()),
            Self::keyed(self.index_state().base),
            self.index().dom().finite(),
            self.index().dom().len() == self@.len(),
            crate::window::keys_of(self@).no_duplicates(),
            self.top_cached() matches Some(c) ==> c == top_of(self@, c.len() as int),
            self.bottom_cached() matches Some(c) ==> c == bottom_of(self@, c.len() as int),
    {
        self.tree.lemma_view();
        lemma_agrees_size(self.tree@, self.map@);
    }

    /// No change of the board touches what an outstanding snapshot of the
    /// index reads, nor the number of snapshots.
    pub open spec fn keeps_snapshot(before: OverlayState<Entry>, after: OverlayState<Entry>) -> bool {
        &&& after.borrows == before.borrows
        &&& before.borrows > 0 ==> after.base == before.base
    }

    /// An empty board without a cap.
    pub fn new() -> (board: Self)
        ensures
            board.wf(),
            board@ == Seq::<Entry>::empty(),
            board.index() == Map::<i64, Entry>::empty(),
            board.cap() is None,
            board.top_cached() is None,
            board.bottom_cached() is None,
            !board.top_wanted(),
            !board.bottom_wanted(),
            board.index_state().borrows == 0,
    {
        Board {
            tree: Tree::new(),
            map: DiffMap::new(),
            size_cap: None,
            cache: Cache {
                top_cache: None,
                bottom_cache: None,
                top_cache_time: 0,
                bottom_cache_time: 0,
                top_requested: false,
                bottom_requested: false,
            },
        }
    }

    /// Forgets both remembered edge results.
    fn invalidate(&mut self)
        ensures
            final(self).tree == old(self).tree,
            final(self).map == old(self).map,
            final(self).size_cap == old(self).size_cap,
            final(self).cache.top_cache is None,
            final(self).cache.bottom_cache is None,
            final(self).cache.top_requested == old(self).cache.top_requested,
            final(self).cache.bottom_requested == old(self).cache.bottom_requested,
    {
        self.cache.top_cache = None;
        self.cache.bottom_cache = None;
    }

    /// The number of entries.
    pub fn get_size(&self) -> (n: usize)
        requires
            self.wf(),
        ensures
            n == self@.len(),
    {
        self.tree.len()
    }

    /// The size cap, if one is set.
    pub fn get_size_cap(&self) -> (cap: Option<usize>)
        ensures
            cap == self.cap(),
    {
        self.size_cap
    }

    /// Sets the size cap. Entries beyond it stay until the board is trimmed.
    pub fn set_size_cap(&mut self, new_size_cap: usize)
        requires
            old(self).wf(),
        ensures
            final(self).wf(),
            final(self).cap() == Some(new_size_cap),
            final(self)@ == old(self)@,
            final(self).index_state() == old(self).index_state(),
            final(self).top_cached() == old(self).top_cached(),
            final(self).bottom_cached() == old(self).bottom_cached(),
    {
        self.size_cap = Some(new_size_cap);
    }

    /// Lifts the size cap.
    pub fn remove_size_cap(&mut self)
        requires
            old(self).wf(),
        ensures
            final(self).wf(),
            final(self).cap() is None,
            final(self)@ == old(self)@,
            final(self).index_state() == old(self).index_state(),
            final(self).top_cached() == old(self).top_cached(),
            final(self).bottom_cached() == old(self).bottom_cached(),
    {
        self.size_cap = None;
    }

    /// Whether a cap is set and the board has reached it.
    pub fn is_at_size_cap(&self) -> (r: bool)
        requires
            self.wf(),
        ensures
            r == (self.cap() matches Some(c) && c <= self@.len()),
    {
        match self.size_cap {
            Some(c) => c <= self.tree.len(),
            None => false,
        }
    }

    /// Whether a cap is set and the board holds more than it allows.
    pub fn is_past_size_cap(&self) -> (r: bool)
        requires
            self.wf(),
        ensures
            r == (self.cap() matches Some(c) && c < self@.len()),
    {
        match self.size_cap {
            Some(c) => c < self.tree.len(),
            None => false,
        }
    }

    /// Whether a board with ranking `s` and cap `cap` admits the new entry
    /// `e`: it does unless it is full and `e` would rank at or below the cap.
    pub open spec fn admits(s: Seq<Entry>, cap: Option<usize>, e: Entry) -> bool {
        match cap {
            Some(c) => !(c <= s.len() && rank_in(s, e) >= c),
            None => true,
        }
    }

    /// The ranking after `e` was admitted: `e` stands at its rank, and if
    /// that took the board past its cap, the lowest-ranked entry is gone.
    pub open spec fn with_added(s: Seq<Entry>, cap: Option<usize>, e: Entry) -> Seq<Entry> {
        let t = s.insert(rank_in(s, e) as int, e);
        match cap {
            Some(c) => if c < t.len() {
                t.drop_last()
            } else {
                t
            },
            None => t,
        }
    }

    /// The key index after `e` was admitted: `e` is filed under its key, and
    /// if that took the board past its cap, the key of the lowest-ranked
    /// entry is gone.
    pub open spec fn index_added(
        s: Seq<Entry>,
        index: Map<i64, Entry>,
        cap: Option<usize>,
        e: Entry,
    ) -> Map<i64, Entry> {
        let t = s.insert(rank_in(s, e) as int, e);
        let m = index.insert(e.key, e);
        match cap {
            Some(c) => if c < t.len() {
                m.remove(t.last().key)
            } else {
                m
            },
            None => m,
        }
    }

    /// Adds an entry under a key that the board does not hold yet.
    ///
    /// Returns `Ok(false)` and changes nothing if the key is present. If the
    /// board is at its cap and the entry would rank at or below the cap, it
    /// is turned away with `CapReject` and nothing changes. Otherwise the
    /// entry goes in at its rank, and if the board is then past its cap, the
    /// lowest-ranked entry leaves. Any change forgets the remembered edge
    /// results.
    pub fn add_entry(&mut self, entry: Entry) -> (r: Result<bool, BoardError>)
        requires
            old(self).wf(),
            old(self)@.len() < usize::MAX,
        ensures
            final(self).wf(),
            final(self).cap() == old(self).cap(),
            Self::keeps_snapshot(old(self).index_state(), final(self).index_state()),
            old(self).index().contains_key(entry.key) ==> r == Ok::<bool, BoardError>(false)
                && final(self)@ == old(self)@ && final(self).top_cached() == old(self).top_cached()
                && final(self).bottom_cached() == old(self).bottom_cached(),
            !old(self).index().contains_key(entry.key) && !Self::admits(
                old(self)@,
                old(self).cap(),
                entry,
            ) ==> r == Err::<bool, BoardError>(BoardError::CapReject) && final(self)@ == old(self)@
                && final(self).top_cached() == old(self).top_cached() && final(self).bottom_cached() == old(self).bottom_cached(),
            !old(self).index().contains_key(entry.key) && Self::admits(
                old(self)@,
                old(self).cap(),
                entry,
            ) ==> r == Ok::<bool, BoardError>(true) && final(self)@ == Self::with_added(
                old(self)@,
                old(self).cap(),
                entry,
            ) && final(self).top_cached() is None && final(self).bottom_cached() is None,
            r == Ok::<bool, BoardError>(true) ==> final(self).index() == Self::index_added(
                old(self)@,
                old(self).index(),
                old(self).cap(),
                entry,
            ),
            !(r == Ok::<bool, BoardError>(true)) ==> final(self).index() == old(self).index(),
            final(self).top_wanted() == old(self).top_wanted(),
            final(self).bottom_wanted() == old(self).bottom_wanted(),
            old(self).within_cap() ==> final(self).within_cap(),
    {
        proof {
            self.lemma_wf();
            crate::window::lemma_agrees_finds(self@, self.index(), entry.key);
        }
        let id = entry.key;
        if self.map.contains_key(&id) {
            return Ok(false);
        }
        let ghost s0 = self@;
        let ghost m0 = self.index();
        proof {
            lemma_rank_bound(s0, entry);
            if s0.contains(entry) {
                let i = choose|i: int| 0 <= i < s0.len() && s0[i] == entry;
                assert(s0[i].key == id);
            }
        }
        if let Some(cap) = self.size_cap {
            if cap <= self.tree.len() && self.tree.index_of(&entry).0 >= cap {
                return Err(BoardError::CapReject);
            }
        }
        let inserted = self.tree.insert(entry);
        assert(inserted);
        self.map.insert(id, entry);
        let ghost s1 = self.tree@;
        proof {
            lemma_insert_descending(s0, entry);
            lemma_agrees_insert(s0, m0, rank_in(s0, entry) as int, entry);
        }
        if self.is_past_size_cap_inner() {
            let ghost m1 = self.map@;
            let evicted = self.tree.pop_lowest();
            match evicted {
                Some(e) => {
                    proof {
                        crate::ranking::lemma_descending_distinct(s1);
                        lemma_agrees_remove(s1, m1, s1.len() - 1);
                        assert(s1.drop_last() =~= s1.remove(s1.len() - 1));
                    }
                    self.map.remove(&e.key);
                },
                None => {},
            }
        }
        self.invalidate();
        Ok(true)
    }

    /// Whether a cap is set and the tree holds more than it allows; usable
    /// while index and tree are being brought into agreement.
    fn is_past_size_cap_inner(&self) -> (r: bool)
        requires
            self.tree.wf(),
        ensures
            r == (self.size_cap matches Some(c) && c < self.tree@.len()),
    {
        match self.size_cap {
            Some(c) => c < self.tree.len(),
            None => false,
        }
    }

    /// Removes the entry under `id` and returns it; `None`, and no change,
    /// if the key is absent. A removal forgets the remembered edge results.
    pub fn remove_entry(&mut self, id: &i64) -> (taken: Option<Entry>)
        requires
            old(self).wf(),
        ensures
            final(self).wf(),
            final(self).cap() == old(self).cap(),
            Self::keeps_snapshot(old(self).index_state(), final(self).index_state()),
            taken == (if old(self).index().contains_key(*id) {
                Some(old(self).index()[*id])
            } else {
                None
            }),
            taken matches Some(e) ==> old(self)@.contains(e) && rank_in(old(self)@, e) < old(
                self)@.len() && final(self)@ == old(self)@.remove(
                rank_in(old(self)@, e) as int,
            ) && final(self).top_cached() is None && final(self).bottom_cached() is None,
            taken is None ==> final(self)@ == old(self)@ && final(self).top_cached() == old(self).top_cached() && final(self).bottom_cached() == old(self).bottom_cached(),
            final(self).index() == old(self).index().remove(*id),
            final(self).top_wanted() == old(self).top_wanted(),
            final(self).bottom_wanted() == old(self).bottom_wanted(),
            old(self).within_cap() ==> final(self).within_cap(),
    {
        proof {
            self.lemma_wf();
            crate::window::lemma_agrees_finds(self@, self.index(), *id);
        }
        let ghost s0 = self@;
        let ghost m0 = self.index();
        match self.map.get(id) {
            None => {
                assert(m0.remove(*id) =~= m0);
                None
            },
            Some(entry) => {
                proof {
                    lemma_rank_finds(s0, entry);
                    lemma_agrees_remove(s0, m0, rank_in(s0, entry) as int);
                }
                self.map.remove(id);
                let taken = self.tree.remove(&entry);
                self.invalidate();
                taken
            },
        }
    }

    /// Removes lowest-ranked entries until the board is within its cap.
    /// Without a cap nothing happens.
    pub fn trim_after_cap(&mut self)
        requires
            old(self).wf(),
        ensures
            final(self).wf(),
            final(self).within_cap(),
            final(self).cap() == old(self).cap(),
            Self::keeps_snapshot(old(self).index_state(), final(self).index_state()),
            old(self).within_cap() ==> final(self)@ == old(self)@ && final(self).top_cached()
                == old(self).top_cached() && final(self).bottom_cached() == old(self).bottom_cached(),
            old(self).cap() matches Some(c) ==> final(self)@ == old(self)@.take(
                crate::window::least(c as int, old(self)@.len() as int),
            ),
            !old(self).within_cap() ==> final(self).top_cached() is None && final(self).bottom_cached() is None,
            final(self).top_wanted() == old(self).top_wanted(),
            final(self).bottom_wanted() == old(self).bottom_wanted(),
    {
        proof {
            self.lemma_wf();
        }
        let cap = match self.size_cap {
            None => {
                return ;
            },
            Some(c) => c,
        };
        if self.tree.len() <= cap {
            assert(self@.take(self@.len() as int) =~= self@);
            return ;
        }
        let ghost s0 = self@;
        let ghost st0 = self.index_state();
        self.invalidate();
        while cap < self.tree.len()
            invariant
                self.wf(),
                self.size_cap == Some(cap),
                self.cache.top_cache is None,
                self.cache.bottom_cache is None,
                self.cache.top_requested == old(self).cache.top_requested,
                self.cache.bottom_requested == old(self).cache.bottom_requested,
                cap <= self.tree@.len() <= s0.len(),
                self.tree@ == s0.take(self.tree@.len() as int),
                Self::keeps_snapshot(st0, self.map.state()),
            decreases self.tree@.len(),
        {
            let ghost s1 = self.tree@;
            let ghost m1 = self.map@;
            proof {
                self.lemma_wf();
            }
            let evicted = self.tree.pop_lowest();
            match evicted {
                Some(e) => {
                    proof {
                        lemma_agrees_remove(s1, m1, s1.len() - 1);
                        assert(s1.drop_last() =~= s1.remove(s1.len() - 1));
                        assert(s1.drop_last() =~= s0.take(s1.len() - 1));
                    }
                    self.map.remove(&e.key);
                },
                None => {},
            }
        }
    }

    /// Removes every entry. The cap stays; the remembered edge results go.
    pub fn clear(&mut self)
        requires
            old(self).wf(),
        ensures
            final(self).wf(),
            final(self)@ == Seq::<Entry>::empty(),
            final(self).cap() == old(self).cap(),
            Self::keeps_snapshot(old(self).index_state(), final(self).index_state()),
            final(self).top_cached() is None,
            final(self).bottom_cached() is None,
            final(self).top_wanted() == old(self).top_wanted(),
            final(self).bottom_wanted() == old(self).bottom_wanted(),
    {
        self.tree.clear();
        self.map.clear();
        self.invalidate();
    }

    /// Takes a snapshot of the key index for saving. Until the receipt is
    /// given back, changes of the board leave what the snapshot reads alone.
    pub fn get_map_snapshot(&mut self) -> (receipt: SnapshotBorrow)
        requires
            old(self).wf(),
            old(self).index_state().borrows < usize::MAX,
        ensures
            final(self).wf(),
            final(self)@ == old(self)@,
            final(self).cap() == old(self).cap(),
            final(self).index_state() == old(self).index_state().lent(),
            old(self).index_state().borrows == 0 ==> final(self).index_state().base == old(self).index(),
            final(self).top_cached() == old(self).top_cached(),
            final(self).bottom_cached() == old(self).bottom_cached(),
            final(self).top_wanted() == old(self).top_wanted(),
            final(self).bottom_wanted() == old(self).bottom_wanted(),
    {
        proof {
            self.index_state().law_lent();
        }
        self.map.snapshot_borrow()
    }

    /// Gives a snapshot of the key index back.
    pub fn release_map_snapshot(&mut self, receipt: SnapshotBorrow)
        requires
            old(self).wf(),
        ensures
            final(self).wf(),
            final(self)@ == old(self)@,
            final(self).cap() == old(self).cap(),
            final(self).index_state() == old(self).index_state().settled(),
            final(self).index() == old(self).index(),
            final(self).top_cached() == old(self).top_cached(),
            final(self).bottom_cached() == old(self).bottom_cached(),
            final(self).top_wanted() == old(self).top_wanted(),
            final(self).bottom_wanted() == old(self).bottom_wanted(),
    {
        self.map.release(receipt);
    }

    /// How many snapshots of the key index are outstanding.
    pub fn map_snapshot_count(&self) -> (n: usize)
        ensures
            n == self.index_state().borrows,
    {
        self.map.borrow_count()
    }

    /// Whether a snapshot of the key index is outstanding.
    pub fn is_map_snapshotted(&self) -> (r: bool)
        ensures
            r == (self.index_state().borrows > 0),
    {
        self.map.is_borrowed()
    }

    /// What an outstanding snapshot reads: every key of the base of the
    /// index once, with its entry, in no particular order.
    pub fn snapshot_entries(&self) -> (entries: Vec<Entry>)
        requires
            self.wf(),
        ensures
            entries@.len() == self.index_state().base.dom().len(),
            entries@.no_duplicates(),
            forall|e: Entry|
                entries@.contains(e) <==> (self.index_state().base.contains_key(e.key)
                    && self.index_state().base[e.key] == e),
    {
        let pairs = self.map.snapshot_pairs();
        let mut out: Vec<Entry> = Vec::new();
        let mut i: usize = 0;
        while i < pairs.len()
            invariant
                0 <= i <= pairs@.len(),
                out@.len() == i,
                forall|j: int| 0 <= j < i ==> out@[j] == (#[trigger] pairs@[j]).1,
            decreases pairs@.len() - i,
        {
            out.push(pairs[i].1);
            i = i + 1;
        }
        proof {
            let base = self.index_state().base;
            let keys = pairs@.map_values(|p: (i64, Entry)| p.0);
            assert forall|j: int| 0 <= j < out@.len() implies (#[trigger] out@[j]).key == keys[j]
                && base.contains_key(keys[j]) && base[keys[j]] == out@[j] by {
                assert(out@[j] == pairs@[j].1);
                assert(keys[j] == pairs@[j].0);
            }
            assert forall|a: int, b: int|
                0 <= a < out@.len() && 0 <= b < out@.len() && a != b implies out@[a] != out@[b] by {
                assert(keys[a] != keys[b]);
            }
            assert forall|e: Entry|
                out@.contains(e) <==> (base.contains_key(e.key) && base[e.key] == e) by {
                if out@.contains(e) {
                    let j = choose|j: int| 0 <= j < out@.len() && out@[j] == e;
                    assert(out@[j].key == keys[j]);
                }
                if base.contains_key(e.key) && base[e.key] == e {
                    assert(keys.to_set().contains(e.key));
                    let j = choose|j: int| 0 <= j < keys.len() && keys[j] == e.key;
                    assert(out@[j] == e);
                }
            }
        }
        out
    }

    /// The entry under `id`, if the board holds the key.
    pub fn get_entry(&self, id: &i64) -> (found: Option<Entry>)
        ensures
            found == (if self.index().contains_key(*id) {
                Some(self.index()[*id])
            } else {
                None
            }),
    {
        self.map.get(id)
    }

    /// The rank of the entry under `id`, counted from 1, if the board holds
    /// the key.
    pub fn get_rank(&self, id: &i64) -> (rank: Option<usize>)
        requires
            self.wf(),
        ensures
            rank == (if self.index().contains_key(*id) {
                Some((rank_in(self@, self.index()[*id]) + 1) as usize)
            } else {
                None
            }),
            rank matches Some(r) ==> 1 <= r <= self@.len() && self@[r - 1] == self.index()[*id],
    {
        match self.get_entry_and_rank(id) {
            Some(pair) => Some(pair.0),
            None => None,
        }
    }

    /// The entry under `id` with its rank, counted from 1, if the board
    /// holds the key.
    pub fn get_entry_and_rank(&self, id: &i64) -> (found: Option<(usize, Entry)>)
        requires
            self.wf(),
        ensures
            found == (if self.index().contains_key(*id) {
                Some(((rank_in(self@, self.index()[*id]) + 1) as usize, self.index()[*id]))
            } else {
                None
            }),
            found matches Some(p) ==> 1 <= p.0 <= self@.len() && self@[p.0 - 1] == p.1 && p.1.key
                == *id && p.0 == rank_in(self@, self.index()[*id]) + 1,
    {
        proof {
            self.lemma_wf();
            crate::window::lemma_agrees_finds(self@, self.index(), *id);
        }
        match self.map.get(id) {
            None => None,
            Some(entry) => {
                let r = self.tree.index_of(&entry);
                Some((r.0 + 1, entry))
            },
        }
    }

    /// The entry of rank `rank`, counted from 1. `None` for rank 0 and for
    /// ranks beyond the size of the board.
    pub fn at_rank(&self, rank: usize) -> (found: Option<Entry>)
        requires
            self.wf(),
        ensures
            found == (if 1 <= rank <= self@.len() {
                Some(self@[rank - 1])
            } else {
                None
            }),
    {
        if rank == 0 {
            return None;
        }
        match self.tree.at_index(rank - 1) {
            Some(e) => Some(*e),
            None => None,
        }
    }

    /// The entry at position `pos` of the ranking.
    fn entry_at(&self, pos: usize) -> (e: Entry)
        requires
            self.wf(),
            pos < self@.len(),
        ensures
            e == self@[pos as int],
    {
        match self.tree.at_index(pos) {
            Some(e) => *e,
            None => vstd::pervasive::unreached(),
        }
    }

    /// `n` entries from position `from` on, in rank order, with their ranks.
    fn run_down(&self, from: usize, n: usize) -> (out: Vec<(usize, Entry)>)
        requires
            self.wf(),
            from + n <= self@.len(),
        ensures
            out@ == Seq::new(n as nat, |i: int| ((from + i + 1) as usize, self@[from + i])),
    {
        proof {
            self.lemma_wf();
        }
        let mut out: Vec<(usize, Entry)> = Vec::new();
        let mut i: usize = 0;
        while i < n
            invariant
                self.wf(),
                from + n <= self@.len() <= usize::MAX,
                0 <= i <= n,
                out@ == Seq::new(i as nat, |j: int| ((from + j + 1) as usize, self@[from + j])),
            decreases n - i,
        {
            let e = self.entry_at(from + i);
            out.push((from + i + 1, e));
            i = i + 1;
            assert(out@ =~= Seq::new(i as nat, |j: int| ((from + j + 1) as usize, self@[from + j])));
        }
        out
    }

    /// `n` entries from position `from` upwards, against rank order, with
    /// their ranks.
    fn run_up(&self, from: usize, n: usize) -> (out: Vec<(usize, Entry)>)
        requires
            self.wf(),
            from < self@.len() || n == 0,
            n <= from + 1,
        ensures
            out@ == Seq::new(n as nat, |i: int| ((from - i + 1) as usize, self@[from - i])),
    {
        proof {
            self.lemma_wf();
        }
        let mut out: Vec<(usize, Entry)> = Vec::new();
        let mut i: usize = 0;
        while i < n
            invariant
                self.wf(),
                from < self@.len() || n == 0,
                n <= from + 1,
                self@.len() <= usize::MAX,
                0 <= i <= n,
                out@ == Seq::new(i as nat, |j: int| ((from - j + 1) as usize, self@[from - j])),
            decreases n - i,
        {
            let e = self.entry_at(from - i);
            out.push((from - i + 1, e));
            i = i + 1;
            assert(out@ =~= Seq::new(i as nat, |j: int| ((from - j + 1) as usize, self@[from - j])));
        }
        out
    }

    /// The `count` highest-ranked entries with their ranks, rank 1 first;
    /// all entries if the board holds fewer. Computed afresh.
    pub fn get_top_cacheless(&self, count: usize) -> (top: Vec<(usize, Entry)>)
        requires
            self.wf(),
        ensures
            top@ == top_of(self@, count as int),
    {
        let len = self.tree.len();
        let n = if count <= len {
            count
        } else {
            len
        };
        let top = self.run_down(0, n);
        assert(top@ =~= top_of(self@, count as int));
        top
    }

    /// The `count` lowest-ranked entries with their ranks, lowest first; all
    /// entries if the board holds fewer. Computed afresh.
    pub fn get_bottom_cacheless(&self, count: usize) -> (bottom: Vec<(usize, Entry)>)
        requires
            self.wf(),
        ensures
            bottom@ == bottom_of(self@, count as int),
    {
        let len = self.tree.len();
        let n = if count <= len {
            count
        } else {
            len
        };
        if n == 0 {
            let bottom: Vec<(usize, Entry)> = Vec::new();
            assert(bottom@ =~= bottom_of(self@, count as int));
            return bottom;
        }
        let bottom = self.run_up(len - 1, n);
        assert(bottom@ =~= bottom_of(self@, count as int));
        bottom
    }

    /// Up to `count` entries that rank right below the entry under `id`,
    /// nearest first, with their ranks. `None` if the board does not hold
    /// the key.
    pub fn get_after(&self, id: &i64, count: usize) -> (found: Option<Vec<(usize, Entry)>>)
        requires
            self.wf(),
        ensures
            found is Some == self.index().contains_key(*id),
            found matches Some(v) ==> v@ == crate::window::after_of(
                self@,
                rank_in(self@, self.index()[*id]) as int,
                count as int,
            ),
    {
        let pos = match self.get_entry_and_rank(id) {
            None => {
                return None;
            },
            Some(pair) => pair.0 - 1,
        };
        let room = self.tree.len() - 1 - pos;
        let n = if count <= room {
            count
        } else {
            room
        };
        let out = self.run_down(pos + 1, n);
        assert(out@ =~= crate::window::after_of(self@, pos as int, count as int));
        Some(out)
    }

    /// Up to `count` entries that rank right above the entry under `id`,
    /// nearest first, with their ranks. `None` if the board does not hold
    /// the key.
    pub fn get_before(&self, id: &i64, count: usize) -> (found: Option<Vec<(usize, Entry)>>)
        requires
            self.wf(),
        ensures
            found is Some == self.index().contains_key(*id),
            found matches Some(v) ==> v@ == crate::window::before_of(
                self@,
                rank_in(self@, self.index()[*id]) as int,
                count as int,
            ),
    {
        let pos = match self.get_entry_and_rank(id) {
            None => {
                return None;
            },
            Some(pair) => pair.0 - 1,
        };
        let n = if count <= pos {
            count
        } else {
            pos
        };
        if n == 0 {
            let out: Vec<(usize, Entry)> = Vec::new();
            assert(out@ =~= crate::window::before_of(self@, pos as int, count as int));
            return Some(out);
        }
        let out = self.run_up(pos - 1, n);
        assert(out@ =~= crate::window::before_of(self@, pos as int, count as int));
        Some(out)
    }

    /// The entry under `id` in the middle of up to `before` entries that
    /// rank above it and up to `after` entries that rank below it, all in
    /// ascending rank, with their ranks. `None` if the board does not hold
    /// the key.
    pub fn get_around(&self, id: &i64, before: usize, after: usize) -> (found: Option<
        Vec<(usize, Entry)>,
    >)
        requires
            self.wf(),
        ensures
            found is Some == self.index().contains_key(*id),
            found matches Some(v) ==> v@ == crate::window::around_of(
                self@,
                rank_in(self@, self.index()[*id]) as int,
                before as int,
                after as int,
            ),
    {
        let pos = match self.get_entry_and_rank(id) {
            None => {
                return None;
            },
            Some(pair) => pair.0 - 1,
        };
        let ahead = if before <= pos {
            before
        } else {
            pos
        };
        let room = self.tree.len() - 1 - pos;
        let behind = if after <= room {
            after
        } else {
            room
        };
        let out = self.run_down(pos - ahead, ahead + 1 + behind);
        assert(out@ =~= crate::window::around_of(self@, pos as int, before as int, after as int));
        Some(out)
    }

    /// The entries with ranks from `start_rank` to `end_rank`, both included
    /// and counted from 1, as far as the board has them. Empty if
    /// `start_rank` is 0, beyond the board, or beyond `end_rank`.
    pub fn get_range(&self, start_rank: usize, end_rank: usize) -> (out: Vec<(usize, Entry)>)
        requires
            self.wf(),
        ensures
            out@ == crate::window::range_of(self@, start_rank as int, end_rank as int),
    {
        let len = self.tree.len();
        if start_rank == 0 || end_rank < start_rank || start_rank > len {
            return Vec::new();
        }
        let last = if end_rank <= len {
            end_rank
        } else {
            len
        };
        let out = self.run_down(start_rank - 1, last - start_rank + 1);
        assert(out@ =~= crate::window::range_of(self@, start_rank as int, end_rank as int));
        out
    }

    /// The keys of all entries, lowest-ranked first.
    pub fn get_ids(&self) -> (ids: Vec<i64>)
        requires
            self.wf(),
        ensures
            ids@ == crate::window::keys_of(self@).reverse(),
    {
        proof {
            self.lemma_wf();
        }
        let len = self.tree.len();
        let mut ids: Vec<i64> = Vec::new();
        let mut i: usize = 0;
        while i < len
            invariant
                self.wf(),
                len == self@.len(),
                0 <= i <= len,
                ids@ == Seq::new(i as nat, |j: int| self@[len - 1 - j].key),
            decreases len - i,
        {
            let e = self.entry_at(len - 1 - i);
            ids.push(e.key);
            i = i + 1;
            assert(ids@ =~= Seq::new(i as nat, |j: int| self@[len - 1 - j].key));
        }
        assert(ids@ =~= crate::window::keys_of(self@).reverse());
        ids
    }

    /// What an update of `id` to `points` at time `now` makes of a board with
    /// ranking `s`, key index `index` and cap `cap`, and what it returns.
    ///
    /// A key that is present with the same points stays as it is. A key that
    /// is present with other points moves to the rank of its new entry,
    /// stamped `now`. A key that is absent is added if the board admits its
    /// entry, and turned away otherwise. The result is `Ok(true)` exactly if
    /// a new key went in.
    pub open spec fn update_outcome(
        s: Seq<Entry>,
        index: Map<i64, Entry>,
        cap: Option<usize>,
        id: i64,
        points: i64,
        now: u64,
    ) -> (Seq<Entry>, Result<bool, BoardError>) {
        let e = Entry { timestamp: now, points, key: id };
        if index.contains_key(id) {
            if index[id].points == points {
                (s, Ok(false))
            } else {
                (Tree::<Entry>::moved(s, index[id], e), Ok(false))
            }
        } else if Self::admits(s, cap, e) {
            (Self::with_added(s, cap, e), Ok(true))
        } else {
            (s, Err(BoardError::CapReject))
        }
    }

    /// Sets the points of `id` to `points`, with `now` as the time of the
    /// change. See [`Board::update_outcome`] for what happens to the
    /// ranking. An update that changes the board forgets the remembered edge
    /// results; one that changes nothing keeps them.
    pub fn update_entry_at(&mut self, id: i64, points: i64, now: u64) -> (r: Result<
        bool,
        BoardError,
    >)
        requires
            old(self).wf(),
            old(self)@.len() < usize::MAX,
        ensures
            final(self).wf(),
            final(self).cap() == old(self).cap(),
            Self::keeps_snapshot(old(self).index_state(), final(self).index_state()),
            (final(self)@, r) == Self::update_outcome(
                old(self)@,
                old(self).index(),
                old(self).cap(),
                id,
                points,
                now,
            ),
            final(self)@ == old(self)@ ==> final(self).top_cached() == old(self).top_cached()
                && final(self).bottom_cached() == old(self).bottom_cached(),
            final(self)@ != old(self)@ ==> final(self).top_cached() is None && final(
                self).bottom_cached() is None,
            final(self).top_wanted() == old(self).top_wanted(),
            final(self).bottom_wanted() == old(self).bottom_wanted(),
            old(self).within_cap() ==> final(self).within_cap(),
            r is Ok ==> final(self).index().contains_key(id) && final(self).index()[id].points
                == points,
    {
        proof {
            self.lemma_wf();
            crate::window::lemma_agrees_finds(self@, self.index(), id);
        }
        let ghost s0 = self@;
        let ghost m0 = self.index();
        let new_entry = Entry { timestamp: now, points, key: id };
        match self.map.get(&id) {
            None => {
                let r = self.add_entry(new_entry);
                proof {
                    if r is Ok {
                        self.lemma_wf();
                        lemma_rank_bound(s0, new_entry);
                        let t = s0.insert(rank_in(s0, new_entry) as int, new_entry);
                        assert(t[rank_in(s0, new_entry) as int] == new_entry);
                        if self@ == t {
                            assert(self@.contains(new_entry));
                        } else {
                            assert(self@ == t.drop_last());
                            assert(rank_in(s0, new_entry) < t.len() - 1);
                            assert(self@[rank_in(s0, new_entry) as int] == new_entry);
                        }
                        crate::window::lemma_agrees_finds(self@, self.index(), id);
                        let i = choose|i: int| 0 <= i < self@.len() && self@[i] == new_entry;
                        assert(self.index()[self@[i].key] == self@[i]);
                        assert(s0.len() + 1 == t.len());
                        assert(self@.len() != s0.len() || self@ != s0) by {
                            if self@ == s0 {
                                assert(s0.contains(new_entry));
                                let j = choose|j: int| 0 <= j < s0.len() && s0[j] == new_entry;
                                assert(s0[j].key == id);
                            }
                        }
                    }
                }
                r
            },
            Some(old_entry) => {
                if old_entry.points == points {
                    return Ok(false);
                }
                proof {
                    lemma_rank_finds(s0, old_entry);
                    let p = rank_in(s0, old_entry) as int;
                    let t = s0.remove(p);
                    lemma_remove_descending(s0, p);
                    lemma_agrees_remove(s0, m0, p);
                    if s0.contains(new_entry) {
                        let j = choose|j: int| 0 <= j < s0.len() && s0[j] == new_entry;
                        assert(s0[j].key == id);
                    }
                    lemma_rank_bound(t, new_entry);
                    lemma_agrees_insert(t, m0.remove(id), rank_in(t, new_entry) as int, new_entry);
                    assert(m0.remove(id).insert(id, new_entry) =~= m0.insert(id, new_entry));
                    let u = t.insert(rank_in(t, new_entry) as int, new_entry);
                    assert(u[rank_in(t, new_entry) as int] == new_entry);
                    assert(u != s0) by {
                        if u == s0 {
                            assert(s0.contains(new_entry));
                        }
                    }
                }
                let displaced = self.tree.replace(&old_entry, new_entry);
                assert(displaced is Some);
                self.map.insert(id, new_entry);
                self.invalidate();
                Ok(false)
            },
        }
    }

    /// Sets the points of `id` to `points`, stamped with the current time of
    /// the wall clock. Whatever the clock says, the board afterwards is what
    /// [`Board::update_entry_at`] makes of it for some time `now`.
    pub fn update_entry(&mut self, id: i64, points: i64) -> (r: Result<bool, BoardError>)
        requires
            old(self).wf(),
            old(self)@.len() < usize::MAX,
        ensures
            final(self).wf(),
            final(self).cap() == old(self).cap(),
            Self::keeps_snapshot(old(self).index_state(), final(self).index_state()),
            exists|now: u64|
                (final(self)@, r) == #[trigger] Self::update_outcome(
                    old(self)@,
                    old(self).index(),
                    old(self).cap(),
                    id,
                    points,
                    now,
                ),
            final(self)@ == old(self)@ ==> final(self).top_cached() == old(self).top_cached()
                && final(self).bottom_cached() == old(self).bottom_cached(),
            final(self)@ != old(self)@ ==> final(self).top_cached() is None && final(
                self).bottom_cached() is None,
            old(self).within_cap() ==> final(self).within_cap(),
            r is Ok ==> final(self).index().contains_key(id) && final(self).index()[id].points
                == points,
            r is Err ==> r == Err::<bool, BoardError>(BoardError::CapReject) && !old(
                self).index().contains_key(id) && final(self)@ == old(self)@,
    {
        let now = crate::clock::current_time();
        self.update_entry_at(id, points, now)
    }

    /// Whether a result remembered at time `stamp` is still good at time
    /// `now`, given that it stays good for `expire_len`: it is if it is not
    /// older than that, and not from the future.
    pub open spec fn fresh(stamp: u64, now: u64, expire_len: u64) -> bool {
        stamp <= now && now - stamp <= expire_len
    }

    /// Whether the remembered top result has gone stale at time `now`.
    pub fn is_top_cache_expired_at(&self, expire_len: u64, now: u64) -> (r: bool)
        ensures
            r == !Self::fresh(self.top_stamp(), now, expire_len),
    {
        !(self.cache.top_cache_time <= now && now - self.cache.top_cache_time <= expire_len)
    }

    /// Whether the remembered bottom result has gone stale at time `now`.
    pub fn is_bottom_cache_expired_at(&self, expire_len: u64, now: u64) -> (r: bool)
        ensures
            r == !Self::fresh(self.bottom_stamp(), now, expire_len),
    {
        !(self.cache.bottom_cache_time <= now && now - self.cache.bottom_cache_time <= expire_len)
    }

    /// Whether the remembered top result has gone stale by the wall clock.
    /// Whatever the clock says, the answer is that of
    /// [`Board::is_top_cache_expired_at`] for some time `now`.
    pub fn is_top_cache_expired(&self, expire_len: u64) -> (r: bool)
        ensures
            exists|now: u64| r == !#[trigger] Self::fresh(self.top_stamp(), now, expire_len),
    {
        let now = crate::clock::current_time();
        self.is_top_cache_expired_at(expire_len, now)
    }

    /// Whether the remembered bottom result has gone stale by the wall clock.
    /// Whatever the clock says, the answer is that of
    /// [`Board::is_bottom_cache_expired_at`] for some time `now`.
    pub fn is_bottom_cache_expired(&self, expire_len: u64) -> (r: bool)
        ensures
            exists|now: u64| r == !#[trigger] Self::fresh(self.bottom_stamp(), now, expire_len),
    {
        let now = crate::clock::current_time();
        self.is_bottom_cache_expired_at(expire_len, now)
    }

    /// The first `n` pairs of `v`, copied.
    fn copy_run(v: &Vec<(usize, Entry)>, n: usize) -> (out: Vec<(usize, Entry)>)
        requires
            n <= v@.len(),
        ensures
            out@ == v@.take(n as int),
    {
        let mut out: Vec<(usize, Entry)> = Vec::new();
        let mut i: usize = 0;
        while i < n
            invariant
                n <= v@.len(),
                0 <= i <= n,
                out@ == v@.take(i as int),
            decreases n - i,
        {
            out.push(v[i]);
            i = i + 1;
            assert(out@ =~= v@.take(i as int));
        }
        out
    }

    /// Whether a top query for `count` entries at time `now` can be answered
    /// from memory: a result is remembered, it holds at least `count`
    /// entries, and it is still fresh.
    pub open spec fn top_servable(&self, count: usize, expire_len: u64, now: u64) -> bool {
        self.top_cached() matches Some(c) && count <= c.len() && Self::fresh(
            self.top_stamp(),
            now,
            expire_len,
        )
    }

    /// Whether a bottom query for `count` entries at time `now` can be
    /// answered from memory.
    pub open spec fn bottom_servable(&self, count: usize, expire_len: u64, now: u64) -> bool {
        self.bottom_cached() matches Some(c) && count <= c.len() && Self::fresh(
            self.bottom_stamp(),
            now,
            expire_len,
        )
    }

    /// The `count` highest-ranked entries with their ranks, at time `now`.
    ///
    /// With `no_cache` the result is computed afresh and memory is left
    /// alone. Without it, the caller is noted as one that wants remembered
    /// results; the answer comes from memory if that is servable, and is
    /// otherwise computed afresh and remembered with `now` as its time.
    /// Either way the answer is what a fresh computation gives.
    pub fn get_top_at(&mut self, count: usize, no_cache: bool, expire_len: u64, now: u64) -> (top:
        Vec<(usize, Entry)>)
        requires
            old(self).wf(),
        ensures
            final(self).wf(),
            final(self)@ == old(self)@,
            final(self).cap() == old(self).cap(),
            final(self).index_state() == old(self).index_state(),
            top@ == top_of(old(self)@, count as int),
            final(self).bottom_cached() == old(self).bottom_cached(),
            final(self).bottom_stamp() == old(self).bottom_stamp(),
            final(self).bottom_wanted() == old(self).bottom_wanted(),
            final(self).top_wanted() == (old(self).top_wanted() || !no_cache),
            (no_cache || old(self).top_servable(count, expire_len, now)) ==> final(self).top_cached()
                == old(self).top_cached() && final(self).top_stamp() == old(self).top_stamp(),
            (!no_cache && !old(self).top_servable(count, expire_len, now)) ==> final(
                self).top_cached() == Some(top@) && final(self).top_stamp() == now,
    {
        if no_cache {
            return self.get_top_cacheless(count);
        }
        self.cache.top_requested = true;
        let stale = self.is_top_cache_expired_at(expire_len, now);
        let served = match &self.cache.top_cache {
            Some(c) => if count <= c.len() && !stale {
                let out = Self::copy_run(c, count);
                assert(out@ =~= top_of(self.tree@, count as int));
                Some(out)
            } else {
                None
            },
            None => None,
        };
        match served {
            Some(out) => out,
            None => {
                let top = self.get_top_cacheless(count);
                let keep = Self::copy_run(&top, top.len());
                assert(keep@ =~= top@);
                assert(top@.len() <= count);
                assert(top@ =~= top_of(self.tree@, top@.len() as int));
                self.cache.top_cache = Some(keep);
                self.cache.top_cache_time = now;
                top
            },
        }
    }

    /// The `count` lowest-ranked entries with their ranks, at time `now`.
    /// Memory is used as in [`Board::get_top_at`].
    pub fn get_bottom_at(&mut self, count: usize, no_cache: bool, expire_len: u64, now: u64) -> (bottom:
        Vec<(usize, Entry)>)
        requires
            old(self).wf(),
        ensures
            final(self).wf(),
            final(self)@ == old(self)@,
            final(self).cap() == old(self).cap(),
            final(self).index_state() == old(self).index_state(),
            bottom@ == bottom_of(old(self)@, count as int),
            final(self).top_cached() == old(self).top_cached(),
            final(self).top_stamp() == old(self).top_stamp(),
            final(self).top_wanted() == old(self).top_wanted(),
            final(self).bottom_wanted() == (old(self).bottom_wanted() || !no_cache),
            (no_cache || old(self).bottom_servable(count, expire_len, now)) ==> final(
                self).bottom_cached() == old(self).bottom_cached() && final(self).bottom_stamp()
                == old(self).bottom_stamp(),
            (!no_cache && !old(self).bottom_servable(count, expire_len, now)) ==> final(
                self).bottom_cached() == Some(bottom@) && final(self).bottom_stamp() == now,
    {
        if no_cache {
            return self.get_bottom_cacheless(count);
        }
        self.cache.bottom_requested = true;
        let stale = self.is_bottom_cache_expired_at(expire_len, now);
        let served = match &self.cache.bottom_cache {
            Some(c) => if count <= c.len() && !stale {
                let out = Self::copy_run(c, count);
                assert(out@ =~= bottom_of(self.tree@, count as int));
                Some(out)
            } else {
                None
            },
            None => None,
        };
        match served {
            Some(out) => out,
            None => {
                let bottom = self.get_bottom_cacheless(count);
                let keep = Self::copy_run(&bottom, bottom.len());
                assert(keep@ =~= bottom@);
                assert(bottom@.len() <= count);
                assert(bottom@ =~= bottom_of(self.tree@, bottom@.len() as int));
                self.cache.bottom_cache = Some(keep);
                self.cache.bottom_cache_time = now;
                bottom
            },
        }
    }

    /// The `count` highest-ranked entries with their ranks, by the wall
    /// clock. Whatever the clock says, the answer is what a fresh
    /// computation gives; the clock only decides whether memory is renewed.
    pub fn get_top(&mut self, count: usize, no_cache: bool, expire_len: u64) -> (top: Vec<
        (usize, Entry),
    >)
        requires
            old(self).wf(),
        ensures
            final(self).wf(),
            final(self)@ == old(self)@,
            final(self).cap() == old(self).cap(),
            final(self).index_state() == old(self).index_state(),
            top@ == top_of(old(self)@, count as int),
            final(self).bottom_cached() == old(self).bottom_cached(),
            final(self).top_wanted() == (old(self).top_wanted() || !no_cache),
            no_cache ==> final(self).top_cached() == old(self).top_cached(),
            final(self).top_cached() == old(self).top_cached() || final(self).top_cached() == Some(
                top@,
            ),
    {
        let now = crate::clock::current_time();
        self.get_top_at(count, no_cache, expire_len, now)
    }

    /// The `count` lowest-ranked entries with their ranks, by the wall
    /// clock. Whatever the clock says, the answer is what a fresh
    /// computation gives; the clock only decides whether memory is renewed.
    pub fn get_bottom(&mut self, count: usize, no_cache: bool, expire_len: u64) -> (bottom: Vec<
        (usize, Entry),
    >)
        requires
            old(self).wf(),
        ensures
            final(self).wf(),
            final(self)@ == old(self)@,
            final(self).cap() == old(self).cap(),
            final(self).index_state() == old(self).index_state(),
            bottom@ == bottom_of(old(self)@, count as int),
            final(self).top_cached() == old(self).top_cached(),
            final(self).bottom_wanted() == (old(self).bottom_wanted() || !no_cache),
            no_cache ==> final(self).bottom_cached() == old(self).bottom_cached(),
            final(self).bottom_cached() == old(self).bottom_cached() || final(self).bottom_cached()
                == Some(bottom@),
    {
        let now = crate::clock::current_time();
        self.get_bottom_at(count, no_cache, expire_len, now)
    }

    /// The key index that a run of entries makes when each is filed under its
    /// key in turn: of two entries with one key the later one stays.
    pub open spec fn filed(s: Seq<Entry>) -> Map<i64, Entry>
        decreases s.len(),
    {
        if s.len() == 0 {
            Map::empty()
        } else {
            Self::filed(s.drop_last()).insert(s.last().key, s.last())
        }
    }

    /// A board without a cap that holds the given entries: each is filed
    /// under its key in turn, and of two entries with one key the later one
    /// stays. The ranking is the one that agrees with that index.
    pub fn from_entries(entries: &Vec<Entry>) -> (board: Self)
        ensures
            board.wf(),
            board.cap() is None,
            board.index() == Self::filed(entries@),
            board.index_state().borrows == 0,
            board.top_cached() is None,
            board.bottom_cached() is None,
            board@.len() <= entries@.len(),
    {
        let mut board = Board::new();
        let mut i: usize = 0;
        assert(entries@.take(0) =~= Seq::<Entry>::empty());
        assert(board.index() =~= Self::filed(entries@.take(0)));
        while i < entries.len()
            invariant
                0 <= i <= entries@.len(),
                board.wf(),
                board.size_cap is None,
                board.map.state().borrows == 0,
                board.cache.top_cache is None,
                board.cache.bottom_cache is None,
                board.tree@.len() <= i,
                board.map@ == Self::filed(entries@.take(i as int)),
            decreases entries@.len() - i,
        {
            let e = entries[i];
            let ghost m0 = board.map@;
            if board.map.contains_key(&e.key) {
                board.remove_entry(&e.key);
            }
            proof {
                board.lemma_wf();
                assert(!board.index().contains_key(e.key));
                lemma_rank_bound(board@, e);
            }
            let r = board.add_entry(e);
            proof {
                let t = entries@.take(i + 1);
                assert(t.drop_last() =~= entries@.take(i as int));
                assert(t.last() == e);
                assert(m0.remove(e.key).insert(e.key, e) =~= m0.insert(e.key, e));
                assert(board.map@ =~= m0.insert(e.key, e));
            }
            i = i + 1;
        }
        assert(entries@.take(entries@.len() as int) =~= entries@);
        board
    }

    /// A board without a cap that holds the entries of the given map, each
    /// of which stands under its own key.
    pub fn from_map(map: std::collections::HashMap<i64, Entry>) -> (board: Self)
        requires
            Self::keyed(map@),
        ensures
            board.wf(),
            board.cap() is None,
            board.index() == map@,
            board.index_state().borrows == 0,
            board.top_cached() is None,
            board.bottom_cached() is None,
    {
        let held = DiffMap::from_map(map);
        let pairs = held.snapshot_pairs();
        let mut entries: Vec<Entry> = Vec::new();
        let mut i: usize = 0;
        while i < pairs.len()
            invariant
                0 <= i <= pairs@.len(),
                entries@.len() == i,
                forall|j: int| 0 <= j < i ==> entries@[j] == (#[trigger] pairs@[j]).1,
            decreases pairs@.len() - i,
        {
            entries.push(pairs[i].1);
            i = i + 1;
        }
        proof {
            let keys = pairs@.map_values(|p: (i64, Entry)| p.0);
            assert forall|j: int| 0 <= j < entries@.len() implies (#[trigger] entries@[j]).key
                == keys[j] && map@.contains_key(keys[j]) && map@[keys[j]] == entries@[j] by {
                assert(entries@[j] == pairs@[j].1);
                assert(keys[j] == pairs@[j].0);
            }
            assert forall|a: int, b: int|
                0 <= a < entries@.len() && 0 <= b < entries@.len() && a != b implies entries@[a]
                != entries@[b] by {
                assert(keys[a] != keys[b]);
            }
            assert forall|e: Entry|
                entries@.contains(e) <==> (map@.contains_key(e.key) && map@[e.key] == e) by {
                if entries@.contains(e) {
                    let j = choose|j: int| 0 <= j < entries@.len() && entries@[j] == e;
                    assert(entries@[j].key == keys[j]);
                }
                if map@.contains_key(e.key) && map@[e.key] == e {
                    assert(keys.to_set().contains(e.key));
                    let j = choose|j: int| 0 <= j < keys.len() && keys[j] == e.key;
                    assert(entries@[j] == e);
                }
            }
            crate::saver::lemma_filed_listing(entries@, map@);
        }
        Self::from_entries(&entries)
    }

    /// Like [`Board::from_map`], and calls `prog` with 1 for every entry
    /// taken up, so that a caller can show how far the work has come.
    pub fn from_map_prog<F: Fn(usize)>(map: std::collections::HashMap<i64, Entry>, prog: F) -> (board:
        Self)
        requires
            Self::keyed(map@),
            call_requires(prog, (1usize,)),
        ensures
            board.wf(),
            board.cap() is None,
            board.index() == map@,
            board.index_state().borrows == 0,
            board.top_cached() is None,
            board.bottom_cached() is None,
    {
        let mut left = map.len();
        while left > 0
            invariant
                call_requires(prog, (1usize,)),
            decreases left,
        {
            prog(1);
            left = left - 1;
        }
        Self::from_map(map)
    }

    /// A copy of the ranking as a tree of its own.
    pub fn get_tree_copy(&self) -> (tree: Tree<Entry>)
        requires
            self.wf(),
        ensures
            tree.wf(),
            tree@ == self@,
    {
        Tree::from_tree(&self.tree)
    }

    /// A board without a cap over the given tree, if the tree is well formed
    /// and no two of its entries carry the same key; `None` otherwise.
    pub fn try_from_tree(tree: Tree<Entry>) -> (made: Option<Self>)
        ensures
            made is Some == (tree.wf() && crate::window::keys_of(tree@).no_duplicates()),
            made matches Some(board) ==> board.wf() && board@ == tree@ && board.cap() is None
                && board.index_state().borrows == 0 && board.top_cached() is None
                && board.bottom_cached() is None,
    {
        if !tree.validate() {
            return None;
        }
        proof {
            tree.lemma_view();
        }
        let len = tree.len();
        let mut map: DiffMap<Entry> = DiffMap::with_capacity(len);
        let mut i: usize = 0;
        let ghost s = tree@;
        assert(agrees(s.take(0), map@));
        while i < len
            invariant
                tree.wf(),
                s == tree@,
                len == s.len(),
                0 <= i <= len,
                map.wf(),
                map.state().borrows == 0,
                Self::keyed(map.state().base),
                agrees(s.take(i as int), map@),
                crate::window::keys_of(s.take(i as int)).no_duplicates(),
            decreases len - i,
        {
            let e = match tree.at_index(i) {
                Some(e) => *e,
                None => vstd::pervasive::unreached(),
            };
            let ghost head = s.take(i as int);
            let ghost grown = s.take(i + 1);
            proof {
                assert(grown =~= head.insert(i as int, e));
                assert(crate::window::keys_of(grown) =~= crate::window::keys_of(head).push(e.key));
                crate::window::lemma_agrees_finds(head, map@, e.key);
            }
            if map.contains_key(&e.key) {
                proof {
                    let other = map@[e.key];
                    let j = choose|j: int| 0 <= j < head.len() && head[j] == other;
                    assert(crate::window::keys_of(s)[j] == crate::window::keys_of(s)[i as int]);
                }
                return None;
            }
            proof {
                lemma_agrees_insert(head, map@, i as int, e);
                assert forall|a: int, b: int|
                    0 <= a < grown.len() && 0 <= b < grown.len() && a != b implies crate::window::keys_of(
                    grown,
                )[a] != crate::window::keys_of(grown)[b] by {
                    if a == i {
                        assert(head[b].key != e.key);
                    } else if b == i {
                        assert(head[a].key != e.key);
                    } else {
                        assert(crate::window::keys_of(head)[a] != crate::window::keys_of(head)[b]);
                    }
                }
            }
            map.insert(e.key, e);
            i = i + 1;
        }
        assert(s.take(len as int) =~= s);
        map.shrink_to_fit();
        Some(
            Board {
                tree,
                map,
                size_cap: None,
                cache: Cache {
                    top_cache: None,
                    bottom_cache: None,
                    top_cache_time: 0,
                    bottom_cache_time: 0,
                    top_requested: false,
                    bottom_requested: false,
                },
            },
        )
    }

    /// A board without a cap over the given tree, in which no two entries
    /// carry the same key.
    pub fn from_tree(tree: Tree<Entry>) -> (board: Self)
        requires
            tree.wf(),
            crate::window::keys_of(tree@).no_duplicates(),
        ensures
            board.wf(),
            board@ == tree@,
            board.cap() is None,
            board.index_state().borrows == 0,
            board.top_cached() is None,
            board.bottom_cached() is None,
    {
        match Self::try_from_tree(tree) {
            Some(board) => board,
            None => vstd::pervasive::unreached(),
        }
    }

    /// Two well-formed boards with the same key index have the same ranking:
    /// the index decides the ranking.
    pub proof fn law_index_decides_ranking(&self, other: &Board)
        requires
            self.wf(),
            other.wf(),
            self.index() == other.index(),
        ensures
            self@ == other@,
    {
        self.lemma_wf();
        other.lemma_wf();
        let a = self@;
        let b = other@;
        assert forall|v: Entry| a.contains(v) <==> b.contains(v) by {
            if a.contains(v) {
                let i = choose|i: int| 0 <= i < a.len() && a[i] == v;
                assert(self.index()[a[i].key] == a[i]);
                assert(b.contains(other.index()[v.key]));
            }
            if b.contains(v) {
                let i = choose|i: int| 0 <= i < b.len() && b[i] == v;
                assert(other.index()[b[i].key] == b[i]);
                assert(a.contains(self.index()[v.key]));
            }
        }
        crate::ranking::lemma_descending_unique(a, b);
    }

    /// Rank and entry are inverse to each other: the entry of any rank of
    /// the board is filed under its key in the index, and looking its key up
    /// leads back to that rank.
    pub proof fn law_rank_bijection(&self, rank: usize)
        requires
            self.wf(),
            1 <= rank <= self@.len(),
        ensures
            self.index().contains_key(self@[rank - 1].key),
            self.index()[self@[rank - 1].key] == self@[rank - 1],
            rank_in(self@, self.index()[self@[rank - 1].key]) + 1 == rank,
    {
        self.lemma_wf();
        crate::ranking::lemma_rank_of_member(self@, rank - 1);
    }

    /// The points of the lowest-ranked entry; `None` on an empty board.
    pub fn get_min(&self) -> (min: Option<i64>)
        requires
            self.wf(),
        ensures
            min == (if self@.len() > 0 {
                Some(self@.last().points)
            } else {
                None
            }),
    {
        let len = self.tree.len();
        if len == 0 {
            None
        } else {
            Some(self.entry_at(len - 1).points)
        }
    }
}

} // verus!
