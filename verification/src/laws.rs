use crate::board::Board;
use crate::entry::Entry;
use crate::ranking::descending;
use crate::ranking::lemma_insert_descending;
use crate::ranking::lemma_rank_bound;
use crate::ranking::lemma_rank_of_member;
use crate::ranking::rank_in;
use crate::window::agrees;
use crate::window::least;
use vstd::prelude::*;

verus! {

/// Index and ranking of a board hold the same entries: they have the same
/// size, every entry of the index is ranked and stands under its own key,
/// and every ranked entry is in the index.
pub proof fn law_index_matches_ranking(board: &Board)
    requires
        board.wf(),
    ensures
        board.index().dom().finite(),
        board.index().dom().len() == board@.len(),
        forall|k: i64|
            board.index().contains_key(k) ==> board@.contains(#[trigger] board.index()[k])
                && board.index()[k].key == k,
        forall|i: int|
            0 <= i < board@.len() ==> board.index().contains_key((#[trigger] board@[i]).key)
                && board.index()[board@[i].key] == board@[i],
{
    board.lemma_wf();
}

/// Read in search order, the entries of a well-formed tree are strictly
/// ascending, and none occurs twice; read by rank they are strictly
/// descending.
pub proof fn law_total_order<T: crate::order::Ranked>(tree: &crate::tree::Tree<T>)
    requires
        tree.wf(),
    ensures
        crate::ranking::ascending(tree.in_order()),
        tree.in_order().no_duplicates(),
        tree.in_order() == tree@.reverse(),
        descending(tree@),
{
    tree.lemma_in_order();
    tree.lemma_view();
}

/// A remembered edge result of a well-formed board is what the query
/// computes afresh.
pub proof fn law_cache_current(board: &Board)
    requires
        board.wf(),
    ensures
        board.top_cached() matches Some(c) ==> c == crate::window::top_of(board@, c.len() as int),
        board.bottom_cached() matches Some(c) ==> c == crate::window::bottom_of(
            board@,
            c.len() as int,
        ),
{
    board.lemma_wf();
}

/// A snapshot that is taken while none is outstanding reads what readers
/// see at that moment, and goes on reading exactly that through any write,
/// deletion and clear that follows.
pub proof fn law_snapshot_isolated<V>(
    state: crate::diff_map::OverlayState<V>,
    key: i64,
    val: V,
    other: i64,
)
    requires
        state.wf(),
        state.borrows == 0,
    ensures
        state.lent().base == state.view(),
        state.lent().put(key, val).base == state.view(),
        state.lent().cut(key).base == state.view(),
        state.lent().wiped().base == state.view(),
        state.lent().put(key, val).cut(other).wiped().base == state.view(),
        state.lent().put(key, val).settled().view() == state.view().insert(key, val),
{
    state.law_lent();
    let lent = state.lent();
    lent.law_isolation(key, val);
    lent.put(key, val).law_isolation(other, val);
    lent.put(key, val).cut(other).law_isolation(other, val);
    lent.law_put(key, val);
    lent.put(key, val).law_settled();
}

/// Adding an entry under a new key to a board that has room, and then
/// removing that key, leaves the board as it was: the ranking and the index
/// are the old ones, and the key is not found.
pub proof fn law_add_then_remove(s: Seq<Entry>, index: Map<i64, Entry>, cap: Option<usize>, e: Entry)
    requires
        descending(s),
        agrees(s, index),
        !index.contains_key(e.key),
        cap matches Some(c) ==> s.len() < c,
    ensures
        Board::admits(s, cap, e),
        Board::with_added(s, cap, e).contains(e),
        Board::index_added(s, index, cap, e).contains_key(e.key),
        Board::index_added(s, index, cap, e)[e.key] == e,
        Board::with_added(s, cap, e).remove(rank_in(Board::with_added(s, cap, e), e) as int) == s,
        Board::index_added(s, index, cap, e).remove(e.key) == index,
        !Board::index_added(s, index, cap, e).remove(e.key).contains_key(e.key),
{
    let k = rank_in(s, e) as int;
    lemma_rank_bound(s, e);
    if s.contains(e) {
        let i = choose|i: int| 0 <= i < s.len() && s[i] == e;
        assert(index.contains_key(s[i].key));
    }
    lemma_insert_descending(s, e);
    let t = s.insert(k, e);
    assert(t == Board::with_added(s, cap, e));
    assert(t[k] == e);
    lemma_rank_of_member(t, k);
    assert(t.remove(k) =~= s);
    assert(index.insert(e.key, e).remove(e.key) =~= index);
}

/// Trimming to a cap leaves no more entries than the cap allows, and keeps
/// what ranks highest.
pub proof fn law_trim_within(s: Seq<Entry>, cap: usize)
    ensures
        s.take(least(cap as int, s.len() as int)).len() <= cap,
        forall|i: int|
            0 <= i < s.take(least(cap as int, s.len() as int)).len() ==> s.take(
                least(cap as int, s.len() as int),
            )[i] == s[i],
{
}

/// An update never takes a board that is within its cap past it, whatever
/// comes of it.
pub proof fn law_update_within_cap(
    s: Seq<Entry>,
    index: Map<i64, Entry>,
    cap: Option<usize>,
    id: i64,
    points: i64,
    now: u64,
)
    requires
        descending(s),
        agrees(s, index),
        cap matches Some(c) ==> s.len() <= c,
    ensures
        cap matches Some(c) ==> Board::update_outcome(s, index, cap, id, points, now).0.len() <= c,
{
    let e = Entry { timestamp: now, points, key: id };
    lemma_rank_bound(s, e);
    if index.contains_key(id) {
        let old_entry = index[id];
        assert(s.contains(old_entry));
        crate::ranking::lemma_rank_finds(s, old_entry);
        let t = s.remove(rank_in(s, old_entry) as int);
        lemma_rank_bound(t, e);
    }
}

} // verus!
