use crate::entry::Entry;
use vstd::prelude::*;

verus! {

/// The smaller of two numbers.
pub open spec fn least(a: int, b: int) -> int {
    if a <= b {
        a
    } else {
        b
    }
}

/// The first `n` entries of a ranking with their ranks, counted from 1.
pub open spec fn top_of(s: Seq<Entry>, n: int) -> Seq<(usize, Entry)> {
    Seq::new(least(n, s.len() as int) as nat, |i: int| ((i + 1) as usize, s[i]))
}

/// The last `n` entries of a ranking with their ranks, lowest-ranked first.
pub open spec fn bottom_of(s: Seq<Entry>, n: int) -> Seq<(usize, Entry)> {
    Seq::new(
        least(n, s.len() as int) as nat,
        |i: int| ((s.len() - i) as usize, s[s.len() - 1 - i]),
    )
}

/// Up to `n` entries that follow position `pos` in a ranking, with their
/// ranks, nearest first.
pub open spec fn after_of(s: Seq<Entry>, pos: int, n: int) -> Seq<(usize, Entry)> {
    Seq::new(least(n, s.len() - 1 - pos) as nat, |i: int| ((pos + 2 + i) as usize, s[pos + 1 + i]))
}

/// Up to `n` entries that precede position `pos` in a ranking, with their
/// ranks, nearest first.
pub open spec fn before_of(s: Seq<Entry>, pos: int, n: int) -> Seq<(usize, Entry)> {
    Seq::new(least(n, pos) as nat, |i: int| ((pos - i) as usize, s[pos - 1 - i]))
}

/// The entry at position `pos` with up to `before` entries ahead of it and
/// up to `after` entries behind it, in ascending rank.
pub open spec fn around_of(s: Seq<Entry>, pos: int, before: int, after: int) -> Seq<(usize, Entry)> {
    Seq::new(
        (least(before, pos) + 1 + least(after, s.len() - 1 - pos)) as nat,
        |i: int| ((pos - least(before, pos) + i + 1) as usize, s[pos - least(before, pos) + i]),
    )
}

/// The entries with ranks from `start` to `end`, both included and counted
/// from 1, as far as the ranking has them. Empty if `start` is 0, beyond the
/// ranking, or beyond `end`.
pub open spec fn range_of(s: Seq<Entry>, start: int, end: int) -> Seq<(usize, Entry)> {
    if start <= 0 || end < start || start > s.len() {
        Seq::empty()
    } else {
        Seq::new(
            (least(end, s.len() as int) - start + 1) as nat,
            |i: int| ((start + i) as usize, s[start - 1 + i]),
        )
    }
}

/// A ranking and a key index agree: every ranked entry is indexed under its
/// key, and every indexed entry is ranked and carries the key it is indexed
/// under.
pub open spec fn agrees(ranked: Seq<Entry>, index: Map<i64, Entry>) -> bool {
    &&& forall|i: int|
        0 <= i < ranked.len() ==> index.contains_key((#[trigger] ranked[i]).key) && index[ranked[i].key]
            == ranked[i]
    &&& forall|k: i64|
        index.contains_key(k) ==> (#[trigger] index[k]).key == k && ranked.contains(index[k])
}

/// The keys of a ranking, in rank order.
pub open spec fn keys_of(ranked: Seq<Entry>) -> Seq<i64> {
    ranked.map_values(|e: Entry| e.key)
}

/// Where ranking and index agree and no entry is ranked twice, no key
/// occurs twice either, the index has exactly the ranked keys, and both have
/// the same size.
pub proof fn lemma_agrees_size(ranked: Seq<Entry>, index: Map<i64, Entry>)
    requires
        agrees(ranked, index),
        ranked.no_duplicates(),
    ensures
        keys_of(ranked).no_duplicates(),
        keys_of(ranked).to_set() == index.dom(),
        index.dom().finite(),
        index.dom().len() == ranked.len(),
{
    let keys = keys_of(ranked);
    assert forall|i: int, j: int| 0 <= i < keys.len() && 0 <= j < keys.len() && i != j implies keys[i]
        != keys[j] by {
        if keys[i] == keys[j] {
            assert(index[ranked[i].key] == ranked[i]);
            assert(index[ranked[j].key] == ranked[j]);
        }
    }
    assert forall|k: i64| keys.to_set().contains(k) == index.dom().contains(k) by {
        if keys.to_set().contains(k) {
            let i = choose|i: int| 0 <= i < keys.len() && keys[i] == k;
            assert(index.contains_key(ranked[i].key));
        }
        if index.dom().contains(k) {
            let e = index[k];
            assert(ranked.contains(e));
            let i = choose|i: int| 0 <= i < ranked.len() && ranked[i] == e;
            assert(keys[i] == k);
        }
    }
    assert(keys.to_set() =~= index.dom());
    keys.unique_seq_to_set();
}

/// Ranking a new entry under a key that is not indexed yet keeps the two in
/// agreement.
pub proof fn lemma_agrees_insert(ranked: Seq<Entry>, index: Map<i64, Entry>, pos: int, e: Entry)
    requires
        agrees(ranked, index),
        !index.contains_key(e.key),
        0 <= pos <= ranked.len(),
    ensures
        agrees(ranked.insert(pos, e), index.insert(e.key, e)),
{
    let r2 = ranked.insert(pos, e);
    let m2 = index.insert(e.key, e);
    assert forall|i: int| 0 <= i < r2.len() implies m2.contains_key((#[trigger] r2[i]).key)
        && m2[r2[i].key] == r2[i] by {
        if i < pos {
            assert(r2[i] == ranked[i]);
        } else if i > pos {
            assert(r2[i] == ranked[i - 1]);
        }
    }
    assert forall|k: i64| m2.contains_key(k) implies (#[trigger] m2[k]).key == k && r2.contains(
        m2[k],
    ) by {
        if k == e.key {
            assert(r2[pos] == e);
        } else {
            let i = choose|i: int| 0 <= i < ranked.len() && ranked[i] == index[k];
            if i < pos {
                assert(r2[i] == ranked[i]);
            } else {
                assert(r2[i + 1] == ranked[i]);
            }
        }
    }
}

/// Taking an entry out of the ranking and its key out of the index keeps the
/// two in agreement.
pub proof fn lemma_agrees_remove(ranked: Seq<Entry>, index: Map<i64, Entry>, pos: int)
    requires
        agrees(ranked, index),
        ranked.no_duplicates(),
        0 <= pos < ranked.len(),
    ensures
        agrees(ranked.remove(pos), index.remove(ranked[pos].key)),
        !index.remove(ranked[pos].key).contains_key(ranked[pos].key),
{
    let r2 = ranked.remove(pos);
    let gone = ranked[pos];
    let m2 = index.remove(gone.key);
    assert forall|i: int| 0 <= i < r2.len() implies m2.contains_key((#[trigger] r2[i]).key)
        && m2[r2[i].key] == r2[i] by {
        let j = if i < pos {
            i
        } else {
            i + 1
        };
        assert(r2[i] == ranked[j]);
        assert(index[ranked[j].key] == ranked[j]);
        assert(index[ranked[pos].key] == ranked[pos]);
    }
    assert forall|k: i64| m2.contains_key(k) implies (#[trigger] m2[k]).key == k && r2.contains(
        m2[k],
    ) by {
        let i = choose|i: int| 0 <= i < ranked.len() && ranked[i] == index[k];
        assert(i != pos);
        if i < pos {
            assert(r2[i] == ranked[i]);
        } else {
            assert(r2[i - 1] == ranked[i]);
        }
    }
}

/// In agreeing ranking and index, the entry indexed under a key stands in
/// the ranking, and nothing else there carries that key.
pub proof fn lemma_agrees_finds(ranked: Seq<Entry>, index: Map<i64, Entry>, key: i64)
    requires
        agrees(ranked, index),
    ensures
        index.contains_key(key) ==> ranked.contains(index[key]) && index[key].key == key,
        !index.contains_key(key) ==> forall|i: int|
            0 <= i < ranked.len() ==> (#[trigger] ranked[i]).key != key,
        forall|i: int| 0 <= i < ranked.len() && (#[trigger] ranked[i]).key == key ==> ranked[i] == index[key],
{
}

} // verus!
