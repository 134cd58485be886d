use crate::order::lemma_asymmetric;
use crate::order::Ranked;
use vstd::prelude::*;

verus! {

/// Every element of `s` sorts before `v`.
pub open spec fn all_below<T: Ranked>(s: Seq<T>, v: T) -> bool {
    forall|i: int| 0 <= i < s.len() ==> (#[trigger] s[i]).below(v)
}

/// Every element of `s` sorts after `v`.
pub open spec fn all_above<T: Ranked>(s: Seq<T>, v: T) -> bool {
    forall|i: int| 0 <= i < s.len() ==> v.below(#[trigger] s[i])
}

/// `s` is strictly descending: each element outranks all that follow it.
pub open spec fn descending<T: Ranked>(s: Seq<T>) -> bool {
    forall|i: int, j: int| 0 <= i < j < s.len() ==> (#[trigger] s[j]).below(#[trigger] s[i])
}

/// `s` is strictly ascending: each element is outranked by all that follow it.
pub open spec fn ascending<T: Ranked>(s: Seq<T>) -> bool {
    forall|i: int, j: int| 0 <= i < j < s.len() ==> (#[trigger] s[i]).below(#[trigger] s[j])
}

/// How many elements of `s` outrank `v`. In a descending sequence this is the
/// position of `v`, or the position at which `v` would have to be inserted.
pub open spec fn rank_in<T: Ranked>(s: Seq<T>, v: T) -> nat
    decreases s.len(),
{
    if s.len() == 0 {
        0
    } else {
        rank_in(s.drop_last(), v) + if v.below(s.last()) {
            1nat
        } else {
            0nat
        }
    }
}

pub proof fn lemma_all_below_parts<T: Ranked>(a: Seq<T>, x: T, b: Seq<T>, v: T)
    ensures
        all_below(a.push(x) + b, v) <==> (all_below(a, v) && x.below(v) && all_below(b, v)),
{
    let s = a.push(x) + b;
    if all_below(s, v) {
        assert forall|i: int| 0 <= i < a.len() implies (#[trigger] a[i]).below(v) by {
            assert(s[i] == a[i]);
        }
        assert(s[a.len() as int] == x);
        assert forall|i: int| 0 <= i < b.len() implies (#[trigger] b[i]).below(v) by {
            assert(s[a.len() + 1 + i] == b[i]);
        }
    }
    if all_below(a, v) && x.below(v) && all_below(b, v) {
        assert forall|i: int| 0 <= i < s.len() implies (#[trigger] s[i]).below(v) by {
            if i < a.len() {
                assert(s[i] == a[i]);
            } else if i == a.len() {
                assert(s[i] == x);
            } else {
                assert(s[i] == b[i - a.len() - 1]);
            }
        }
    }
}

pub proof fn lemma_all_above_parts<T: Ranked>(a: Seq<T>, x: T, b: Seq<T>, v: T)
    ensures
        all_above(a.push(x) + b, v) <==> (all_above(a, v) && v.below(x) && all_above(b, v)),
{
    let s = a.push(x) + b;
    if all_above(s, v) {
        assert forall|i: int| 0 <= i < a.len() implies v.below(#[trigger] a[i]) by {
            assert(s[i] == a[i]);
        }
        assert(s[a.len() as int] == x);
        assert forall|i: int| 0 <= i < b.len() implies v.below(#[trigger] b[i]) by {
            assert(s[a.len() + 1 + i] == b[i]);
        }
    }
    if all_above(a, v) && v.below(x) && all_above(b, v) {
        assert forall|i: int| 0 <= i < s.len() implies v.below(#[trigger] s[i]) by {
            if i < a.len() {
                assert(s[i] == a[i]);
            } else if i == a.len() {
                assert(s[i] == x);
            } else {
                assert(s[i] == b[i - a.len() - 1]);
            }
        }
    }
}

/// What sorts before `v` sorts before anything above `v`.
pub proof fn lemma_all_below_widen<T: Ranked>(s: Seq<T>, v: T, w: T)
    requires
        all_below(s, v),
        v.below(w),
    ensures
        all_below(s, w),
{
    assert forall|i: int| 0 <= i < s.len() implies (#[trigger] s[i]).below(w) by {
        T::law_transitive(s[i], v, w);
    }
}

/// What sorts after `v` sorts after anything below `v`.
pub proof fn lemma_all_above_widen<T: Ranked>(s: Seq<T>, v: T, w: T)
    requires
        all_above(s, v),
        w.below(v),
    ensures
        all_above(s, w),
{
    assert forall|i: int| 0 <= i < s.len() implies w.below(#[trigger] s[i]) by {
        T::law_transitive(w, v, s[i]);
    }
}

/// A descending run, a value below it, and a descending run below that value
/// make one descending sequence; and the other way round.
pub proof fn lemma_descending_parts<T: Ranked>(a: Seq<T>, x: T, b: Seq<T>)
    ensures
        (descending(a) && descending(b) && all_above(a, x) && all_below(b, x)) <==> descending(
            a.push(x) + b,
        ),
{
    let s = a.push(x) + b;
    if descending(a) && descending(b) && all_above(a, x) && all_below(b, x) {
        assert forall|i: int, j: int| 0 <= i < j < s.len() implies (#[trigger] s[j]).below(
            #[trigger] s[i],
        ) by {
            if j < a.len() {
                assert(s[i] == a[i] && s[j] == a[j]);
            } else if j == a.len() {
                assert(s[i] == a[i] && s[j] == x);
            } else {
                let bj = b[j - a.len() - 1];
                assert(s[j] == bj);
                if i < a.len() {
                    assert(s[i] == a[i]);
                    T::law_transitive(bj, x, a[i]);
                } else if i == a.len() {
                    assert(s[i] == x);
                } else {
                    assert(s[i] == b[i - a.len() - 1]);
                }
            }
        }
    }
    if descending(s) {
        assert forall|i: int, j: int| 0 <= i < j < a.len() implies (#[trigger] a[j]).below(
            #[trigger] a[i],
        ) by {
            assert(s[i] == a[i] && s[j] == a[j]);
        }
        assert forall|i: int, j: int| 0 <= i < j < b.len() implies (#[trigger] b[j]).below(
            #[trigger] b[i],
        ) by {
            assert(s[a.len() + 1 + i] == b[i] && s[a.len() + 1 + j] == b[j]);
        }
        assert forall|i: int| 0 <= i < a.len() implies x.below(#[trigger] a[i]) by {
            assert(s[i] == a[i] && s[a.len() as int] == x);
        }
        assert forall|i: int| 0 <= i < b.len() implies (#[trigger] b[i]).below(x) by {
            assert(s[a.len() + 1 + i] == b[i] && s[a.len() as int] == x);
        }
    }
}

/// Counting the elements above `v` goes part by part.
pub proof fn lemma_rank_concat<T: Ranked>(a: Seq<T>, b: Seq<T>, v: T)
    ensures
        rank_in(a + b, v) == rank_in(a, v) + rank_in(b, v),
    decreases b.len(),
{
    if b.len() == 0 {
        assert(a + b =~= a);
    } else {
        assert((a + b).drop_last() =~= a + b.drop_last());
        assert((a + b).last() == b.last());
        lemma_rank_concat(a, b.drop_last(), v);
    }
}

pub proof fn lemma_rank_push<T: Ranked>(a: Seq<T>, x: T, v: T)
    ensures
        rank_in(a.push(x), v) == rank_in(a, v) + if v.below(x) {
            1nat
        } else {
            0nat
        },
{
    assert(a.push(x).drop_last() =~= a);
}

/// The count of elements above `v` never exceeds the length.
pub proof fn lemma_rank_bound<T: Ranked>(s: Seq<T>, v: T)
    ensures
        rank_in(s, v) <= s.len(),
    decreases s.len(),
{
    if s.len() > 0 {
        lemma_rank_bound(s.drop_last(), v);
    }
}

/// If all of `s` sorts after `v`, every element counts.
pub proof fn lemma_rank_all_above<T: Ranked>(s: Seq<T>, v: T)
    requires
        all_above(s, v),
    ensures
        rank_in(s, v) == s.len(),
    decreases s.len(),
{
    if s.len() > 0 {
        assert(all_above(s.drop_last(), v)) by {
            assert forall|i: int| 0 <= i < s.drop_last().len() implies v.below(
                #[trigger] s.drop_last()[i],
            ) by {
                assert(s.drop_last()[i] == s[i]);
            }
        }
        lemma_rank_all_above(s.drop_last(), v);
    }
}

/// If none of `s` sorts after `v`, nothing counts.
pub proof fn lemma_rank_none_above<T: Ranked>(s: Seq<T>, v: T)
    requires
        forall|i: int| 0 <= i < s.len() ==> !v.below(#[trigger] s[i]),
    ensures
        rank_in(s, v) == 0,
    decreases s.len(),
{
    if s.len() > 0 {
        assert forall|i: int| 0 <= i < s.drop_last().len() implies !v.below(
            #[trigger] s.drop_last()[i],
        ) by {
            assert(s.drop_last()[i] == s[i]);
        }
        lemma_rank_none_above(s.drop_last(), v);
    }
}

/// If all of `s` sorts before `v`, nothing counts.
pub proof fn lemma_rank_all_below<T: Ranked>(s: Seq<T>, v: T)
    requires
        all_below(s, v),
    ensures
        rank_in(s, v) == 0,
{
    assert forall|i: int| 0 <= i < s.len() implies !v.below(#[trigger] s[i]) by {
        lemma_asymmetric(s[i], v);
    }
    lemma_rank_none_above(s, v);
}

/// In a descending sequence, a position `k` that has only greater elements
/// before it and none from it onwards is the rank of `v`.
pub proof fn lemma_rank_at_cut<T: Ranked>(s: Seq<T>, v: T, k: int)
    requires
        0 <= k <= s.len(),
        forall|i: int| 0 <= i < k ==> v.below(#[trigger] s[i]),
        forall|i: int| k <= i < s.len() ==> !v.below(#[trigger] s[i]),
    ensures
        rank_in(s, v) == k,
{
    let a = s.subrange(0, k);
    let b = s.subrange(k, s.len() as int);
    assert(s =~= a + b);
    lemma_rank_concat(a, b, v);
    lemma_rank_all_above(a, v);
    lemma_rank_none_above(b, v);
}

/// In a descending sequence every element stands at its own rank.
pub proof fn lemma_rank_of_member<T: Ranked>(s: Seq<T>, i: int)
    requires
        descending(s),
        0 <= i < s.len(),
    ensures
        rank_in(s, s[i]) == i,
{
    let v = s[i];
    assert forall|j: int| i <= j < s.len() implies !v.below(#[trigger] s[j]) by {
        if j == i {
            T::law_irreflexive(v);
        } else {
            lemma_asymmetric(s[j], v);
        }
    }
    lemma_rank_at_cut(s, v, i);
}

/// In a descending sequence, the element at the rank of `v` is `v` itself if
/// `v` occurs at all.
pub proof fn lemma_rank_finds<T: Ranked>(s: Seq<T>, v: T)
    requires
        descending(s),
    ensures
        s.contains(v) <==> (rank_in(s, v) < s.len() && s[rank_in(s, v) as int] == v),
{
    lemma_rank_bound(s, v);
    if s.contains(v) {
        let i = choose|i: int| 0 <= i < s.len() && s[i] == v;
        lemma_rank_of_member(s, i);
    }
}

/// A descending sequence holds no value twice.
pub proof fn lemma_descending_distinct<T: Ranked>(s: Seq<T>)
    requires
        descending(s),
    ensures
        s.no_duplicates(),
{
    assert forall|i: int, j: int| 0 <= i < s.len() && 0 <= j < s.len() && i != j implies s[i]
        != s[j] by {
        if i < j {
            lemma_asymmetric(s[j], s[i]);
        } else {
            lemma_asymmetric(s[i], s[j]);
        }
    }
}

/// In a descending sequence, everything before the rank of `v` outranks `v`,
/// and nothing from the rank of `v` onwards does.
pub proof fn lemma_rank_cuts<T: Ranked>(s: Seq<T>, v: T)
    requires
        descending(s),
    ensures
        rank_in(s, v) <= s.len(),
        forall|i: int| 0 <= i < rank_in(s, v) ==> v.below(#[trigger] s[i]),
        forall|i: int| rank_in(s, v) <= i < s.len() ==> !v.below(#[trigger] s[i]),
    decreases s.len(),
{
    lemma_rank_bound(s, v);
    if s.len() > 0 {
        let t = s.drop_last();
        assert(descending(t)) by {
            assert forall|i: int, j: int| 0 <= i < j < t.len() implies (#[trigger] t[j]).below(
                #[trigger] t[i],
            ) by {
                assert(t[i] == s[i] && t[j] == s[j]);
            }
        }
        lemma_rank_cuts(t, v);
        lemma_rank_bound(t, v);
        assert forall|i: int| 0 <= i < rank_in(s, v) implies v.below(#[trigger] s[i]) by {
            if i < rank_in(t, v) {
                assert(t[i] == s[i]);
            } else {
                // i == rank_in(t, v), so the last element counted
                assert(v.below(s.last()));
                if i < s.len() - 1 {
                    assert(s.last().below(s[i]));
                    T::law_transitive(v, s.last(), s[i]);
                }
            }
        }
        assert forall|i: int| rank_in(s, v) <= i < s.len() implies !v.below(#[trigger] s[i]) by {
            if i < s.len() - 1 {
                assert(t[i] == s[i]);
            } else {
                if v.below(s.last()) {
                    // then every element of t is above v as well
                    assert forall|j: int| 0 <= j < t.len() implies v.below(#[trigger] t[j]) by {
                        assert(t[j] == s[j]);
                        assert(s.last().below(s[j]));
                        T::law_transitive(v, s.last(), s[j]);
                    }
                    lemma_rank_all_above(t, v);
                }
            }
        }
    }
}

/// Inserting a new value at its rank keeps a descending sequence descending.
pub proof fn lemma_insert_descending<T: Ranked>(s: Seq<T>, v: T)
    requires
        descending(s),
        !s.contains(v),
    ensures
        rank_in(s, v) <= s.len(),
        descending(s.insert(rank_in(s, v) as int, v)),
{
    lemma_rank_cuts(s, v);
    let k = rank_in(s, v) as int;
    let t = s.insert(k, v);
    assert forall|i: int, j: int| 0 <= i < j < t.len() implies (#[trigger] t[j]).below(
        #[trigger] t[i],
    ) by {
        if j < k {
            assert(t[i] == s[i] && t[j] == s[j]);
        } else if j == k {
            assert(t[i] == s[i]);
        } else {
            assert(t[j] == s[j - 1]);
            if i < k {
                assert(t[i] == s[i]);
            } else if i == k {
                assert(!v.below(s[j - 1]));
                T::law_connected(v, s[j - 1]);
                assert(s.contains(s[j - 1]));
            } else {
                assert(t[i] == s[i - 1]);
            }
        }
    }
}

/// Removing an element keeps a descending sequence descending.
pub proof fn lemma_remove_descending<T: Ranked>(s: Seq<T>, k: int)
    requires
        descending(s),
        0 <= k < s.len(),
    ensures
        descending(s.remove(k)),
        !s.remove(k).contains(s[k]),
{
    let t = s.remove(k);
    assert forall|i: int, j: int| 0 <= i < j < t.len() implies (#[trigger] t[j]).below(
        #[trigger] t[i],
    ) by {
        let si = if i < k {
            i
        } else {
            i + 1
        };
        let sj = if j < k {
            j
        } else {
            j + 1
        };
        assert(t[i] == s[si] && t[j] == s[sj]);
    }
    lemma_descending_distinct(s);
    if t.contains(s[k]) {
        let i = choose|i: int| 0 <= i < t.len() && t[i] == s[k];
        let si = if i < k {
            i
        } else {
            i + 1
        };
        assert(t[i] == s[si]);
    }
}

/// Two descending sequences with the same elements are the same sequence.
pub proof fn lemma_descending_unique<T: Ranked>(a: Seq<T>, b: Seq<T>)
    requires
        descending(a),
        descending(b),
        forall|v: T| a.contains(v) <==> b.contains(v),
    ensures
        a == b,
    decreases a.len(),
{
    if a.len() == 0 {
        if b.len() > 0 {
            assert(b.contains(b[0]));
        }
        assert(a =~= b);
    } else {
        assert(a.contains(a[0]));
        assert(b.contains(a[0]));
        assert(b.contains(b[0]));
        assert(a.contains(b[0]));
        let i = choose|i: int| 0 <= i < b.len() && b[i] == a[0];
        let j = choose|j: int| 0 <= j < a.len() && a[j] == b[0];
        if i != 0 && j != 0 {
            // a[0] is below b[0] and b[0] is below a[0]
            lemma_asymmetric(b[i], b[0]);
        }
        if i != 0 {
            // j == 0
            T::law_irreflexive(a[0]);
        }
        assert(a[0] == b[0]);
        let a1 = a.remove(0);
        let b1 = b.remove(0);
        lemma_remove_descending(a, 0);
        lemma_remove_descending(b, 0);
        assert forall|v: T| a1.contains(v) <==> b1.contains(v) by {
            if a1.contains(v) {
                let k = choose|k: int| 0 <= k < a1.len() && a1[k] == v;
                assert(a[k + 1] == v);
                assert(a.contains(v));
                let m = choose|m: int| 0 <= m < b.len() && b[m] == v;
                assert(m != 0);
                assert(b1[m - 1] == v);
            }
            if b1.contains(v) {
                let k = choose|k: int| 0 <= k < b1.len() && b1[k] == v;
                assert(b[k + 1] == v);
                assert(b.contains(v));
                let m = choose|m: int| 0 <= m < a.len() && a[m] == v;
                assert(m != 0);
                assert(a1[m - 1] == v);
            }
        }
        lemma_descending_unique(a1, b1);
        assert(a =~= seq![a[0]] + a1);
        assert(b =~= seq![b[0]] + b1);
    }
}

/// A value occurs in `a`, then `x`, then `b` exactly if it occurs in one of the three.
pub proof fn lemma_contains_parts<T>(a: Seq<T>, x: T, b: Seq<T>, v: T)
    ensures
        (a.push(x) + b).contains(v) <==> (a.contains(v) || x == v || b.contains(v)),
{
    let s = a.push(x) + b;
    if s.contains(v) {
        let i = choose|i: int| 0 <= i < s.len() && s[i] == v;
        if i < a.len() {
            assert(a[i] == v);
        } else if i > a.len() {
            assert(b[i - a.len() - 1] == v);
        }
    }
    if a.contains(v) {
        let i = choose|i: int| 0 <= i < a.len() && a[i] == v;
        assert(s[i] == v);
    }
    if x == v {
        assert(s[a.len() as int] == v);
    }
    if b.contains(v) {
        let i = choose|i: int| 0 <= i < b.len() && b[i] == v;
        assert(s[a.len() + 1 + i] == v);
    }
}

/// After an insertion everything sorts before `e` exactly if it did and the
/// new value does.
pub proof fn lemma_all_below_insert<T: Ranked>(s: Seq<T>, k: int, v: T, e: T)
    requires
        0 <= k <= s.len(),
    ensures
        all_below(s.insert(k, v), e) <==> (all_below(s, e) && v.below(e)),
{
    let t = s.insert(k, v);
    if all_below(t, e) {
        assert(t[k] == v);
        assert forall|i: int| 0 <= i < s.len() implies (#[trigger] s[i]).below(e) by {
            if i < k {
                assert(t[i] == s[i]);
            } else {
                assert(t[i + 1] == s[i]);
            }
        }
    }
    if all_below(s, e) && v.below(e) {
        assert forall|i: int| 0 <= i < t.len() implies (#[trigger] t[i]).below(e) by {
            if i < k {
                assert(t[i] == s[i]);
            } else if i > k {
                assert(t[i] == s[i - 1]);
            }
        }
    }
}

/// After an insertion everything sorts after `e` exactly if it did and the
/// new value does.
pub proof fn lemma_all_above_insert<T: Ranked>(s: Seq<T>, k: int, v: T, e: T)
    requires
        0 <= k <= s.len(),
    ensures
        all_above(s.insert(k, v), e) <==> (all_above(s, e) && e.below(v)),
{
    let t = s.insert(k, v);
    if all_above(t, e) {
        assert(t[k] == v);
        assert forall|i: int| 0 <= i < s.len() implies e.below(#[trigger] s[i]) by {
            if i < k {
                assert(t[i] == s[i]);
            } else {
                assert(t[i + 1] == s[i]);
            }
        }
    }
    if all_above(s, e) && e.below(v) {
        assert forall|i: int| 0 <= i < t.len() implies e.below(#[trigger] t[i]) by {
            if i < k {
                assert(t[i] == s[i]);
            } else if i > k {
                assert(t[i] == s[i - 1]);
            }
        }
    }
}

/// Taking an element out leaves the bounds on the others in place.
pub proof fn lemma_bounds_remove<T: Ranked>(s: Seq<T>, k: int, e: T)
    requires
        0 <= k < s.len(),
    ensures
        all_below(s, e) ==> all_below(s.remove(k), e),
        all_above(s, e) ==> all_above(s.remove(k), e),
{
    let t = s.remove(k);
    assert forall|i: int| 0 <= i < t.len() implies t[i] == s[if i < k {
        i
    } else {
        i + 1
    }] by {}
    if all_below(s, e) {
        assert forall|i: int| 0 <= i < t.len() implies (#[trigger] t[i]).below(e) by {
            assert(t[i] == s[if i < k {
                i
            } else {
                i + 1
            }]);
        }
    }
    if all_above(s, e) {
        assert forall|i: int| 0 <= i < t.len() implies e.below(#[trigger] t[i]) by {
            assert(t[i] == s[if i < k {
                i
            } else {
                i + 1
            }]);
        }
    }
}

/// A value that everything in `s` sorts before, or after, does not occur in `s`.
pub proof fn lemma_bounds_exclude<T: Ranked>(s: Seq<T>, v: T)
    ensures
        all_below(s, v) ==> !s.contains(v),
        all_above(s, v) ==> !s.contains(v),
{
    if s.contains(v) {
        let i = choose|i: int| 0 <= i < s.len() && s[i] == v;
        T::law_irreflexive(v);
    }
}

/// Where a value goes in a node's ranked entries, given the side of the node
/// on which it belongs: the ranked entries are the right part `r`, the node's
/// entry `e` and the left part `l`.
pub proof fn lemma_rank_by_side<T: Ranked>(r: Seq<T>, e: T, l: Seq<T>, v: T)
    requires
        all_above(r, e),
        all_below(l, e),
    ensures
        e.below(v) ==> rank_in(r.push(e) + l, v) == rank_in(r, v) && !l.contains(v) && all_below(
            l,
            v,
        ),
        v.below(e) ==> rank_in(r.push(e) + l, v) == r.len() + 1 + rank_in(l, v) && !r.contains(v)
            && all_above(r, v),
        v == e ==> rank_in(r.push(e) + l, v) == r.len() && !r.contains(v) && !l.contains(v),
        (r.push(e) + l).contains(v) <==> (r.contains(v) || e == v || l.contains(v)),
{
    lemma_rank_concat(r.push(e), l, v);
    lemma_rank_push(r, e, v);
    lemma_contains_parts(r, e, l, v);
    if e.below(v) {
        lemma_asymmetric(e, v);
        lemma_all_below_widen(l, e, v);
        lemma_rank_all_below(l, v);
        lemma_bounds_exclude(l, v);
    }
    if v.below(e) {
        lemma_asymmetric(v, e);
        lemma_all_above_widen(r, e, v);
        lemma_rank_all_above(r, v);
        lemma_bounds_exclude(r, v);
    }
    if v == e {
        T::law_irreflexive(e);
        lemma_rank_all_above(r, v);
        lemma_rank_all_below(l, v);
        lemma_bounds_exclude(l, v);
        lemma_bounds_exclude(r, v);
    }
}

} // verus!
