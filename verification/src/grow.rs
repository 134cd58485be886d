use crate::node::Node;
use crate::order::Ranked;
use crate::ranking::lemma_all_above_insert;
use crate::ranking::lemma_all_below_insert;
use crate::ranking::lemma_rank_bound;
use crate::ranking::lemma_rank_by_side;
use crate::ranking::rank_in;
use vstd::prelude::*;

verus! {

impl<T: Ranked> Node<T> {
    /// The node's ranked entries after `v` went into the subtree on the side
    /// where it belongs are the old ones with `v` inserted at its rank.
    proof fn lemma_grown(self, v: T, sub: Seq<T>)
        requires
            self.loose(),
            v != self.entry,
            sub == Self::ranked_of(self.child(self.entry.below(v))).insert(
                rank_in(Self::ranked_of(self.child(self.entry.below(v))), v) as int,
                v,
            ),
        ensures
            !self.entry.below(v) ==> v.below(self.entry),
            self.ranked().contains(v) == Self::ranked_of(self.child(self.entry.below(v))).contains(v),
            rank_in(self.ranked(), v) <= self.ranked().len(),
            self.entry.below(v) ==> Self::ranked_of(self.right).insert(
                rank_in(Self::ranked_of(self.right), v) as int,
                v,
            ).push(self.entry) + Self::ranked_of(self.left) == self.ranked().insert(
                rank_in(self.ranked(), v) as int,
                v,
            ),
            !self.entry.below(v) ==> Self::ranked_of(self.right).push(self.entry)
                + Self::ranked_of(self.left).insert(
                rank_in(Self::ranked_of(self.left), v) as int,
                v,
            ) == self.ranked().insert(rank_in(self.ranked(), v) as int, v),
            self.entry.below(v) ==> crate::ranking::all_above(sub, self.entry),
            !self.entry.below(v) ==> crate::ranking::all_below(sub, self.entry),
    {
        let r = Self::ranked_of(self.right);
        let l = Self::ranked_of(self.left);
        let e = self.entry;
        T::law_connected(e, v);
        lemma_rank_by_side(r, e, l, v);
        lemma_rank_bound(r, v);
        lemma_rank_bound(l, v);
        lemma_rank_bound(self.ranked(), v);
        if e.below(v) {
            let k = rank_in(r, v) as int;
            assert(r.insert(k, v).push(e) + l =~= (r.push(e) + l).insert(k, v));
            lemma_all_above_insert(r, k, v, e);
        } else {
            let k = rank_in(l, v) as int;
            assert(r.push(e) + l.insert(k, v) =~= (r.push(e) + l).insert(r.len() + 1 + k, v));
            lemma_all_below_insert(l, k, v, e);
        }
    }

    /// What holds of a node after `v` went into the subtree on the side where
    /// it belongs, before the node's own bookkeeping is brought up to date.
    proof fn lemma_grown_node(self, after: Node<T>, v: T)
        requires
            self.wf(),
            self.count < usize::MAX,
            v != self.entry,
            after.entry == self.entry,
            after.child(!self.entry.below(v)) == self.child(!self.entry.below(v)),
            Self::wf_of(after.child(self.entry.below(v))),
            Self::ranked_of(after.child(self.entry.below(v))) == Self::ranked_of(
                self.child(self.entry.below(v)),
            ).insert(rank_in(Self::ranked_of(self.child(self.entry.below(v))), v) as int, v),
            Self::height_of(after.child(self.entry.below(v))) == Self::height_of(
                self.child(self.entry.below(v)),
            ) || Self::height_of(after.child(self.entry.below(v))) == Self::height_of(
                self.child(self.entry.below(v)),
            ) + 1,
        ensures
            after.loose(),
            after.tilted() || !after.lopsided(),
            after.due_count() == self.count + 1,
            after.ranked() == self.ranked().insert(rank_in(self.ranked(), v) as int, v),
            !self.ranked().contains(v),
            after.due_height() == self.height || after.due_height() == self.height + 1,
            after.lopsided() ==> after.due_height() == self.height + 1,
    {
        let side = self.entry.below(v);
        let sub_old = Self::ranked_of(self.child(side));
        lemma_rank_bound(sub_old, v);
        self.lemma_grown(v, sub_old.insert(rank_in(sub_old, v) as int, v));
        Self::lemma_count_of(self.left);
        Self::lemma_count_of(self.right);
        Self::lemma_count_of(after.left);
        Self::lemma_count_of(after.right);
        crate::ranking::lemma_bounds_exclude(sub_old, v);
        Self::lemma_ranked_descending(after.child(side));
        crate::ranking::lemma_descending_distinct(Self::ranked_of(after.child(side)));
        if sub_old.contains(v) {
            let i = choose|i: int| 0 <= i < sub_old.len() && sub_old[i] == v;
            let k = rank_in(sub_old, v) as int;
            let t = sub_old.insert(k, v);
            assert(t[k] == v);
            if i < k {
                assert(t[i] == v);
            } else {
                assert(t[i + 1] == v);
            }
        }
    }

    /// What holds of a node whose entry is `v` itself.
    proof fn lemma_found_here(self, v: T)
        requires
            self.wf(),
            v == self.entry,
        ensures
            self.ranked().contains(v),
            rank_in(self.ranked(), v) == Self::count_of(self.right),
    {
        lemma_rank_by_side(Self::ranked_of(self.right), self.entry, Self::ranked_of(self.left), v);
        Self::lemma_count_of(self.right);
    }

    /// Inserts `val` into the subtree on the side `right` of `parent`, unless
    /// an equal entry is there already, and keeps that subtree balanced.
    /// Returns whether `val` went in.
    pub fn insert_step(parent: &mut Node<T>, right: bool, val: T) -> (inserted: bool)
        requires
            Self::wf_of(old(parent).child(right)),
            Self::count_of(old(parent).child(right)) < usize::MAX,
        ensures
            Self::wf_of(final(parent).child(right)),
            inserted == !Self::ranked_of(old(parent).child(right)).contains(val),
            inserted ==> Self::ranked_of(final(parent).child(right)) == Self::ranked_of(
                old(parent).child(right),
            ).insert(rank_in(Self::ranked_of(old(parent).child(right)), val) as int, val),
            !inserted ==> final(parent).child(right) == old(parent).child(right),
            Self::height_of(final(parent).child(right)) == Self::height_of(old(parent).child(right))
                || (inserted && Self::height_of(final(parent).child(right)) == Self::height_of(
                old(parent).child(right),
            ) + 1),
            final(parent).child(!right) == old(parent).child(!right),
            final(parent).entry == old(parent).entry,
            final(parent).count == old(parent).count,
            final(parent).height == old(parent).height,
        decreases old(parent).child(right),
    {
        let link = parent.take_child(right);
        match link {
            None => {
                let leaf = Node { left: None, right: None, entry: val, count: 1, height: 1 };
                proof {
                    let s = Seq::<T>::empty();
                    assert(leaf.ranked() =~= s.insert(0, val));
                    assert(rank_in(s, val) == 0);
                    assert(!s.contains(val));
                }
                parent.put_child(right, Some(Box::new(leaf)));
                true
            },
            Some(mut node) => {
                let ghost before = *node;
                if val.is_same(&node.entry) {
                    proof {
                        before.lemma_found_here(val);
                    }
                    parent.put_child(right, Some(node));
                    false
                } else {
                    let go_right = node.entry.is_below(&val);
                    proof {
                        Self::lemma_count_of(before.child(go_right));
                        Self::lemma_count_of(before.child(!go_right));
                    }
                    let inserted = Self::insert_step(&mut *node, go_right, val);
                    let ghost after = *node;
                    if inserted {
                        proof {
                            before.lemma_grown_node(after, val);
                        }
                        parent.put_child(right, Some(node));
                        parent.settle_child(right);
                        true
                    } else {
                        proof {
                            assert(after == before);
                            T::law_connected(before.entry, val);
                            lemma_rank_by_side(
                                Self::ranked_of(before.right),
                                before.entry,
                                Self::ranked_of(before.left),
                                val,
                            );
                        }
                        parent.put_child(right, Some(node));
                        false
                    }
                }
            },
        }
    }
}

} // verus!
