use crate::node::Node;
use crate::order::Ranked;
use crate::ranking::all_below;
use crate::ranking::lemma_all_above_widen;
use crate::ranking::lemma_bounds_remove;
use crate::ranking::lemma_rank_by_side;
use crate::ranking::rank_in;
use vstd::prelude::*;

verus! {

impl<T: Ranked> Node<T> {
    /// What holds of a node after the entry at position `k` of the subtree on
    /// the side `side` was taken out, before the node's own bookkeeping is
    /// brought up to date.
    proof fn lemma_shrunk_node(self, after: Node<T>, side: bool, k: int)
        requires
            self.wf(),
            after.entry == self.entry,
            after.child(!side) == self.child(!side),
            Self::wf_of(after.child(side)),
            0 <= k < Self::ranked_of(self.child(side)).len(),
            Self::ranked_of(after.child(side)) == Self::ranked_of(self.child(side)).remove(k),
            Self::height_of(after.child(side)) == Self::height_of(self.child(side))
                || Self::height_of(after.child(side)) + 1 == Self::height_of(self.child(side)),
        ensures
            after.loose(),
            after.tilted() || !after.lopsided(),
            after.due_count() + 1 == self.count,
            side ==> after.ranked() == self.ranked().remove(k),
            !side ==> after.ranked() == self.ranked().remove(
                Self::ranked_of(self.right).len() + 1 + k,
            ),
            after.due_height() == self.height || after.due_height() + 1 == self.height,
            after.lopsided() ==> after.due_height() == self.height,
    {
        let r = Self::ranked_of(self.right);
        let l = Self::ranked_of(self.left);
        let e = self.entry;
        Self::lemma_count_of(self.left);
        Self::lemma_count_of(self.right);
        Self::lemma_count_of(after.left);
        Self::lemma_count_of(after.right);
        if side {
            lemma_bounds_remove(r, k, e);
            assert(r.remove(k).push(e) + l =~= (r.push(e) + l).remove(k));
        } else {
            lemma_bounds_remove(l, k, e);
            assert(r.push(e) + l.remove(k) =~= (r.push(e) + l).remove(r.len() + 1 + k));
        }
    }

    /// Takes the highest-ranked entry (or, for `highest == false`, the
    /// lowest-ranked one) out of the subtree on the side `right` of `parent`
    /// and keeps that subtree balanced.
    pub fn pop_edge(parent: &mut Node<T>, right: bool, highest: bool) -> (v: T)
        requires
            old(parent).child(right) is Some,
            Self::wf_of(old(parent).child(right)),
        ensures
            Self::wf_of(final(parent).child(right)),
            Self::ranked_of(old(parent).child(right)).len() > 0,
            highest ==> v == Self::ranked_of(old(parent).child(right)).first() && Self::ranked_of(
                final(parent).child(right),
            ) == Self::ranked_of(old(parent).child(right)).drop_first(),
            !highest ==> v == Self::ranked_of(old(parent).child(right)).last() && Self::ranked_of(
                final(parent).child(right),
            ) == Self::ranked_of(old(parent).child(right)).drop_last(),
            Self::height_of(final(parent).child(right)) == Self::height_of(old(parent).child(right))
                || Self::height_of(final(parent).child(right)) + 1 == Self::height_of(
                old(parent).child(right),
            ),
            final(parent).child(!right) == old(parent).child(!right),
            final(parent).entry == old(parent).entry,
            final(parent).count == old(parent).count,
            final(parent).height == old(parent).height,
        decreases old(parent).child(right),
    {
        let mut node = parent.take_child(right).unwrap();
        let ghost before = *node;
        let ghost r = Self::ranked_of(before.right);
        let ghost l = Self::ranked_of(before.left);
        proof {
            Self::lemma_count_of(before.left);
            Self::lemma_count_of(before.right);
        }
        let at_edge = if highest {
            node.right.is_none()
        } else {
            node.left.is_none()
        };
        if at_edge {
            let n = *node;
            let rest = if highest {
                n.left
            } else {
                n.right
            };
            proof {
                if highest {
                    assert(before.ranked() =~= seq![before.entry] + l);
                    assert(before.ranked().drop_first() =~= l);
                } else {
                    assert(before.ranked() =~= r.push(before.entry));
                    assert(before.ranked().drop_last() =~= r);
                }
            }
            parent.put_child(right, rest);
            n.entry
        } else {
            let v = Self::pop_edge(&mut *node, highest, highest);
            proof {
                let after = *node;
                let sub = Self::ranked_of(before.child(highest));
                if highest {
                    assert(sub.drop_first() =~= sub.remove(0));
                    before.lemma_shrunk_node(after, true, 0);
                    assert(before.ranked().remove(0) =~= before.ranked().drop_first());
                } else {
                    assert(sub.drop_last() =~= sub.remove(sub.len() - 1));
                    before.lemma_shrunk_node(after, false, sub.len() - 1);
                    assert(before.ranked().remove(r.len() + 1 + sub.len() - 1)
                        =~= before.ranked().drop_last());
                }
            }
            parent.put_child(right, Some(node));
            parent.settle_child(right);
            v
        }
    }

    /// What holds of a node with two subtrees once its entry has been
    /// replaced by the highest-ranked entry of its left subtree, which was
    /// taken out there.
    proof fn lemma_handed_down(self, after: Node<T>)
        requires
            self.wf(),
            self.left is Some,
            after.right == self.right,
            Self::wf_of(after.left),
            Self::ranked_of(self.left).len() > 0,
            after.entry == Self::ranked_of(self.left).first(),
            Self::ranked_of(after.left) == Self::ranked_of(self.left).drop_first(),
            Self::height_of(after.left) == Self::height_of(self.left) || Self::height_of(after.left)
                + 1 == Self::height_of(self.left),
        ensures
            after.loose(),
            after.tilted() || !after.lopsided(),
            after.due_count() + 1 == self.count,
            after.ranked() == self.ranked().remove(Self::ranked_of(self.right).len() as int),
            after.due_height() == self.height || after.due_height() + 1 == self.height,
            after.lopsided() ==> after.due_height() == self.height,
    {
        let r = Self::ranked_of(self.right);
        let l = Self::ranked_of(self.left);
        let e = self.entry;
        let p = l.first();
        Self::lemma_count_of(self.left);
        Self::lemma_count_of(self.right);
        Self::lemma_count_of(after.left);
        Self::lemma_count_of(after.right);
        Self::lemma_ranked_descending(self.left);
        assert(l[0].below(e));
        lemma_all_above_widen(r, e, p);
        assert(all_below(l.drop_first(), p)) by {
            assert forall|i: int| 0 <= i < l.drop_first().len() implies (
            #[trigger] l.drop_first()[i]).below(p) by {
                assert(l.drop_first()[i] == l[i + 1]);
            }
        }
        assert(r.push(p) + l.drop_first() =~= (r.push(e) + l).remove(r.len() as int));
    }

    /// Takes the entry equal to `target` out of the subtree on the side
    /// `right` of `parent`, if there is one, and keeps that subtree balanced.
    /// A node with two subtrees hands its place to the entry just below it
    /// in rank.
    pub fn remove_step(parent: &mut Node<T>, right: bool, target: &T) -> (taken: Option<T>)
        requires
            Self::wf_of(old(parent).child(right)),
        ensures
            Self::wf_of(final(parent).child(right)),
            taken is Some == Self::ranked_of(old(parent).child(right)).contains(*target),
            taken is Some ==> taken == Some(*target) && rank_in(
                Self::ranked_of(old(parent).child(right)),
                *target,
            ) < Self::ranked_of(old(parent).child(right)).len() && Self::ranked_of(
                final(parent).child(right),
            ) == Self::ranked_of(old(parent).child(right)).remove(
                rank_in(Self::ranked_of(old(parent).child(right)), *target) as int,
            ),
            taken is None ==> final(parent).child(right) == old(parent).child(right),
            Self::height_of(final(parent).child(right)) == Self::height_of(old(parent).child(right))
                || Self::height_of(final(parent).child(right)) + 1 == Self::height_of(
                old(parent).child(right),
            ),
            final(parent).child(!right) == old(parent).child(!right),
            final(parent).entry == old(parent).entry,
            final(parent).count == old(parent).count,
            final(parent).height == old(parent).height,
        decreases old(parent).child(right),
    {
        let link = parent.take_child(right);
        match link {
            None => {
                parent.put_child(right, None);
                None
            },
            Some(mut node) => {
                let ghost before = *node;
                let ghost r = Self::ranked_of(before.right);
                let ghost l = Self::ranked_of(before.left);
                proof {
                    Self::lemma_count_of(before.left);
                    Self::lemma_count_of(before.right);
                    lemma_rank_by_side(r, before.entry, l, *target);
                    T::law_connected(before.entry, *target);
                }
                if target.is_same(&node.entry) {
                    if node.left.is_none() {
                        let n = *node;
                        proof {
                            assert(before.ranked().remove(r.len() as int) =~= r);
                        }
                        parent.put_child(right, n.right);
                        Some(n.entry)
                    } else if node.right.is_none() {
                        let n = *node;
                        proof {
                            assert(before.ranked().remove(r.len() as int) =~= l);
                        }
                        parent.put_child(right, n.left);
                        Some(n.entry)
                    } else {
                        let heir = Self::pop_edge(&mut *node, false, true);
                        let Node { left, right: rest, entry, count, height } = *node;
                        let next = Node { left, right: rest, entry: heir, count, height };
                        proof {
                            before.lemma_handed_down(next);
                        }
                        parent.put_child(right, Some(Box::new(next)));
                        parent.settle_child(right);
                        Some(entry)
                    }
                } else {
                    let go_right = node.entry.is_below(target);
                    let taken = Self::remove_step(&mut *node, go_right, target);
                    let ghost after = *node;
                    if taken.is_some() {
                        proof {
                            let sub = Self::ranked_of(before.child(go_right));
                            before.lemma_shrunk_node(after, go_right, rank_in(sub, *target) as int);
                        }
                        parent.put_child(right, Some(node));
                        parent.settle_child(right);
                        taken
                    } else {
                        proof {
                            assert(after == before);
                        }
                        parent.put_child(right, Some(node));
                        None
                    }
                }
            },
        }
    }
}

} // verus!
