use crate::node::Node;
use crate::order::Ranked;
use crate::ranking::lemma_all_above_parts;
use crate::ranking::lemma_all_above_widen;
use crate::ranking::lemma_all_below_parts;
use crate::ranking::lemma_all_below_widen;
use vstd::prelude::*;

verus! {

impl<T> Node<T> {
    /// The node that a rotation pushes down: this node's entry over the
    /// subtree it keeps and the inner subtree of the child that is lifted.
    /// `right_second` says on which side the lifted child hangs.
    pub open spec fn rotated_low(self, right_second: bool) -> Node<T> {
        let g = self.child(right_second).unwrap();
        if right_second {
            Self::joined(self.left, self.entry, g.left)
        } else {
            Self::joined(g.right, self.entry, self.right)
        }
    }

    /// The subtree after a rotation about this node: the child on the side
    /// `right_second` is lifted to the top, this node becomes its child on the
    /// other side and takes over the lifted child's inner subtree.
    pub open spec fn rotated(self, right_second: bool) -> Node<T> {
        let g = self.child(right_second).unwrap();
        let low = Some(Box::new(self.rotated_low(right_second)));
        if right_second {
            Self::joined(low, g.entry, g.right)
        } else {
            Self::joined(g.left, g.entry, low)
        }
    }

    /// The counts and heights that a rotation about this node records fit
    /// the machine word.
    pub open spec fn rotation_fits(self, right_second: bool) -> bool {
        &&& self.rotated_low(right_second).due_count() <= usize::MAX
        &&& self.rotated_low(right_second).due_height() <= usize::MAX
        &&& self.rotated(right_second).due_count() <= usize::MAX
        &&& self.rotated(right_second).due_height() <= usize::MAX
    }

    /// Rotates about the child on the side `right_first`: that child's own
    /// child on the side `right_second` is lifted into its place. Counts and
    /// heights of the two nodes that moved are recomputed; this node's own
    /// are left as they were.
    pub fn rotate_child_child(&mut self, right_first: bool, right_second: bool)
        requires
            old(self).child(right_first) is Some,
            old(self).child(right_first).unwrap().child(right_second) is Some,
            old(self).child(right_first).unwrap().rotation_fits(right_second),
        ensures
            final(self).child(right_first) == Some(
                Box::new(old(self).child(right_first).unwrap().rotated(right_second)),
            ),
            final(self).child(!right_first) == old(self).child(!right_first),
            final(self).entry == old(self).entry,
            final(self).count == old(self).count,
            final(self).height == old(self).height,
    {
        let mut child = self.take_child(right_first).unwrap();
        let mut lifted = (&mut *child).take_child(right_second).unwrap();
        let inner = (&mut *lifted).take_child(!right_second);
        (&mut *child).put_child(right_second, inner);
        (&mut *child).fix_count();
        (&mut *child).fix_height();
        (&mut *lifted).put_child(!right_second, Some(child));
        (&mut *lifted).fix_count();
        (&mut *lifted).fix_height();
        self.put_child(right_first, Some(lifted));
    }
}

impl<T: Ranked> Node<T> {
    /// A rotation keeps the entries and their order, and the search order
    /// holds at both nodes that moved.
    pub proof fn lemma_rotated(self, right_second: bool)
        requires
            self.child(right_second) is Some,
        ensures
            self.rotated(right_second).ranked() == self.ranked(),
            (self.ordered_here() && self.child(right_second).unwrap().ordered_here()) ==> (
            self.rotated_low(right_second).ordered_here() && self.rotated(
                right_second,
            ).ordered_here()),
    {
        let g = self.child(right_second).unwrap();
        let low = self.rotated_low(right_second);
        let top = self.rotated(right_second);
        let gl = Self::ranked_of(g.left);
        let gr = Self::ranked_of(g.right);
        assert(g.ranked() == gr.push(g.entry) + gl);
        if right_second {
            let sl = Self::ranked_of(self.left);
            assert(Self::ranked_of(self.right) == g.ranked());
            assert(low.ranked() == gl.push(self.entry) + sl);
            assert(Self::ranked_of(top.left) == low.ranked());
            assert(top.ranked() == gr.push(g.entry) + low.ranked());
            assert(self.ranked() == (gr.push(g.entry) + gl).push(self.entry) + sl);
            assert(top.ranked() =~= self.ranked());
            if self.ordered_here() && g.ordered_here() {
                lemma_all_above_parts(gr, g.entry, gl, self.entry);
                lemma_all_below_widen(sl, self.entry, g.entry);
                lemma_all_below_parts(gl, self.entry, sl, g.entry);
            }
        } else {
            let sr = Self::ranked_of(self.right);
            assert(Self::ranked_of(self.left) == g.ranked());
            assert(low.ranked() == sr.push(self.entry) + gr);
            assert(Self::ranked_of(top.right) == low.ranked());
            assert(top.ranked() == low.ranked().push(g.entry) + gl);
            assert(self.ranked() == sr.push(self.entry) + (gr.push(g.entry) + gl));
            assert(top.ranked() =~= self.ranked());
            if self.ordered_here() && g.ordered_here() {
                lemma_all_below_parts(gr, g.entry, gl, self.entry);
                lemma_all_above_widen(sr, self.entry, g.entry);
                lemma_all_above_parts(sr, self.entry, gr, g.entry);
            }
        }
    }

    /// What a rotation makes of a node whose three subtrees are well formed
    /// and in search order, when the two subtrees that meet under the node
    /// pushed down differ in height by at most one.
    pub proof fn lemma_rotated_shape(self, right_second: bool)
        requires
            self.child(right_second) is Some,
            self.ordered_here(),
            Self::wf_of(self.child(!right_second)),
            self.child(right_second).unwrap().loose(),
            2 + Self::count_of(self.child(!right_second)) + Self::count_of(
                self.child(right_second).unwrap().left,
            ) + Self::count_of(self.child(right_second).unwrap().right) <= usize::MAX,
            Self::height_of(self.child(!right_second)) <= Self::height_of(
                self.child(right_second).unwrap().child(!right_second),
            ) + 1,
            Self::height_of(self.child(right_second).unwrap().child(!right_second))
                <= Self::height_of(self.child(!right_second)) + 1,
        ensures
            self.rotation_fits(right_second),
            self.rotated(right_second).ranked() == self.ranked(),
            self.rotated(right_second).loose(),
            self.rotated(right_second).count == self.rotated(right_second).due_count(),
            self.rotated(right_second).height == self.rotated(right_second).due_height(),
            self.rotated(right_second).count == 2 + Self::count_of(self.child(!right_second))
                + Self::count_of(self.child(right_second).unwrap().left) + Self::count_of(
                self.child(right_second).unwrap().right,
            ),
            self.rotated(right_second).child(right_second) == self.child(
                right_second,
            ).unwrap().child(right_second),
            Self::height_of(self.rotated(right_second).child(!right_second)) == 1 + vstd::math::max(
                Self::height_of(self.child(!right_second)) as int,
                Self::height_of(self.child(right_second).unwrap().child(!right_second)) as int,
            ),
    {
        let g = self.child(right_second).unwrap();
        let low = self.rotated_low(right_second);
        let top = self.rotated(right_second);
        self.lemma_rotated(right_second);
        Self::lemma_count_of(self.child(!right_second));
        Self::lemma_count_of(g.left);
        Self::lemma_count_of(g.right);
        assert(low.count == low.due_count());
        assert(low.height == low.due_height());
        assert(low.wf());
        assert(Self::wf_of(top.child(!right_second)));
    }

    /// The subtree on one side is taller than the other by exactly two.
    pub open spec fn tilted(self) -> bool {
        Self::height_of(self.left) == Self::height_of(self.right) + 2 || Self::height_of(
            self.right,
        ) == Self::height_of(self.left) + 2
    }

    /// This node with another subtree on one side.
    pub open spec fn with_child(self, right: bool, link: Option<Box<Node<T>>>) -> Node<T> {
        if right {
            Node { left: self.left, right: link, entry: self.entry, count: self.count, height: self.height }
        } else {
            Node { left: link, right: self.right, entry: self.entry, count: self.count, height: self.height }
        }
    }

    /// Whether rebalancing takes two rotations: the taller child leans
    /// towards the middle of the tree.
    pub open spec fn leans_in(self) -> bool {
        let high = Self::height_of(self.right) > Self::height_of(self.left);
        let c = self.child(high).unwrap();
        Self::height_of(c.child(!high)) > Self::height_of(c.child(high))
    }

    /// The subtree that rebalancing makes of a node whose subtrees differ in
    /// height by two. The taller child is lifted; if that child leans inwards,
    /// its inner child is lifted over it first.
    pub open spec fn rebalanced(self) -> Node<T> {
        let high = Self::height_of(self.right) > Self::height_of(self.left);
        let c = self.child(high).unwrap();
        if self.leans_in() {
            self.with_child(high, Some(Box::new(c.rotated(!high)))).rotated(high)
        } else {
            self.rotated(high)
        }
    }

    /// The rotations that rebalancing performs record counts and heights that
    /// fit the machine word.
    pub open spec fn rebalance_fits(self) -> bool {
        let high = Self::height_of(self.right) > Self::height_of(self.left);
        let c = self.child(high).unwrap();
        if self.leans_in() {
            &&& c.child(!high) is Some
            &&& c.rotation_fits(!high)
            &&& self.with_child(high, Some(Box::new(c.rotated(!high)))).rotation_fits(high)
        } else {
            self.rotation_fits(high)
        }
    }

    proof fn lemma_rebalanced_single(self)
        requires
            self.loose(),
            self.tilted(),
            self.due_count() <= usize::MAX,
            !self.leans_in(),
        ensures
            self.rebalance_fits(),
            self.rebalanced().wf(),
            self.rebalanced().ranked() == self.ranked(),
            self.rebalanced().count == self.due_count(),
            self.rebalanced().height + 1 == self.due_height() || self.rebalanced().height
                == self.due_height(),
    {
        let high = Self::height_of(self.right) > Self::height_of(self.left);
        Self::lemma_count_of(self.left);
        Self::lemma_count_of(self.right);
        let c = self.child(high).unwrap();
        assert(c.wf());
        Self::lemma_count_of(c.left);
        Self::lemma_count_of(c.right);
        self.lemma_rotated_shape(high);
    }

    #[verifier::rlimit(40)]
    proof fn lemma_rebalanced_double(self)
        requires
            self.loose(),
            self.tilted(),
            self.due_count() <= usize::MAX,
            self.leans_in(),
        ensures
            self.rebalance_fits(),
            self.rebalanced().wf(),
            self.rebalanced().ranked() == self.ranked(),
            self.rebalanced().count == self.due_count(),
            self.rebalanced().height + 1 == self.due_height() || self.rebalanced().height
                == self.due_height(),
    {
        let high = Self::height_of(self.right) > Self::height_of(self.left);
        Self::lemma_count_of(self.left);
        Self::lemma_count_of(self.right);
        let c = self.child(high).unwrap();
        assert(c.wf());
        Self::lemma_count_of(c.left);
        Self::lemma_count_of(c.right);
        let g = c.child(!high).unwrap();
        assert(g.wf());
        Self::lemma_count_of(g.left);
        Self::lemma_count_of(g.right);
        let h = Self::height_of(self.child(!high));
        assert(c.height == h + 2);
        assert(Self::height_of(c.child(high)) == h);
        assert(g.height == h + 1);
        c.lemma_rotated_shape(!high);
        let c2 = c.rotated(!high);
        assert(c2.child(!high) == g.child(!high));
        assert(Self::height_of(c2.child(high)) == h + 1);
        let mid = self.with_child(high, Some(Box::new(c2)));
        assert(mid.child(high) == Some(Box::new(c2)));
        assert(mid.child(!high) == self.child(!high));
        assert(mid.entry == self.entry);
        assert(Self::ranked_of(mid.child(high)) == Self::ranked_of(self.child(high)));
        assert(mid.ranked() == self.ranked());
        assert(mid.ordered_here());
        assert(mid.child(high).unwrap().loose());
        assert(Self::count_of(c2.left) + Self::count_of(c2.right) + 1 == c2.count);
        assert(c2.count == c.count);
        mid.lemma_rotated_shape(high);
        let top = mid.rotated(high);
        assert(top == self.rebalanced());
        assert(top.height == h + 2);
        assert(!top.lopsided());
        assert(top.wf());
    }

    /// Rebalancing a tilted node gives a well-formed subtree with the same
    /// entries, as tall as the taller child was or one taller.
    pub proof fn lemma_rebalanced(self)
        requires
            self.loose(),
            self.tilted(),
            self.due_count() <= usize::MAX,
        ensures
            self.rebalance_fits(),
            self.rebalanced().wf(),
            self.rebalanced().ranked() == self.ranked(),
            self.rebalanced().count == self.due_count(),
            self.rebalanced().height + 1 == self.due_height() || self.rebalanced().height
                == self.due_height(),
    {
        if self.leans_in() {
            self.lemma_rebalanced_double();
        } else {
            self.lemma_rebalanced_single();
        }
    }

    /// Restores the balance of the child on the side `right`, whose subtrees
    /// differ in height by two.
    #[verifier::rlimit(80)]
    #[verifier::spinoff_prover]
    pub fn fix_child_imbalance(&mut self, right: bool)
        requires
            old(self).child(right) is Some,
            old(self).child(right).unwrap().loose(),
            old(self).child(right).unwrap().tilted(),
            old(self).child(right).unwrap().due_count() <= usize::MAX,
        ensures
            final(self).child(right) == Some(Box::new(old(self).child(right).unwrap().rebalanced())),
            Self::wf_of(final(self).child(right)),
            Self::ranked_of(final(self).child(right)) == old(self).child(right).unwrap().ranked(),
            Self::count_of(final(self).child(right)) == old(self).child(right).unwrap().due_count(),
            Self::height_of(final(self).child(right)) + 1 == old(self).child(
                right,
            ).unwrap().due_height() || Self::height_of(final(self).child(right)) == old(
                self,
            ).child(right).unwrap().due_height(),
            final(self).child(!right) == old(self).child(!right),
            final(self).entry == old(self).entry,
            final(self).count == old(self).count,
            final(self).height == old(self).height,
    {
        let mut c = self.take_child(right).unwrap();
        let ghost c0 = *c;
        proof {
            c0.lemma_rebalanced();
        }
        let high = c.get_right_height() > c.get_left_height();
        let leans_in = match (if high {
            &c.right
        } else {
            &c.left
        }) {
            Some(t) => if high {
                t.get_left_height() > t.get_right_height()
            } else {
                t.get_right_height() > t.get_left_height()
            },
            None => false,
        };
        assert(leans_in == c0.leans_in());
        if leans_in {
            (&mut *c).rotate_child_child(high, !high);
            assert(*c == c0.with_child(high, Some(Box::new(c0.child(high).unwrap().rotated(!high)))));
        }
        self.put_child(right, Some(c));
        self.rotate_child_child(right, high);
    }

    /// Brings the bookkeeping of the child on the side `right` up to date
    /// after one entry was added to or taken from one of its subtrees:
    /// rebalances it if it is tilted, otherwise recomputes its count and height.
    pub fn settle_child(&mut self, right: bool)
        requires
            old(self).child(right) is Some,
            old(self).child(right).unwrap().loose(),
            old(self).child(right).unwrap().tilted() || !old(self).child(right).unwrap().lopsided(),
            old(self).child(right).unwrap().due_count() <= usize::MAX,
        ensures
            Self::wf_of(final(self).child(right)),
            final(self).child(right) is Some,
            Self::ranked_of(final(self).child(right)) == old(self).child(right).unwrap().ranked(),
            Self::count_of(final(self).child(right)) == old(self).child(right).unwrap().due_count(),
            old(self).child(right).unwrap().lopsided() ==> (Self::height_of(
                final(self).child(right),
            ) + 1 == old(self).child(right).unwrap().due_height() || Self::height_of(
                final(self).child(right),
            ) == old(self).child(right).unwrap().due_height()),
            !old(self).child(right).unwrap().lopsided() ==> Self::height_of(
                final(self).child(right),
            ) == old(self).child(right).unwrap().due_height(),
            final(self).child(!right) == old(self).child(!right),
            final(self).entry == old(self).entry,
            final(self).count == old(self).count,
            final(self).height == old(self).height,
    {
        let mut c = self.take_child(right).unwrap();
        if c.is_imbalanced() {
            self.put_child(right, Some(c));
            self.fix_child_imbalance(right);
        } else {
            proof {
                Self::lemma_count_of(c.left);
                Self::lemma_count_of(c.right);
            }
            (&mut *c).fix_count();
            (&mut *c).fix_height();
            self.put_child(right, Some(c));
        }
    }
}

} // verus!
