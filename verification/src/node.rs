use crate::order::Ranked;
use std::cmp::Ordering;
use vstd::prelude::*;

verus! {

/// A node of the height-balanced search tree. It owns its two subtrees and
/// records how many entries its subtree holds and how tall it is.
pub struct Node<T> {
    pub left: Option<Box<Node<T>>>,
    pub right: Option<Box<Node<T>>>,
    pub entry: T,
    pub count: usize,
    pub height: usize,
}

impl<T> Node<T> {
    /// The height recorded at the top of a subtree; an empty subtree has height 0.
    pub open spec fn height_of(link: Option<Box<Node<T>>>) -> nat {
        match link {
            None => 0,
            Some(n) => n.height as nat,
        }
    }

    /// The entry count recorded at the top of a subtree; an empty subtree counts 0.
    pub open spec fn count_of(link: Option<Box<Node<T>>>) -> nat {
        match link {
            None => 0,
            Some(n) => n.count as nat,
        }
    }

    /// The right subtree for `true`, the left one for `false`.
    pub open spec fn child(self, right: bool) -> Option<Box<Node<T>>> {
        if right {
            self.right
        } else {
            self.left
        }
    }

    /// The count a node must record, given its subtrees.
    pub open spec fn due_count(self) -> nat {
        1 + Self::count_of(self.left) + Self::count_of(self.right)
    }

    /// The height a node must record, given its subtrees.
    pub open spec fn due_height(self) -> nat {
        if Self::height_of(self.left) >= Self::height_of(self.right) {
            1 + Self::height_of(self.left)
        } else {
            1 + Self::height_of(self.right)
        }
    }

    /// The heights of the two subtrees differ by more than one.
    pub open spec fn lopsided(self) -> bool {
        Self::height_of(self.left) > Self::height_of(self.right) + 1 || Self::height_of(self.right)
            > Self::height_of(self.left) + 1
    }

    /// The node over two given subtrees, with count and height as they are due.
    pub open spec fn joined(left: Option<Box<Node<T>>>, entry: T, right: Option<Box<Node<T>>>) -> Node<
        T,
    > {
        let bare = Node { left, right, entry, count: 0, height: 0 };
        Node { left, right, entry, count: bare.due_count() as usize, height: bare.due_height() as usize }
    }

    /// The entries of a subtree, highest-ranked first.
    pub open spec fn ranked_of(link: Option<Box<Node<T>>>) -> Seq<T>
        decreases link,
    {
        match link {
            None => Seq::empty(),
            Some(n) => n.ranked(),
        }
    }

    /// The entries of this node's subtree, highest-ranked first: the right
    /// subtree, then the node's own entry, then the left subtree.
    pub open spec fn ranked(self) -> Seq<T>
        decreases self,
    {
        Self::ranked_of(self.right).push(self.entry) + Self::ranked_of(self.left)
    }

    /// The entries of a subtree in search order, lowest-ranked first.
    pub open spec fn in_order_of(link: Option<Box<Node<T>>>) -> Seq<T>
        decreases link,
    {
        match link {
            None => Seq::empty(),
            Some(n) => n.in_order(),
        }
    }

    /// Left subtree, own entry, right subtree.
    pub open spec fn in_order(self) -> Seq<T>
        decreases self,
    {
        Self::in_order_of(self.left).push(self.entry) + Self::in_order_of(self.right)
    }

    /// Height of the left subtree, 0 if there is none.
    pub fn get_left_height(&self) -> (h: usize)
        ensures
            h == Self::height_of(self.left),
    {
        match &self.left {
            Some(n) => n.height,
            None => 0,
        }
    }

    /// Height of the right subtree, 0 if there is none.
    pub fn get_right_height(&self) -> (h: usize)
        ensures
            h == Self::height_of(self.right),
    {
        match &self.right {
            Some(n) => n.height,
            None => 0,
        }
    }

    /// Entry count of the left subtree, 0 if there is none.
    pub fn get_left_count(&self) -> (c: usize)
        ensures
            c == Self::count_of(self.left),
    {
        match &self.left {
            Some(n) => n.count,
            None => 0,
        }
    }

    /// Entry count of the right subtree, 0 if there is none.
    pub fn get_right_count(&self) -> (c: usize)
        ensures
            c == Self::count_of(self.right),
    {
        match &self.right {
            Some(n) => n.count,
            None => 0,
        }
    }

    /// Recomputes the recorded height from the two subtrees.
    pub fn fix_height(&mut self)
        requires
            old(self).due_height() <= usize::MAX,
        ensures
            final(self).height == old(self).due_height(),
            final(self).count == old(self).count,
            final(self).left == old(self).left,
            final(self).right == old(self).right,
            final(self).entry == old(self).entry,
    {
        let l = self.get_left_height();
        let r = self.get_right_height();
        self.height = if l >= r {
            l + 1
        } else {
            r + 1
        };
    }

    /// Recomputes the recorded entry count from the two subtrees.
    pub fn fix_count(&mut self)
        requires
            old(self).due_count() <= usize::MAX,
        ensures
            final(self).count == old(self).due_count(),
            final(self).height == old(self).height,
            final(self).left == old(self).left,
            final(self).right == old(self).right,
            final(self).entry == old(self).entry,
    {
        self.count = self.get_left_count() + self.get_right_count() + 1;
    }

    /// Whether the two subtrees differ in height by more than one.
    pub fn is_imbalanced(&self) -> (r: bool)
        ensures
            r == self.lopsided(),
    {
        let l = self.get_left_height();
        let r = self.get_right_height();
        if l >= r {
            l - r > 1
        } else {
            r - l > 1
        }
    }

    /// Detaches and returns the subtree on one side.
    pub fn take_child(&mut self, right: bool) -> (link: Option<Box<Node<T>>>)
        ensures
            link == old(self).child(right),
            final(self).child(right) is None,
            final(self).child(!right) == old(self).child(!right),
            final(self).entry == old(self).entry,
            final(self).count == old(self).count,
            final(self).height == old(self).height,
    {
        if right {
            self.right.take()
        } else {
            self.left.take()
        }
    }

    /// Attaches a subtree on one side, dropping what was there.
    pub fn put_child(&mut self, right: bool, link: Option<Box<Node<T>>>)
        ensures
            final(self).child(right) == link,
            final(self).child(!right) == old(self).child(!right),
            final(self).entry == old(self).entry,
            final(self).count == old(self).count,
            final(self).height == old(self).height,
    {
        if right {
            self.right = link;
        } else {
            self.left = link;
        }
    }
}

impl<T: Ranked> Node<T> {
    /// Orders this node's entry against another node's entry.
    pub fn compare(&self, other: &Node<T>) -> (o: Ordering)
        ensures
            (o == Ordering::Less) == self.entry.below(other.entry),
            (o == Ordering::Equal) == (self.entry == other.entry),
            (o == Ordering::Greater) == other.entry.below(self.entry),
    {
        self.compare_entry(&other.entry)
    }

    /// Orders this node's entry against a given entry.
    pub fn compare_entry(&self, other: &T) -> (o: Ordering)
        ensures
            (o == Ordering::Less) == self.entry.below(*other),
            (o == Ordering::Equal) == (self.entry == *other),
            (o == Ordering::Greater) == other.below(self.entry),
    {
        proof {
            T::law_connected(self.entry, *other);
            T::law_irreflexive(self.entry);
            if self.entry.below(*other) {
                crate::order::lemma_asymmetric(self.entry, *other);
            }
            if other.below(self.entry) {
                crate::order::lemma_asymmetric(*other, self.entry);
            }
        }
        if self.entry.is_same(other) {
            Ordering::Equal
        } else if self.entry.is_below(other) {
            Ordering::Less
        } else {
            Ordering::Greater
        }
    }
}

} // verus!
