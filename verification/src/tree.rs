use crate::node::Node;
use crate::order::Ranked;
use crate::ranking::descending;
use crate::ranking::lemma_rank_bound;
use crate::ranking::lemma_rank_by_side;
use crate::ranking::lemma_rank_finds;
use crate::ranking::lemma_remove_descending;
use crate::ranking::rank_in;
use vstd::prelude::*;

verus! {

/// A height-balanced search tree that knows the rank of every entry.
///
/// The tree hangs as the right subtree of a sentinel node that holds no entry
/// of the tree. Seen from outside, the tree is the sequence of its entries,
/// highest-ranked first: position 0 holds the entry that outranks all others.
pub struct Tree<T> {
    sentinel: Node<T>,
}

impl<T: Ranked> View for Tree<T> {
    type V = Seq<T>;

    /// The entries, highest-ranked first.
    open spec fn view(&self) -> Seq<T> {
        Node::<T>::ranked_of(self.root())
    }
}

impl<T: Ranked> Tree<T> {
    /// The subtree that holds the entries.
    pub closed spec fn root(&self) -> Option<Box<Node<T>>> {
        self.sentinel.right
    }

    /// The tree is a balanced search tree with correct counts and heights.
    pub open spec fn wf(&self) -> bool {
        Node::<T>::wf_of(self.root())
    }

    /// The height of the tree, 0 for an empty one.
    pub open spec fn spec_height(&self) -> nat {
        Node::<T>::height_of(self.root())
    }

    /// The entries in search order, lowest-ranked first.
    pub open spec fn in_order(&self) -> Seq<T> {
        Node::<T>::in_order_of(self.root())
    }

    /// The subtree that holds the entries.
    pub fn root_link(&self) -> (link: &Option<Box<Node<T>>>)
        ensures
            *link == self.root(),
    {
        &self.sentinel.right
    }

    /// The entries of a well-formed tree are strictly descending, so no
    /// entry occurs twice, and the recorded count is their number.
    pub proof fn lemma_view(&self)
        requires
            self.wf(),
        ensures
            descending(self@),
            self@.no_duplicates(),
            self@.len() == Node::<T>::count_of(self.root()),
            self@.len() <= usize::MAX,
            self.spec_height() <= self@.len(),
    {
        Node::<T>::lemma_ranked_descending(self.root());
        crate::ranking::lemma_descending_distinct(self@);
        Node::<T>::lemma_count_of(self.root());
    }

    /// Read in search order, a well-formed tree is strictly ascending and
    /// holds no entry twice; and the search order is the ranked order read
    /// backwards.
    pub proof fn lemma_in_order(&self)
        requires
            self.wf(),
        ensures
            crate::ranking::ascending(self.in_order()),
            self.in_order().no_duplicates(),
            self.in_order() == self@.reverse(),
    {
        Node::<T>::lemma_in_order_ascending(self.root());
        Node::<T>::lemma_in_order_reverses(self.root());
    }

    /// Inserts `val` unless an equal entry is present. Returns whether it
    /// went in; if so it stands at its rank among the old entries.
    pub fn insert(&mut self, val: T) -> (inserted: bool)
        requires
            old(self).wf(),
            old(self)@.len() < usize::MAX,
        ensures
            final(self).wf(),
            inserted == !old(self)@.contains(val),
            inserted ==> final(self)@ == old(self)@.insert(rank_in(old(self)@, val) as int, val),
            !inserted ==> final(self)@ == old(self)@,
    {
        proof {
            self.lemma_view();
        }
        Node::insert_step(&mut self.sentinel, true, val)
    }

    /// Removes the entry equal to `val` and returns it, or returns `None` and
    /// leaves the tree as it is if there is none.
    pub fn remove(&mut self, val: &T) -> (taken: Option<T>)
        requires
            old(self).wf(),
        ensures
            final(self).wf(),
            taken is Some == old(self)@.contains(*val),
            taken is Some ==> taken == Some(*val) && rank_in(old(self)@, *val) < old(self)@.len()
                && final(self)@ == old(self)@.remove(rank_in(old(self)@, *val) as int),
            taken is None ==> final(self)@ == old(self)@,
    {
        Node::remove_step(&mut self.sentinel, true, val)
    }

    /// What `replace` leaves behind when it succeeds: the old entries without
    /// `old_val`, with `new_val` inserted at its rank.
    pub open spec fn moved(s: Seq<T>, old_val: T, new_val: T) -> Seq<T> {
        let t = s.remove(rank_in(s, old_val) as int);
        t.insert(rank_in(t, new_val) as int, new_val)
    }

    /// Moves an entry: takes `old_val` out and puts `new_val` in. Fails, and
    /// leaves the tree as it is, if `old_val` is absent or if `new_val` is
    /// present as another entry than `old_val`. On success returns the entry
    /// that was displaced.
    ///
    /// Where the new rank is no farther from the old one than a fifth of the
    /// height of the tree, the entries between are handed along in place and
    /// the shape of the tree stays; otherwise the old entry is removed and
    /// the new one inserted. The ranking that results is the same.
    pub fn replace(&mut self, old_val: &T, new_val: T) -> (displaced: Option<T>)
        requires
            old(self).wf(),
        ensures
            final(self).wf(),
            displaced is Some == (old(self)@.contains(*old_val) && (!old(self)@.contains(new_val)
                || new_val == *old_val)),
            displaced is Some ==> displaced == Some(*old_val) && final(self)@ == Self::moved(
                old(self)@,
                *old_val,
                new_val,
            ),
            displaced is None ==> final(self)@ == old(self)@,
            final(self)@.len() == old(self)@.len(),
    {
        proof {
            self.lemma_view();
            lemma_rank_finds(self@, *old_val);
        }
        let found = self.index_of(old_val);
        if !found.1 {
            return None;
        }
        let aim = self.index_of(&new_val);
        if !new_val.is_same(old_val) && aim.1 {
            return None;
        }
        let ghost before = self@;
        let old_ind = found.0;
        let new_ind = if aim.0 > old_ind {
            aim.0 - 1
        } else {
            aim.0
        };
        let distance = if new_ind >= old_ind {
            new_ind - old_ind
        } else {
            old_ind - new_ind
        };
        proof {
            let p = old_ind as int;
            let t = before.remove(p);
            lemma_remove_descending(before, p);
            crate::ranking::lemma_rank_cuts(before, new_val);
            crate::ranking::lemma_rank_cuts(t, new_val);
            crate::shift::lemma_rank_without(before, p, new_val);
            T::law_irreflexive(new_val);
            assert(new_ind == rank_in(t, new_val));
            let q = new_ind as int;
            let done = t.insert(q, new_val);
            assert(crate::shift::fits_at(done, q, new_val)) by {
                assert forall|i: int| 0 <= i < q && i < done.len() implies new_val.below(
                    #[trigger] done[i],
                ) by {
                    assert(done[i] == t[i]);
                }
                assert forall|i: int| q < i < done.len() implies (#[trigger] done[i]).below(
                    new_val,
                ) by {
                    assert(done[i] == t[i - 1]);
                    T::law_connected(t[i - 1], new_val);
                    if t[i - 1] == new_val {
                        assert(t.contains(new_val));
                        let k = i - 1;
                        assert(t[k] == before[if k < p {
                            k
                        } else {
                            k + 1
                        }]);
                    }
                }
            }
        }
        if distance <= self.height() / 5 {
            return Some(self.shift(old_ind, new_ind, new_val));
        }
        let taken = self.remove(old_val);
        proof {
            lemma_remove_descending(before, rank_in(before, *old_val) as int);
            let t = self@;
            if t.contains(new_val) {
                let i = choose|i: int| 0 <= i < t.len() && t[i] == new_val;
                let k = rank_in(before, *old_val) as int;
                assert(t[i] == before[if i < k {
                    i
                } else {
                    i + 1
                }]);
            }
            lemma_rank_bound(t, new_val);
        }
        let inserted = self.insert(new_val);
        assert(inserted);
        taken
    }

    /// Whether an entry equal to `val` is present.
    pub fn contains(&self, val: &T) -> (found: bool)
        requires
            self.wf(),
        ensures
            found == self@.contains(*val),
    {
        self.index_of(val).1
    }

    /// The rank of `val`, counted from 0 for the highest-ranked entry, and
    /// whether `val` is present. For an absent value the rank is the one it
    /// would have if it were inserted.
    pub fn index_of(&self, val: &T) -> (r: (usize, bool))
        requires
            self.wf(),
        ensures
            r.0 == rank_in(self@, *val),
            r.1 == self@.contains(*val),
            r.1 ==> r.0 < self@.len() && self@[r.0 as int] == *val,
            r.0 <= self@.len(),
    {
        let mut ind: usize = 0;
        let mut cur = &self.sentinel.right;
        proof {
            self.lemma_view();
            lemma_rank_finds(self@, *val);
            lemma_rank_bound(self@, *val);
        }
        loop
            invariant
                self.wf(),
                Node::<T>::wf_of(*cur),
                ind + rank_in(Node::<T>::ranked_of(*cur), *val) == rank_in(self@, *val),
                Node::<T>::ranked_of(*cur).contains(*val) == self@.contains(*val),
                ind + Node::<T>::count_of(*cur) <= usize::MAX,
            decreases *cur,
        {
            match cur {
                None => {
                    assert(Node::<T>::ranked_of(*cur) =~= Seq::<T>::empty());
                    assert(rank_in(Seq::<T>::empty(), *val) == 0);
                    proof {
                        lemma_rank_bound(self@, *val);
                    }
                    return (ind, false);
                },
                Some(node) => {
                    proof {
                        lemma_rank_by_side(
                            Node::<T>::ranked_of(node.right),
                            node.entry,
                            Node::<T>::ranked_of(node.left),
                            *val,
                        );
                        T::law_connected(node.entry, *val);
                        Node::<T>::lemma_count_of(node.left);
                        Node::<T>::lemma_count_of(node.right);
                    }
                    if val.is_same(&node.entry) {
                        ind = ind + node.get_right_count();
                        proof {
                            self.lemma_view();
                            lemma_rank_finds(self@, *val);
                        }
                        return (ind, true);
                    } else if node.entry.is_below(val) {
                        cur = &node.right;
                    } else {
                        ind = ind + 1 + node.get_right_count();
                        cur = &node.left;
                    }
                },
            }
        }
    }

    /// The entry of rank `ind`, counted from 0 for the highest-ranked entry;
    /// `None` if the tree has no such rank.
    pub fn at_index(&self, ind: usize) -> (found: Option<&T>)
        requires
            self.wf(),
        ensures
            ind < self@.len() ==> found == Some(&self@[ind as int]),
            ind >= self@.len() ==> found is None,
    {
        let mut amount: usize = ind;
        let mut cur = &self.sentinel.right;
        proof {
            self.lemma_view();
        }
        loop
            invariant
                Node::<T>::wf_of(*cur),
                (ind < self@.len()) == (amount < Node::<T>::ranked_of(*cur).len()),
                ind < self@.len() ==> self@[ind as int] == Node::<T>::ranked_of(*cur)[amount as int],
            decreases *cur,
        {
            match cur {
                None => {
                    return None;
                },
                Some(node) => {
                    proof {
                        Node::<T>::lemma_count_of(node.left);
                        Node::<T>::lemma_count_of(node.right);
                    }
                    let right = node.get_right_count();
                    if amount == right {
                        return Some(&node.entry);
                    } else if amount < right {
                        cur = &node.right;
                    } else {
                        amount = amount - right - 1;
                        cur = &node.left;
                    }
                },
            }
        }
    }

    /// Whether the tree holds no entry.
    pub fn is_empty(&self) -> (r: bool)
        requires
            self.wf(),
        ensures
            r == (self@.len() == 0),
    {
        proof {
            self.lemma_view();
        }
        self.sentinel.right.is_none()
    }

    /// The number of entries.
    pub fn len(&self) -> (n: usize)
        requires
            self.wf(),
        ensures
            n == self@.len(),
    {
        proof {
            self.lemma_view();
        }
        self.sentinel.get_right_count()
    }

    /// The number of entries.
    pub fn size(&self) -> (n: usize)
        requires
            self.wf(),
        ensures
            n == self@.len(),
    {
        self.len()
    }

    /// Whether the tree holds no entry.
    pub fn empty(&self) -> (r: bool)
        requires
            self.wf(),
        ensures
            r == (self@.len() == 0),
    {
        self.is_empty()
    }

    /// The rank of `n`, counted from 1 for the highest-ranked entry; for an
    /// absent value the rank it would have if it were inserted.
    pub fn get_rank(&self, n: &T) -> (rank: usize)
        requires
            self.wf(),
            self@.len() < usize::MAX,
        ensures
            rank == rank_in(self@, *n) + 1,
    {
        self.index_of(n).0 + 1
    }

    /// The height of the tree: 0 if it is empty, 1 for a single entry.
    pub fn height(&self) -> (h: usize)
        ensures
            h == self.spec_height(),
    {
        self.sentinel.get_right_height()
    }

    /// Writes `val` over the entry of rank index `idx`, where `val` fits,
    /// and returns the entry that stood there. The shape of the tree stays
    /// as it is.
    pub fn put_at(&mut self, idx: usize, val: T) -> (was: T)
        requires
            old(self).wf(),
            idx < old(self)@.len(),
            crate::shift::fits_at(old(self)@, idx as int, val),
        ensures
            final(self).wf(),
            final(self)@ == old(self)@.update(idx as int, val),
            was == old(self)@[idx as int],
            final(self).spec_height() == old(self).spec_height(),
    {
        Node::put_at(&mut self.sentinel, true, idx, val)
    }

    /// Takes out the lowest-ranked entry and returns it; `None` on an empty tree.
    pub fn pop_lowest(&mut self) -> (taken: Option<T>)
        requires
            old(self).wf(),
        ensures
            final(self).wf(),
            old(self)@.len() == 0 ==> taken is None && final(self)@ == old(self)@,
            old(self)@.len() > 0 ==> taken == Some(old(self)@.last()) && final(self)@ == old(self)@.drop_last(),
    {
        proof {
            self.lemma_view();
        }
        if self.sentinel.right.is_none() {
            None
        } else {
            Some(Node::pop_edge(&mut self.sentinel, true, false))
        }
    }

    /// Takes out the highest-ranked entry and returns it; `None` on an empty tree.
    pub fn pop_highest(&mut self) -> (taken: Option<T>)
        requires
            old(self).wf(),
        ensures
            final(self).wf(),
            old(self)@.len() == 0 ==> taken is None && final(self)@ == old(self)@,
            old(self)@.len() > 0 ==> taken == Some(old(self)@.first()) && final(self)@ == old(self)@.drop_first(),
    {
        proof {
            self.lemma_view();
        }
        if self.sentinel.right.is_none() {
            None
        } else {
            Some(Node::pop_edge(&mut self.sentinel, true, true))
        }
    }

    /// Removes all entries.
    pub fn clear(&mut self)
        ensures
            final(self).wf(),
            final(self)@ == Seq::<T>::empty(),
    {
        self.sentinel.right = None;
    }
}

impl<T: Ranked> Tree<T> {
    /// The highest-ranked entry of a subtree.
    fn highest_of(link: &Option<Box<Node<T>>>) -> (top: Option<&T>)
        ensures
            Node::<T>::ranked_of(*link).len() == 0 ==> top is None,
            Node::<T>::ranked_of(*link).len() > 0 ==> top == Some(&Node::<T>::ranked_of(*link).first()),
            (*link is None) == (Node::<T>::ranked_of(*link).len() == 0),
        decreases *link,
    {
        match link {
            None => None,
            Some(n) => {
                match Self::highest_of(&n.right) {
                    Some(e) => Some(e),
                    None => Some(&n.entry),
                }
            },
        }
    }

    /// The lowest-ranked entry of a subtree.
    fn lowest_of(link: &Option<Box<Node<T>>>) -> (bottom: Option<&T>)
        ensures
            Node::<T>::ranked_of(*link).len() == 0 ==> bottom is None,
            Node::<T>::ranked_of(*link).len() > 0 ==> bottom == Some(&Node::<T>::ranked_of(*link).last()),
            (*link is None) == (Node::<T>::ranked_of(*link).len() == 0),
        decreases *link,
    {
        match link {
            None => None,
            Some(n) => {
                match Self::lowest_of(&n.left) {
                    Some(e) => Some(e),
                    None => Some(&n.entry),
                }
            },
        }
    }

    /// In a descending run everything sorts before `v` exactly if the first
    /// element does, and after `v` exactly if the last one does.
    proof fn lemma_bounds_by_edge(s: Seq<T>, v: T)
        requires
            descending(s),
            s.len() > 0,
        ensures
            crate::ranking::all_below(s, v) == s.first().below(v),
            crate::ranking::all_above(s, v) == v.below(s.last()),
    {
        if s.first().below(v) {
            assert forall|i: int| 0 <= i < s.len() implies (#[trigger] s[i]).below(v) by {
                if i > 0 {
                    T::law_transitive(s[i], s[0], v);
                }
            }
        }
        if v.below(s.last()) {
            assert forall|i: int| 0 <= i < s.len() implies v.below(#[trigger] s[i]) by {
                if i < s.len() - 1 {
                    T::law_transitive(v, s[s.len() - 1], s[i]);
                }
            }
        }
    }

    /// Whether a subtree is well formed, found out by looking at every node.
    pub fn valid_link(link: &Option<Box<Node<T>>>) -> (ok: bool)
        ensures
            ok == Node::<T>::wf_of(*link),
        decreases *link,
    {
        match link {
            None => true,
            Some(n) => {
                if !Self::valid_link(&n.left) {
                    return false;
                }
                if !Self::valid_link(&n.right) {
                    return false;
                }
                proof {
                    Node::<T>::lemma_ranked_descending(n.left);
                    Node::<T>::lemma_ranked_descending(n.right);
                    Node::<T>::lemma_count_of(n.left);
                    Node::<T>::lemma_count_of(n.right);
                    if Node::<T>::ranked_of(n.left).len() > 0 {
                        Self::lemma_bounds_by_edge(Node::<T>::ranked_of(n.left), n.entry);
                    }
                    if Node::<T>::ranked_of(n.right).len() > 0 {
                        Self::lemma_bounds_by_edge(Node::<T>::ranked_of(n.right), n.entry);
                    }
                }
                let left_ok = match Self::highest_of(&n.left) {
                    Some(e) => e.is_below(&n.entry),
                    None => true,
                };
                let right_ok = match Self::lowest_of(&n.right) {
                    Some(e) => n.entry.is_below(e),
                    None => true,
                };
                let lc = n.get_left_count();
                let rc = n.get_right_count();
                let lh = n.get_left_height();
                let rh = n.get_right_height();
                let tall = if lh >= rh {
                    lh
                } else {
                    rh
                };
                let count_ok = n.count >= 1 && n.count - 1 >= lc && n.count - 1 - lc == rc;
                let height_ok = n.height >= 1 && n.height - 1 == tall;
                left_ok && right_ok && count_ok && height_ok && !n.is_imbalanced()
            },
        }
    }

    /// Whether the tree is well formed, found out by looking at every node:
    /// the search order holds everywhere, counts and heights are the due
    /// ones, and no node has subtrees that differ in height by more than one.
    pub fn validate(&self) -> (ok: bool)
        ensures
            ok == self.wf(),
    {
        Self::valid_link(&self.sentinel.right)
    }
}

impl<T: Ranked + Copy> Tree<T> {
    /// `n` entries from position `from` on, in rank order.
    fn run_down(&self, from: usize, n: usize) -> (out: Vec<T>)
        requires
            self.wf(),
            from + n <= self@.len(),
        ensures
            out@ == self@.subrange(from as int, from + n),
    {
        proof {
            self.lemma_view();
        }
        let mut out: Vec<T> = Vec::new();
        let mut i: usize = 0;
        while i < n
            invariant
                self.wf(),
                from + n <= self@.len() <= usize::MAX,
                0 <= i <= n,
                out@ == self@.subrange(from as int, from + i),
            decreases n - i,
        {
            match self.at_index(from + i) {
                Some(e) => out.push(*e),
                None => {},
            }
            i = i + 1;
            assert(out@ =~= self@.subrange(from as int, from + i));
        }
        out
    }

    /// `n` entries from position `from` upwards, against rank order.
    fn run_up(&self, from: usize, n: usize) -> (out: Vec<T>)
        requires
            self.wf(),
            from < self@.len() || n == 0,
            n <= from + 1,
        ensures
            out@ == Seq::new(n as nat, |i: int| self@[from - i]),
    {
        proof {
            self.lemma_view();
        }
        let mut out: Vec<T> = Vec::new();
        let mut i: usize = 0;
        while i < n
            invariant
                self.wf(),
                from < self@.len() || n == 0,
                n <= from + 1,
                self@.len() <= usize::MAX,
                0 <= i <= n,
                out@ == Seq::new(i as nat, |j: int| self@[from - j]),
            decreases n - i,
        {
            match self.at_index(from - i) {
                Some(e) => out.push(*e),
                None => {},
            }
            i = i + 1;
            assert(out@ =~= Seq::new(i as nat, |j: int| self@[from - j]));
        }
        out
    }

    /// The `count` highest-ranked entries, highest first; all entries if
    /// the tree holds fewer.
    pub fn get_top(&self, count: usize) -> (top: Vec<T>)
        requires
            self.wf(),
        ensures
            top@ == self@.take(crate::window::least(count as int, self@.len() as int)),
    {
        let len = self.len();
        let n = if count <= len {
            count
        } else {
            len
        };
        let top = self.run_down(0, n);
        assert(top@ =~= self@.take(n as int));
        top
    }

    /// The `count` lowest-ranked entries, lowest first; all entries if the
    /// tree holds fewer.
    pub fn get_bottom(&self, count: usize) -> (bottom: Vec<T>)
        requires
            self.wf(),
        ensures
            bottom@ == Seq::new(
                crate::window::least(count as int, self@.len() as int) as nat,
                |i: int| self@[self@.len() - 1 - i],
            ),
    {
        let len = self.len();
        let n = if count <= len {
            count
        } else {
            len
        };
        if n == 0 {
            let bottom: Vec<T> = Vec::new();
            assert(bottom@ =~= Seq::new(0nat, |i: int| self@[self@.len() - 1 - i]));
            return bottom;
        }
        let bottom = self.run_up(len - 1, n);
        assert(bottom@ =~= Seq::new(n as nat, |i: int| self@[self@.len() - 1 - i]));
        bottom
    }

    /// Up to `count` entries that rank below `entry`, nearest first.
    /// `entry` itself need not be in the tree.
    pub fn get_after(&self, entry: T, count: usize) -> (after: Vec<T>)
        requires
            self.wf(),
        ensures
            ({
                let start = rank_in(self@, entry) + if self@.contains(entry) {
                    1int
                } else {
                    0int
                };
                after@ == self@.subrange(
                    start,
                    start + crate::window::least(count as int, self@.len() - start),
                )
            }),
    {
        proof {
            self.lemma_view();
        }
        let r = self.index_of(&entry);
        let start = if r.1 {
            r.0 + 1
        } else {
            r.0
        };
        let room = self.len() - start;
        let n = if count <= room {
            count
        } else {
            room
        };
        self.run_down(start, n)
    }

    /// Up to `count` entries that rank above `entry`, nearest first.
    /// `entry` itself need not be in the tree.
    pub fn get_before(&self, entry: T, count: usize) -> (before: Vec<T>)
        requires
            self.wf(),
        ensures
            before@ == Seq::new(
                crate::window::least(count as int, rank_in(self@, entry) as int) as nat,
                |i: int| self@[rank_in(self@, entry) - 1 - i],
            ),
    {
        let r = self.index_of(&entry);
        let n = if count <= r.0 {
            count
        } else {
            r.0
        };
        if n == 0 {
            let before: Vec<T> = Vec::new();
            assert(before@ =~= Seq::new(0nat, |i: int| self@[rank_in(self@, entry) - 1 - i]));
            return before;
        }
        let before = self.run_up(r.0 - 1, n);
        assert(before@ =~= Seq::new(n as nat, |i: int| self@[rank_in(self@, entry) - 1 - i]));
        before
    }

    /// A copy of a subtree, node for node.
    fn copy_link(link: &Option<Box<Node<T>>>) -> (out: Option<Box<Node<T>>>)
        ensures
            out == *link,
        decreases *link,
    {
        match link {
            None => None,
            Some(n) => Some(
                Box::new(
                    Node {
                        left: Self::copy_link(&n.left),
                        right: Self::copy_link(&n.right),
                        entry: n.entry,
                        count: n.count,
                        height: n.height,
                    },
                ),
            ),
        }
    }
}

impl<T: Ranked + Copy + Default> Tree<T> {
    /// A copy of `other`, node for node.
    pub fn from_tree(other: &Self) -> (tree: Self)
        ensures
            tree.root() == other.root(),
            tree@ == other@,
            tree.wf() == other.wf(),
    {
        Tree {
            sentinel: Node {
                left: None,
                right: Self::copy_link(&other.sentinel.right),
                entry: T::default(),
                count: 0,
                height: 0,
            },
        }
    }
}

impl<T: Ranked + Default> Tree<T> {
    /// The tree that hangs under a given root. It is well formed exactly if
    /// the subtree is.
    pub fn from_root(root: Option<Box<Node<T>>>) -> (tree: Self)
        ensures
            tree.root() == root,
    {
        Tree { sentinel: Node { left: None, right: root, entry: T::default(), count: 0, height: 0 } }
    }

    /// An empty tree.
    pub fn new() -> (tree: Self)
        ensures
            tree.wf(),
            tree@ == Seq::<T>::empty(),
    {
        Tree { sentinel: Node { left: None, right: None, entry: T::default(), count: 0, height: 0 } }
    }
}

} // verus!
