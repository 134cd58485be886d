use crate::node::Node;
use crate::order::Ranked;
use crate::ranking::rank_in;
use crate::tree::Tree;
use vstd::prelude::*;

verus! {

impl<T: Ranked> Node<T> {
    /// The subtree at whose top stands the entry of rank `i` of `link`,
    /// counted from 0 for the highest-ranked entry; `None` if `link` has no
    /// such rank.
    pub open spec fn spot(link: Option<Box<Node<T>>>, i: nat) -> Option<Box<Node<T>>>
        decreases link,
    {
        match link {
            None => None,
            Some(n) => {
                let rc = Self::count_of(n.right);
                if i == rc {
                    link
                } else if i < rc {
                    Self::spot(n.right, i)
                } else {
                    Self::spot(n.left, (i - rc - 1) as nat)
                }
            },
        }
    }

    /// The rank, within `link`, of the entry that stands right above the
    /// entry of rank `i` in the tree; `None` if that entry stands at the top
    /// of `link` or `link` has no such rank.
    pub open spec fn spot_above(link: Option<Box<Node<T>>>, i: nat) -> Option<nat>
        decreases link,
    {
        match link {
            None => None,
            Some(n) => {
                let rc = Self::count_of(n.right);
                if i == rc {
                    None
                } else if i < rc {
                    match Self::spot_above(n.right, i) {
                        Some(p) => Some(p),
                        None => if Self::spot(n.right, i) is Some {
                            Some(rc)
                        } else {
                            None
                        },
                    }
                } else {
                    match Self::spot_above(n.left, (i - rc - 1) as nat) {
                        Some(p) => Some(p + rc + 1),
                        None => if Self::spot(n.left, (i - rc - 1) as nat) is Some {
                            Some(rc)
                        } else {
                            None
                        },
                    }
                }
            },
        }
    }

    /// In a well-formed subtree every rank has its spot: a well-formed node
    /// that holds the entry of that rank, with as many entries ranked above
    /// it in its own subtree as its right subtree counts.
    pub proof fn lemma_spot(link: Option<Box<Node<T>>>, i: nat)
        requires
            Self::wf_of(link),
        ensures
            i < Self::ranked_of(link).len() ==> Self::spot(link, i) is Some && Self::wf_of(
                Self::spot(link, i),
            ) && Self::spot(link, i).unwrap().entry == Self::ranked_of(link)[i as int]
                && Self::count_of(Self::spot(link, i).unwrap().right) <= i && i + Self::count_of(
                Self::spot(link, i).unwrap().left,
            ) < Self::ranked_of(link).len(),
            i >= Self::ranked_of(link).len() ==> Self::spot(link, i) is None,
            Self::spot_above(link, i) matches Some(p) ==> p < Self::ranked_of(link).len(),
        decreases link,
    {
        match link {
            None => {},
            Some(n) => {
                Self::lemma_count_of(n.left);
                Self::lemma_count_of(n.right);
                let rc = Self::count_of(n.right);
                if i < rc {
                    Self::lemma_spot(n.right, i);
                } else if i > rc {
                    Self::lemma_spot(n.left, (i - rc - 1) as nat);
                }
            },
        }
    }
}

/// Where the step towards lower ranks leads from position `pos` in a ranking
/// of `len` entries: from past the end to rank index 0, from the last entry
/// to past the end.
pub open spec fn after_prev(pos: Option<usize>, len: nat) -> Option<usize> {
    match pos {
        None => if len > 0 {
            Some(0usize)
        } else {
            None
        },
        Some(i) => if i + 1 < len {
            Some((i + 1) as usize)
        } else {
            None
        },
    }
}

/// Where the step towards higher ranks leads from position `pos` in a
/// ranking of `len` entries: from past the end to the last entry, from rank
/// index 0 to past the end.
pub open spec fn after_next(pos: Option<usize>, len: nat) -> Option<usize> {
    match pos {
        None => if 0 < len <= usize::MAX {
            Some((len - 1) as usize)
        } else {
            None
        },
        Some(i) => if i == 0 || i > len {
            None
        } else {
            Some((i - 1) as usize)
        },
    }
}

impl<T: Ranked> Tree<T> {
    /// Where the step to the left child leads from `pos`: to the top of the
    /// left subtree, or past the end if there is none.
    pub open spec fn after_left(&self, pos: Option<usize>) -> Option<usize> {
        match pos {
            None => None,
            Some(i) => match Node::<T>::spot(self.root(), i as nat) {
                None => None,
                Some(n) => match n.left {
                    None => None,
                    Some(c) => Some((i + 1 + Node::<T>::count_of(c.right)) as usize),
                },
            },
        }
    }

    /// Where the step to the right child leads from `pos`: to the top of
    /// the right subtree, or past the end if there is none. From past the
    /// end it leads to the top of the tree.
    pub open spec fn after_right(&self, pos: Option<usize>) -> Option<usize> {
        match pos {
            None => match self.root() {
                None => None,
                Some(r) => Some(r.count_of_right()),
            },
            Some(i) => match Node::<T>::spot(self.root(), i as nat) {
                None => None,
                Some(n) => match n.right {
                    None => None,
                    Some(c) => Some((i - 1 - Node::<T>::count_of(c.left)) as usize),
                },
            },
        }
    }

    /// Where the step to the parent leads from `pos`: from the top of the
    /// tree, and from past the end, to past the end.
    pub open spec fn after_parent(&self, pos: Option<usize>) -> Option<usize> {
        match pos {
            None => None,
            Some(i) => match Node::<T>::spot_above(self.root(), i as nat) {
                None => None,
                Some(p) => Some(p as usize),
            },
        }
    }

    /// The node that holds the entry of rank index `ind`, if there is one.
    pub fn node_at_index(&self, ind: usize) -> (found: Option<&Node<T>>)
        requires
            self.wf(),
        ensures
            found is Some == (ind < self@.len()),
            found matches Some(n) ==> Node::<T>::spot(self.root(), ind as nat) == Some(Box::new(*n))
                && n.entry == self@[ind as int],
    {
        let mut amount: usize = ind;
        let mut cur = self.root_link();
        proof {
            Node::<T>::lemma_spot(self.root(), ind as nat);
        }
        loop
            invariant
                self.wf(),
                Node::<T>::wf_of(*cur),
                Node::<T>::spot(self.root(), ind as nat) == Node::<T>::spot(*cur, amount as nat),
            decreases *cur,
        {
            match cur {
                None => {
                    proof {
                        Node::<T>::lemma_spot(self.root(), ind as nat);
                    }
                    return None;
                },
                Some(node) => {
                    let right = node.get_right_count();
                    if amount == right {
                        proof {
                            Node::<T>::lemma_spot(self.root(), ind as nat);
                        }
                        return Some(&**node);
                    } else if amount < right {
                        cur = &node.right;
                    } else {
                        amount = amount - right - 1;
                        cur = &node.left;
                    }
                },
            }
        }
    }

    /// The rank index of the entry right above the entry of rank index
    /// `ind` in the tree; `None` if that entry stands at the top or the tree
    /// has no such rank.
    pub fn parent_index(&self, ind: usize) -> (found: Option<usize>)
        requires
            self.wf(),
        ensures
            found == self.after_parent(Some(ind)),
            found matches Some(p) ==> p < self@.len(),
    {
        let mut amount: usize = ind;
        let mut off: usize = 0;
        let mut above: Option<usize> = None;
        let mut cur = self.root_link();
        proof {
            self.lemma_view();
            Node::<T>::lemma_spot(self.root(), ind as nat);
        }
        loop
            invariant
                self.wf(),
                self@.len() <= usize::MAX,
                Node::<T>::wf_of(*cur),
                off + Node::<T>::count_of(*cur) <= self@.len(),
                above matches Some(a) ==> a < self@.len(),
                Node::<T>::spot_above(self.root(), ind as nat) == (match Node::<T>::spot_above(
                    *cur,
                    amount as nat,
                ) {
                    Some(p) => Some((p + off) as nat),
                    None => if Node::<T>::spot(*cur, amount as nat) is Some {
                        match above {
                            Some(a) => Some(a as nat),
                            None => None,
                        }
                    } else {
                        None
                    },
                }),
            decreases *cur,
        {
            match cur {
                None => {
                    return None;
                },
                Some(node) => {
                    proof {
                        Node::<T>::lemma_count_of(node.left);
                        Node::<T>::lemma_count_of(node.right);
                        Node::<T>::lemma_spot(node.left, (amount - Node::<T>::count_of(node.right) - 1) as nat);
                        Node::<T>::lemma_spot(node.right, amount as nat);
                    }
                    let right = node.get_right_count();
                    if amount == right {
                        return above;
                    } else if amount < right {
                        above = Some(off + right);
                        cur = &node.right;
                    } else {
                        above = Some(off + right);
                        off = off + right + 1;
                        amount = amount - right - 1;
                        cur = &node.left;
                    }
                },
            }
        }
    }

    /// The position that a step towards lower ranks reaches from `pos`.
    pub fn index_after_prev(&self, pos: Option<usize>) -> (next: Option<usize>)
        requires
            self.wf(),
        ensures
            next == after_prev(pos, self@.len()),
    {
        let len = self.len();
        match pos {
            None => if len > 0 {
                Some(0)
            } else {
                None
            },
            Some(i) => if i < len && i + 1 < len {
                Some(i + 1)
            } else {
                None
            },
        }
    }

    /// The position that a step towards higher ranks reaches from `pos`.
    pub fn index_after_next(&self, pos: Option<usize>) -> (next: Option<usize>)
        requires
            self.wf(),
        ensures
            next == after_next(pos, self@.len()),
    {
        let len = self.len();
        match pos {
            None => if len > 0 {
                Some(len - 1)
            } else {
                None
            },
            Some(i) => if i == 0 || i > len {
                None
            } else {
                Some(i - 1)
            },
        }
    }

    /// The position that a step to the left child reaches from `pos`.
    pub fn index_after_left(&self, pos: Option<usize>) -> (next: Option<usize>)
        requires
            self.wf(),
        ensures
            next == self.after_left(pos),
            next matches Some(i) ==> i < self@.len(),
    {
        let i = match pos {
            None => {
                return None;
            },
            Some(i) => i,
        };
        proof {
            self.lemma_view();
            Node::<T>::lemma_spot(self.root(), i as nat);
        }
        match self.node_at_index(i) {
            None => None,
            Some(n) => match &n.left {
                None => None,
                Some(c) => {
                    proof {
                        assert(n.wf());
                        assert(Node::<T>::wf_of(n.left));
                        assert(c.wf());
                        Node::<T>::lemma_count_of(n.left);
                        Node::<T>::lemma_count_of(c.left);
                        Node::<T>::lemma_count_of(c.right);
                    }
                    Some(i + 1 + c.get_right_count())
                },
            },
        }
    }

    /// The position that a step to the right child reaches from `pos`.
    pub fn index_after_right(&self, pos: Option<usize>) -> (next: Option<usize>)
        requires
            self.wf(),
        ensures
            next == self.after_right(pos),
            next matches Some(i) ==> i < self@.len(),
    {
        proof {
            self.lemma_view();
        }
        match pos {
            None => match self.root_link() {
                None => None,
                Some(r) => {
                    proof {
                        Node::<T>::lemma_count_of(r.left);
                        Node::<T>::lemma_count_of(r.right);
                    }
                    Some(r.get_right_count())
                },
            },
            Some(i) => {
                proof {
                    Node::<T>::lemma_spot(self.root(), i as nat);
                }
                match self.node_at_index(i) {
                    None => None,
                    Some(n) => match &n.right {
                        None => None,
                        Some(c) => {
                            proof {
                                assert(n.wf());
                                assert(Node::<T>::wf_of(n.right));
                                assert(c.wf());
                                Node::<T>::lemma_count_of(n.right);
                                Node::<T>::lemma_count_of(c.left);
                                Node::<T>::lemma_count_of(c.right);
                            }
                            Some(i - 1 - c.get_left_count())
                        },
                    },
                }
            },
        }
    }

    /// The entry at position `pos`; `None` past the end.
    pub fn value_at(&self, pos: Option<usize>) -> (found: Option<&T>)
        requires
            self.wf(),
        ensures
            found == (match pos {
                Some(i) => if i < self@.len() {
                    Some(&self@[i as int])
                } else {
                    None
                },
                None => None,
            }),
    {
        match pos {
            None => None,
            Some(i) => self.at_index(i),
        }
    }
}

impl<T> Node<T> {
    /// The entry count of the right subtree, as a machine number.
    pub open spec fn count_of_right(self) -> usize {
        match self.right {
            None => 0,
            Some(c) => c.count,
        }
    }
}

/// A position in a tree for reading: at an entry, or past the end. The
/// position past the end lies before the highest-ranked and behind the
/// lowest-ranked entry.
pub struct Cursor<'a, T> {
    pub tree: &'a Tree<T>,
    pub index: Option<usize>,
}

impl<'a, T: Ranked> Cursor<'a, T> {
    /// The tree is well formed and the cursor stands at one of its entries
    /// or past the end.
    pub open spec fn wf(&self) -> bool {
        &&& self.tree.wf()
        &&& self.index matches Some(i) ==> i < self.tree@.len()
    }

    /// Steps towards lower ranks: from past the end to rank index 0, from
    /// an entry to the next lower one, from the lowest past the end. Returns
    /// the entry reached.
    pub fn move_prev(&mut self) -> (found: Option<&T>)
        requires
            old(self).wf(),
        ensures
            final(self).wf(),
            final(self).tree == old(self).tree,
            final(self).index == after_prev(old(self).index, old(self).tree@.len()),
            found == (match final(self).index {
                Some(i) => Some(&old(self).tree@[i as int]),
                None => None,
            }),
    {
        self.index = self.tree.index_after_prev(self.index);
        self.tree.value_at(self.index)
    }

    /// Steps towards higher ranks: from past the end to the lowest-ranked
    /// entry, from an entry to the next higher one, from rank index 0 past
    /// the end. Returns the entry reached.
    pub fn move_next(&mut self) -> (found: Option<&T>)
        requires
            old(self).wf(),
        ensures
            final(self).wf(),
            final(self).tree == old(self).tree,
            final(self).index == after_next(old(self).index, old(self).tree@.len()),
            found == (match final(self).index {
                Some(i) => Some(&old(self).tree@[i as int]),
                None => None,
            }),
    {
        proof {
            self.tree.lemma_view();
        }
        self.index = self.tree.index_after_next(self.index);
        self.tree.value_at(self.index)
    }

    /// Steps to the left child, or past the end if there is none.
    pub fn move_left(&mut self) -> (found: Option<&T>)
        requires
            old(self).wf(),
        ensures
            final(self).wf(),
            final(self).tree == old(self).tree,
            final(self).index == old(self).tree.after_left(old(self).index),
            found == (match final(self).index {
                Some(i) => Some(&old(self).tree@[i as int]),
                None => None,
            }),
    {
        self.index = self.tree.index_after_left(self.index);
        self.tree.value_at(self.index)
    }

    /// Steps to the right child, or past the end if there is none. From
    /// past the end the step leads to the top of the tree.
    pub fn move_right(&mut self) -> (found: Option<&T>)
        requires
            old(self).wf(),
        ensures
            final(self).wf(),
            final(self).tree == old(self).tree,
            final(self).index == old(self).tree.after_right(old(self).index),
            found == (match final(self).index {
                Some(i) => Some(&old(self).tree@[i as int]),
                None => None,
            }),
    {
        self.index = self.tree.index_after_right(self.index);
        self.tree.value_at(self.index)
    }

    /// Steps to the parent; from the top of the tree past the end.
    pub fn move_parent(&mut self) -> (found: Option<&T>)
        requires
            old(self).wf(),
        ensures
            final(self).wf(),
            final(self).tree == old(self).tree,
            final(self).index == old(self).tree.after_parent(old(self).index),
            found == (match final(self).index {
                Some(i) => Some(&old(self).tree@[i as int]),
                None => None,
            }),
    {
        self.index = match self.index {
            None => None,
            Some(i) => self.tree.parent_index(i),
        };
        self.tree.value_at(self.index)
    }

    /// The rank index of the entry at the cursor, counted from 0 for the
    /// highest-ranked entry; `None` past the end.
    pub fn get_index(&self) -> (r: Option<usize>)
        ensures
            r == self.index,
    {
        self.index
    }

    /// The entry at the cursor; `None` past the end.
    pub fn get_value(&self) -> (found: Option<&T>)
        requires
            self.wf(),
        ensures
            found == (match self.index {
                Some(i) => Some(&self.tree@[i as int]),
                None => None,
            }),
    {
        self.tree.value_at(self.index)
    }

    /// Whether the cursor stands past the end.
    pub fn is_at_end(&self) -> (r: bool)
        ensures
            r == (self.index is None),
    {
        self.index.is_none()
    }

    /// Whether the node at the cursor has a left child. Past the end there
    /// is none.
    pub fn has_left(&self) -> (r: bool)
        requires
            self.wf(),
        ensures
            r == (self.tree.after_left(self.index) is Some),
    {
        self.tree.index_after_left(self.index).is_some()
    }

    /// Whether the node at the cursor has a right child. Past the end that
    /// is the top of the tree.
    pub fn has_right(&self) -> (r: bool)
        requires
            self.wf(),
        ensures
            r == (self.tree.after_right(self.index) is Some),
    {
        self.tree.index_after_right(self.index).is_some()
    }

    /// Whether the cursor stands at the top of the tree.
    pub fn is_root(&self) -> (r: bool)
        requires
            self.wf(),
        ensures
            r == (self.index is Some && self.tree.after_parent(self.index) is None),
    {
        match self.index {
            None => false,
            Some(i) => self.tree.parent_index(i).is_none(),
        }
    }

    /// The height of the subtree under the node at the cursor; `None` past
    /// the end.
    pub fn get_height(&self) -> (h: Option<usize>)
        requires
            self.wf(),
        ensures
            h == (match self.index {
                Some(i) => Some(Node::<T>::spot(self.tree.root(), i as nat).unwrap().height),
                None => None,
            }),
    {
        match self.index {
            None => None,
            Some(i) => match self.tree.node_at_index(i) {
                Some(n) => Some(n.height),
                None => None,
            },
        }
    }

    /// The tree the cursor moves in.
    pub fn get_tree(&self) -> (tree: &Tree<T>)
        ensures
            tree == self.tree,
    {
        self.tree
    }
}

impl<T: Ranked> Tree<T> {
    /// A cursor past the end.
    pub fn cursor<'a>(&'a self) -> (c: Cursor<'a, T>)
        ensures
            c.tree == self,
            c.index is None,
    {
        Cursor { tree: self, index: None }
    }

    /// A cursor at the entry of rank index `index`; `None` if the tree has
    /// no such rank.
    pub fn seek_index<'a>(&'a self, index: usize) -> (found: Option<Cursor<'a, T>>)
        requires
            self.wf(),
        ensures
            found is Some == (index < self@.len()),
            found matches Some(c) ==> c.tree == self && c.index == Some(index),
    {
        if index < self.len() {
            Some(Cursor { tree: self, index: Some(index) })
        } else {
            None
        }
    }

    /// A cursor at the entry equal to `val`; `None` if there is none.
    pub fn seek_val<'a>(&'a self, val: &T) -> (found: Option<Cursor<'a, T>>)
        requires
            self.wf(),
        ensures
            found is Some == self@.contains(*val),
            found matches Some(c) ==> c.tree == self && c.index == Some(rank_in(self@, *val) as usize)
                && c.wf(),
    {
        let r = self.index_of(val);
        if r.1 {
            Some(Cursor { tree: self, index: Some(r.0) })
        } else {
            None
        }
    }
}

} // verus!
