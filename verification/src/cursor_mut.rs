use crate::cursor::after_next;
use crate::cursor::after_prev;
use crate::order::Ranked;
use crate::ranking::lemma_rank_finds;
use crate::ranking::lemma_rank_of_member;
use crate::ranking::rank_in;
use crate::tree::Tree;
use vstd::prelude::*;

verus! {

/// A position in a tree for reading and changing: at an entry, or past the
/// end. While the cursor lives, the tree changes through it alone.
pub struct CursorMut<'a, T> {
    pub tree: &'a mut Tree<T>,
    pub index: Option<usize>,
}

impl<'a, T: Ranked + Copy> CursorMut<'a, T> {
    /// The tree is well formed and the cursor stands at one of its entries
    /// or past the end.
    pub open spec fn wf(&self) -> bool {
        &&& self.tree.wf()
        &&& self.index matches Some(i) ==> i < self.tree@.len()
    }

    /// Steps towards lower ranks: from past the end to rank index 0, from
    /// an entry to the next lower one, from the lowest past the end. Returns
    /// the entry reached.
    pub fn move_prev(&mut self) -> (found: Option<T>)
        requires
            old(self).wf(),
        ensures
            final(self).wf(),
            *final(self).tree == *old(self).tree,
            *final(final(self).tree) == *final(old(self).tree),
            final(self).index == after_prev(old(self).index, old(self).tree@.len()),
            found == (match final(self).index {
                Some(i) => Some(old(self).tree@[i as int]),
                None => None,
            }),
    {
        self.index = self.tree.index_after_prev(self.index);
        self.get_value()
    }

    /// Steps towards higher ranks: from past the end to the lowest-ranked
    /// entry, from an entry to the next higher one, from rank index 0 past
    /// the end. Returns the entry reached.
    pub fn move_next(&mut self) -> (found: Option<T>)
        requires
            old(self).wf(),
        ensures
            final(self).wf(),
            *final(self).tree == *old(self).tree,
            *final(final(self).tree) == *final(old(self).tree),
            final(self).index == after_next(old(self).index, old(self).tree@.len()),
            found == (match final(self).index {
                Some(i) => Some(old(self).tree@[i as int]),
                None => None,
            }),
    {
        proof {
            self.tree.lemma_view();
        }
        self.index = self.tree.index_after_next(self.index);
        self.get_value()
    }

    /// The rank index of the entry at the cursor, counted from 0 for the
    /// highest-ranked entry; `None` past the end.
    pub fn get_index(&self) -> (r: Option<usize>)
        ensures
            r == self.index,
    {
        self.index
    }

    /// The entry at the cursor; `None` past the end.
    pub fn get_value(&self) -> (found: Option<T>)
        requires
            self.wf(),
        ensures
            found == (match self.index {
                Some(i) => Some(old(self.tree)@[i as int]),
                None => None,
            }),
    {
        match self.tree.value_at(self.index) {
            Some(v) => Some(*v),
            None => None,
        }
    }

    /// Whether the cursor stands past the end.
    pub fn is_at_end(&self) -> (r: bool)
        ensures
            r == (self.index is None),
    {
        self.index.is_none()
    }

    /// The tree the cursor moves in.
    pub fn get_tree(&self) -> (tree: &Tree<T>)
        ensures
            *tree == *old(self.tree),
    {
        &*self.tree
    }

    /// Takes out the entry that a step towards higher ranks would reach,
    /// and returns it: past the end that is the lowest-ranked entry. `None`,
    /// and no change, if the step would lead past the end. The cursor stays
    /// at its entry, whose rank index goes down by one.
    pub fn delete_next(&mut self) -> (taken: Option<T>)
        requires
            old(self).wf(),
        ensures
            final(self).wf(),
            *final(final(self).tree) == *final(old(self).tree),
            after_next(old(self).index, old(self).tree@.len()) matches Some(t) ==> taken == Some(
                old(self).tree@[t as int],
            ) && final(self).tree@ == old(self).tree@.remove(t as int) && final(self).index == (
            match old(self).index {
                Some(i) => Some((i - 1) as usize),
                None => None,
            }),
            after_next(old(self).index, old(self).tree@.len()) is None ==> taken is None && final(
                self).tree@ == old(self).tree@ && final(self).index == old(self).index,
    {
        proof {
            self.tree.lemma_view();
        }
        let target = match self.tree.index_after_next(self.index) {
            None => {
                return None;
            },
            Some(t) => t,
        };
        let val = match self.tree.at_index(target) {
            Some(v) => *v,
            None => {
                return None;
            },
        };
        proof {
            lemma_rank_of_member(self.tree@, target as int);
        }
        let taken = self.tree.remove(&val);
        self.index = match self.index {
            Some(i) => Some(i - 1),
            None => None,
        };
        taken
    }

    /// Takes out the entry that a step towards lower ranks would reach, and
    /// returns it: past the end that is the highest-ranked entry. `None`,
    /// and no change, if the step would lead past the end. The cursor stays
    /// where it is.
    pub fn delete_prev(&mut self) -> (taken: Option<T>)
        requires
            old(self).wf(),
        ensures
            final(self).wf(),
            *final(final(self).tree) == *final(old(self).tree),
            final(self).index == old(self).index,
            after_prev(old(self).index, old(self).tree@.len()) matches Some(t) ==> taken == Some(
                old(self).tree@[t as int],
            ) && final(self).tree@ == old(self).tree@.remove(t as int),
            after_prev(old(self).index, old(self).tree@.len()) is None ==> taken is None && final(
                self).tree@ == old(self).tree@,
    {
        proof {
            self.tree.lemma_view();
        }
        let target = match self.tree.index_after_prev(self.index) {
            None => {
                return None;
            },
            Some(t) => t,
        };
        let val = match self.tree.at_index(target) {
            Some(v) => *v,
            None => {
                return None;
            },
        };
        proof {
            lemma_rank_of_member(self.tree@, target as int);
        }
        self.tree.remove(&val)
    }

    /// Puts `val` in the place of the entry at the cursor and returns the
    /// entry that was there; the cursor follows the new entry to its rank.
    /// `None`, and no change, past the end, and where `val` is present as
    /// another entry of the tree.
    pub fn replace(&mut self, val: T) -> (displaced: Option<T>)
        requires
            old(self).wf(),
        ensures
            final(self).wf(),
            *final(final(self).tree) == *final(old(self).tree),
            displaced is Some == (old(self).index matches Some(i) && (!old(self).tree@.contains(val)
                || val == old(self).tree@[i as int])),
            displaced is Some ==> displaced == Some(old(self).tree@[old(self).index.unwrap() as int])
                && final(self).tree@ == Tree::<T>::moved(
                old(self).tree@,
                old(self).tree@[old(self).index.unwrap() as int],
                val,
            ) && final(self).index == Some(rank_in(final(self).tree@, val) as usize),
            displaced is None ==> final(self).tree@ == old(self).tree@ && final(self).index == old(
                self).index,
    {
        proof {
            self.tree.lemma_view();
        }
        let ind = match self.index {
            None => {
                return None;
            },
            Some(i) => i,
        };
        let old_val = match self.tree.at_index(ind) {
            Some(v) => *v,
            None => {
                return None;
            },
        };
        proof {
            assert(self.tree@.contains(old_val));
        }
        let displaced = self.tree.replace(&old_val, val);
        if displaced.is_some() {
            proof {
                self.tree.lemma_view();
                let t = old(self).tree@.remove(rank_in(old(self).tree@, old_val) as int);
                crate::ranking::lemma_rank_bound(t, val);
                assert(self.tree@[rank_in(t, val) as int] == val);
                lemma_rank_finds(self.tree@, val);
            }
            let r = self.tree.index_of(&val);
            self.index = Some(r.0);
        }
        displaced
    }
}

impl<T: Ranked + Copy> Tree<T> {
    /// A cursor past the end, through which the tree can be changed.
    pub fn cursor_mut<'a>(&'a mut self) -> (c: CursorMut<'a, T>)
        ensures
            *c.tree == *old(self),
            *final(c.tree) == *final(self),
            c.index is None,
    {
        CursorMut { tree: self, index: None }
    }

    /// A cursor at the entry of rank index `index`, through which the tree
    /// can be changed; `None` if the tree has no such rank.
    pub fn seek_index_mut<'a>(&'a mut self, index: usize) -> (found: Option<CursorMut<'a, T>>)
        requires
            old(self).wf(),
        ensures
            found is Some == (index < old(self)@.len()),
            found matches Some(c) ==> *c.tree == *old(self) && *final(c.tree) == *final(self)
                && c.index == Some(index),
            found is None ==> *final(self) == *old(self),
    {
        if index < self.len() {
            Some(CursorMut { tree: self, index: Some(index) })
        } else {
            None
        }
    }

    /// A cursor at the entry equal to `val`, through which the tree can be
    /// changed; `None` if there is none.
    pub fn seek_val_mut<'a>(&'a mut self, val: &T) -> (found: Option<CursorMut<'a, T>>)
        requires
            old(self).wf(),
        ensures
            found is Some == old(self)@.contains(*val),
            found matches Some(c) ==> *c.tree == *old(self) && *final(c.tree) == *final(self)
                && c.index == Some(rank_in(old(self)@, *val) as usize) && c.wf(),
            found is None ==> *final(self) == *old(self),
    {
        let r = self.index_of(val);
        if r.1 {
            Some(CursorMut { tree: self, index: Some(r.0) })
        } else {
            None
        }
    }
}

} // verus!
