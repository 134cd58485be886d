use crate::node::Node;
use crate::order::Ranked;
use crate::ranking::all_above;
use crate::ranking::all_below;
use crate::ranking::ascending;
use crate::ranking::descending;
use crate::ranking::lemma_descending_parts;
use vstd::prelude::*;

verus! {

impl<T: Ranked> Node<T> {
    /// A subtree is well formed if it is empty or its top node is.
    pub open spec fn wf_of(link: Option<Box<Node<T>>>) -> bool
        decreases link,
    {
        match link {
            None => true,
            Some(n) => n.wf(),
        }
    }

    /// The search order holds at this node: all of the left subtree sorts
    /// before the node's entry, all of the right subtree after it.
    pub open spec fn ordered_here(self) -> bool {
        &&& all_below(Self::ranked_of(self.left), self.entry)
        &&& all_above(Self::ranked_of(self.right), self.entry)
    }

    /// A well-formed node: both subtrees are well formed, the search order
    /// holds here, the recorded count and height are the due ones, and the
    /// subtrees differ in height by at most one.
    pub open spec fn wf(self) -> bool
        decreases self,
    {
        &&& Self::wf_of(self.left)
        &&& Self::wf_of(self.right)
        &&& self.ordered_here()
        &&& self.count == self.due_count()
        &&& self.height == self.due_height()
        &&& !self.lopsided()
    }

    /// Well formed but for the node's own bookkeeping: the subtrees are well
    /// formed and the search order holds here.
    pub open spec fn loose(self) -> bool {
        &&& Self::wf_of(self.left)
        &&& Self::wf_of(self.right)
        &&& self.ordered_here()
    }

    /// A well-formed subtree records as its count the number of its entries,
    /// and is no taller than it has entries.
    pub proof fn lemma_count_of(link: Option<Box<Node<T>>>)
        requires
            Self::wf_of(link),
        ensures
            Self::count_of(link) == Self::ranked_of(link).len(),
            Self::height_of(link) <= Self::count_of(link),
            (link is None) == (Self::count_of(link) == 0),
            (link is None) == (Self::height_of(link) == 0),
        decreases link,
    {
        match link {
            None => {},
            Some(n) => {
                Self::lemma_count_of(n.left);
                Self::lemma_count_of(n.right);
            },
        }
    }

    /// The entries of a well-formed subtree are strictly descending when read
    /// highest-ranked first.
    pub proof fn lemma_ranked_descending(link: Option<Box<Node<T>>>)
        requires
            Self::wf_of(link),
        ensures
            descending(Self::ranked_of(link)),
        decreases link,
    {
        match link {
            None => {},
            Some(n) => {
                Self::lemma_ranked_descending(n.left);
                Self::lemma_ranked_descending(n.right);
                lemma_descending_parts(Self::ranked_of(n.right), n.entry, Self::ranked_of(n.left));
            },
        }
    }

    /// Reading a subtree in search order gives its ranked entries backwards.
    pub proof fn lemma_in_order_reverses(link: Option<Box<Node<T>>>)
        ensures
            Self::in_order_of(link) == Self::ranked_of(link).reverse(),
        decreases link,
    {
        match link {
            None => {
                assert(Self::in_order_of(link) =~= Self::ranked_of(link).reverse());
            },
            Some(n) => {
                Self::lemma_in_order_reverses(n.left);
                Self::lemma_in_order_reverses(n.right);
                let r = Self::ranked_of(n.right);
                let l = Self::ranked_of(n.left);
                assert(l.reverse().push(n.entry) + r.reverse() =~= (r.push(n.entry) + l).reverse());
            },
        }
    }

    /// The search order of a well-formed subtree is strictly ascending, so it
    /// holds no entry twice.
    pub proof fn lemma_in_order_ascending(link: Option<Box<Node<T>>>)
        requires
            Self::wf_of(link),
        ensures
            ascending(Self::in_order_of(link)),
            Self::in_order_of(link).no_duplicates(),
    {
        Self::lemma_in_order_reverses(link);
        Self::lemma_ranked_descending(link);
        let r = Self::ranked_of(link);
        let a = Self::in_order_of(link);
        assert forall|i: int, j: int| 0 <= i < j < a.len() implies (#[trigger] a[i]).below(
            #[trigger] a[j],
        ) by {
            assert(a[i] == r[r.len() - 1 - i]);
            assert(a[j] == r[r.len() - 1 - j]);
        }
        assert forall|i: int, j: int| 0 <= i < a.len() && 0 <= j < a.len() && i != j implies a[i]
            != a[j] by {
            if i < j {
                crate::order::lemma_asymmetric(a[i], a[j]);
            } else {
                crate::order::lemma_asymmetric(a[j], a[i]);
            }
        }
    }
}

} // verus!
