use crate::node::Node;
use crate::order::Ranked;
use crate::ranking::descending;
use crate::ranking::lemma_rank_concat;
use crate::ranking::rank_in;
use crate::tree::Tree;
use vstd::prelude::*;

verus! {

/// `v` fits at position `k` of `s` in place of what stands there: everything
/// ahead of `k` outranks `v`, and `v` outranks everything behind `k`.
pub open spec fn fits_at<T: Ranked>(s: Seq<T>, k: int, v: T) -> bool {
    &&& forall|i: int| 0 <= i < k && i < s.len() ==> v.below(#[trigger] s[i])
    &&& forall|i: int| k < i < s.len() ==> (#[trigger] s[i]).below(v)
}

/// Taking an element out lowers the count of elements above `v` by one if
/// that element was above `v`, and leaves it as it is otherwise.
pub proof fn lemma_rank_without<T: Ranked>(s: Seq<T>, p: int, v: T)
    requires
        0 <= p < s.len(),
    ensures
        rank_in(s, v) == rank_in(s.remove(p), v) + if v.below(s[p]) {
            1nat
        } else {
            0nat
        },
{
    let a = s.subrange(0, p);
    let b = s.subrange(p + 1, s.len() as int);
    assert(s =~= a.push(s[p]) + b);
    assert(s.remove(p) =~= a + b);
    lemma_rank_concat(a.push(s[p]), b, v);
    lemma_rank_concat(a, b, v);
    crate::ranking::lemma_rank_push(a, s[p], v);
}

impl<T: Ranked> Node<T> {
    /// Writes `val` over the entry of rank index `idx` in the subtree on the
    /// side `right` of `parent`, where `val` fits, and returns the entry that
    /// stood there. The shape of the subtree stays as it is.
    pub fn put_at(parent: &mut Node<T>, right: bool, idx: usize, val: T) -> (was: T)
        requires
            Self::wf_of(old(parent).child(right)),
            idx < Self::ranked_of(old(parent).child(right)).len(),
            fits_at(Self::ranked_of(old(parent).child(right)), idx as int, val),
        ensures
            Self::wf_of(final(parent).child(right)),
            Self::ranked_of(final(parent).child(right)) == Self::ranked_of(
                old(parent).child(right),
            ).update(idx as int, val),
            was == Self::ranked_of(old(parent).child(right))[idx as int],
            Self::height_of(final(parent).child(right)) == Self::height_of(old(parent).child(right)),
            Self::count_of(final(parent).child(right)) == Self::count_of(old(parent).child(right)),
            final(parent).child(!right) == old(parent).child(!right),
            final(parent).entry == old(parent).entry,
            final(parent).count == old(parent).count,
            final(parent).height == old(parent).height,
        decreases old(parent).child(right),
    {
        let mut node = match parent.take_child(right) {
            Some(node) => node,
            None => vstd::pervasive::unreached(),
        };
        let ghost before = *node;
        let ghost r = Self::ranked_of(before.right);
        let ghost l = Self::ranked_of(before.left);
        let ghost s = before.ranked();
        proof {
            Self::lemma_count_of(before.left);
            Self::lemma_count_of(before.right);
            assert(s == r.push(before.entry) + l);
            assert forall|i: int| 0 <= i < r.len() implies s[i] == r[i] by {}
            assert(s[r.len() as int] == before.entry);
            assert forall|i: int| 0 <= i < l.len() implies s[r.len() + 1 + i] == l[i] by {}
        }
        let rc = node.get_right_count();
        if idx == rc {
            let Node { left, right: rest, entry, count, height } = *node;
            let next = Node { left, right: rest, entry: val, count, height };
            proof {
                assert(crate::ranking::all_above(r, val)) by {
                    assert forall|i: int| 0 <= i < r.len() implies val.below(#[trigger] r[i]) by {
                        assert(s[i] == r[i]);
                    }
                }
                assert(crate::ranking::all_below(l, val)) by {
                    assert forall|i: int| 0 <= i < l.len() implies (#[trigger] l[i]).below(val) by {
                        assert(s[r.len() + 1 + i] == l[i]);
                    }
                }
                assert(next.ranked() =~= s.update(idx as int, val));
            }
            parent.put_child(right, Some(Box::new(next)));
            entry
        } else if idx < rc {
            proof {
                assert(fits_at(r, idx as int, val)) by {
                    assert forall|i: int| 0 <= i < idx && i < r.len() implies val.below(
                        #[trigger] r[i],
                    ) by {
                        assert(s[i] == r[i]);
                    }
                    assert forall|i: int| idx < i < r.len() implies (#[trigger] r[i]).below(val) by {
                        assert(s[i] == r[i]);
                    }
                }
            }
            let was = Self::put_at(&mut *node, true, idx, val);
            proof {
                let r2 = r.update(idx as int, val);
                assert(crate::ranking::all_above(r2, before.entry)) by {
                    assert(s[r.len() as int].below(val));
                    assert forall|i: int| 0 <= i < r2.len() implies before.entry.below(
                        #[trigger] r2[i],
                    ) by {
                        if i != idx {
                            assert(r2[i] == r[i]);
                        }
                    }
                }
                assert(node.wf());
                assert(node.ranked() =~= s.update(idx as int, val));
            }
            parent.put_child(right, Some(node));
            was
        } else {
            let sub = idx - rc - 1;
            proof {
                assert(fits_at(l, sub as int, val)) by {
                    assert forall|i: int| 0 <= i < sub && i < l.len() implies val.below(
                        #[trigger] l[i],
                    ) by {
                        assert(s[r.len() + 1 + i] == l[i]);
                    }
                    assert forall|i: int| sub < i < l.len() implies (#[trigger] l[i]).below(val) by {
                        assert(s[r.len() + 1 + i] == l[i]);
                    }
                }
            }
            let was = Self::put_at(&mut *node, false, sub, val);
            proof {
                let l2 = l.update(sub as int, val);
                assert(crate::ranking::all_below(l2, before.entry)) by {
                    assert(val.below(s[r.len() as int]));
                    assert forall|i: int| 0 <= i < l2.len() implies (#[trigger] l2[i]).below(
                        before.entry,
                    ) by {
                        if i != sub {
                            assert(l2[i] == l[i]);
                        }
                    }
                }
                assert(node.wf());
                assert(node.ranked() =~= s.update(idx as int, val));
            }
            parent.put_child(right, Some(node));
            was
        }
    }
}

/// The ranking in the middle of a shift from position `from` to position
/// `to`: the positions from `at` to the far end `to` hold what they hold in
/// the end, all others what they held at the start.
pub open spec fn mid_shift<T>(s: Seq<T>, from: int, to: int, val: T, at: int) -> Seq<T> {
    let done = s.remove(from).insert(to, val);
    Seq::new(
        s.len(),
        |j: int|
            if (from <= to && at <= j <= to) || (to <= from && to <= j <= at) {
                done[j]
            } else {
                s[j]
            },
    )
}

/// What stands where after a shift: the entries between the two positions
/// have moved by one towards the position that was left, the new value
/// stands at its position, and everything else stands where it stood.
proof fn lemma_shifted<T>(s: Seq<T>, from: int, to: int, val: T)
    requires
        0 <= from < s.len(),
        0 <= to < s.len(),
    ensures
        s.remove(from).insert(to, val).len() == s.len(),
        forall|j: int|
            0 <= j < s.len() ==> #[trigger] s.remove(from).insert(to, val)[j] == (if j == to {
                val
            } else if from <= j < to {
                s[j + 1]
            } else if to < j <= from {
                s[j - 1]
            } else {
                s[j]
            }),
{
}

/// What a position of a descending ranking lets in, in the middle of a
/// shift: the entry that the shift carries to it.
proof fn lemma_shift_step<T: Ranked>(s: Seq<T>, from: int, to: int, val: T, at: int)
    requires
        descending(s),
        0 <= from < s.len(),
        0 <= to < s.len(),
        fits_at(s.remove(from).insert(to, val), to, val),
        (from <= at <= to) || (to <= at <= from),
    ensures
        ({
            let done = s.remove(from).insert(to, val);
            let back = if from <= to {
                at + 1
            } else {
                at - 1
            };
            let ahead = if from <= to {
                at - 1
            } else {
                at + 1
            };
            let cur = if at == to {
                s
            } else {
                mid_shift(s, from, to, val, back)
            };
            &&& fits_at(cur, at, done[at])
            &&& cur.len() == s.len()
            &&& cur[at] == s[at]
            &&& cur.update(at, done[at]) == mid_shift(s, from, to, val, at)
            &&& at == from ==> mid_shift(s, from, to, val, at) == done
            &&& at != from ==> done[ahead] == s[at]
        }),
{
    let done = s.remove(from).insert(to, val);
    lemma_shifted(s, from, to, val);
    let back = if from <= to {
        at + 1
    } else {
        at - 1
    };
    let cur = if at == to {
        s
    } else {
        mid_shift(s, from, to, val, back)
    };
    let v = done[at];
    assert forall|i: int| 0 <= i < at && i < cur.len() implies v.below(#[trigger] cur[i]) by {
        if at == to {
            assert(cur[i] == s[i]);
            assert(val.below(done[i]));
            if from <= i {
                assert(done[i] == s[i + 1]);
                T::law_transitive(val, s[i + 1], s[i]);
            }
        } else if from <= to {
            assert(v == s[at + 1]);
            assert(cur[i] == s[i]);
        } else {
            assert(v == s[at - 1]);
            assert(done[at].below(val));
            if i < to {
                assert(cur[i] == s[i]);
            } else if i == to {
                assert(cur[i] == val);
            } else {
                assert(cur[i] == s[i - 1]);
            }
        }
    }
    assert forall|i: int| at < i < cur.len() implies (#[trigger] cur[i]).below(v) by {
        if at == to {
            assert(cur[i] == s[i]);
            assert(done[i].below(val));
            if i <= from {
                assert(done[i] == s[i - 1]);
                T::law_transitive(s[i], s[i - 1], val);
            }
        } else if from <= to {
            assert(v == s[at + 1]);
            assert(val.below(done[at]));
            if i < to {
                assert(cur[i] == s[i + 1]);
            } else if i == to {
                assert(cur[i] == val);
            } else {
                assert(cur[i] == s[i]);
            }
        } else {
            assert(v == s[at - 1]);
            assert(cur[i] == s[i]);
        }
    }
    assert(cur.update(at, v) =~= mid_shift(s, from, to, val, at));
    if at == from {
        assert(mid_shift(s, from, to, val, at) =~= done);
    }
}

impl<T: Ranked> Tree<T> {
    /// Moves the entry at rank index `from` out and puts `val` in at rank
    /// index `to`, where it fits once the old entry is gone, by handing
    /// each entry between the two positions on to its neighbour. The shape
    /// of the tree stays as it is. Returns the entry that was moved out.
    pub fn shift(&mut self, from: usize, to: usize, val: T) -> (was: T)
        requires
            old(self).wf(),
            from < old(self)@.len(),
            to < old(self)@.len(),
            fits_at(old(self)@.remove(from as int).insert(to as int, val), to as int, val),
        ensures
            final(self).wf(),
            final(self)@ == old(self)@.remove(from as int).insert(to as int, val),
            was == old(self)@[from as int],
            final(self).spec_height() == old(self).spec_height(),
    {
        let ghost s = self@;
        proof {
            self.lemma_view();
        }
        let mut carry = val;
        let mut at = to;
        loop
            invariant
                self.wf(),
                s == old(self)@,
                descending(s),
                from < s.len(),
                to < s.len(),
                s.len() <= usize::MAX,
                fits_at(s.remove(from as int).insert(to as int, val), to as int, val),
                (from <= at <= to) || (to <= at <= from),
                self.spec_height() == old(self).spec_height(),
                carry == s.remove(from as int).insert(to as int, val)[at as int],
                self@ == (if at == to {
                    s
                } else {
                    mid_shift(
                        s,
                        from as int,
                        to as int,
                        val,
                        if from <= to {
                            at + 1
                        } else {
                            at - 1
                        },
                    )
                }),
            decreases
                    (if from <= to {
                        at - from
                    } else {
                        from - at
                    }),
        {
            proof {
                lemma_shift_step(s, from as int, to as int, val, at as int);
            }
            let was = self.put_at(at, carry);
            if at == from {
                return was;
            }
            carry = was;
            if from <= to {
                at = at - 1;
            } else {
                at = at + 1;
            }
        }
    }
}

} // verus!
