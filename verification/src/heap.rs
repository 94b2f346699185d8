//! Array-backed binary max-heap of queue entries, ordered by priority first and
//! by sequence number (earlier first) within a priority.

use crate::Msg;
use std::cmp::Ordering;
use vstd::prelude::*;

verus! {

broadcast use vstd::seq_lib::group_to_multiset_ensures;

/// One queued entry: its priority, the sequence number it was pushed with, and
/// the message.
#[derive(Clone, Copy, Debug, PartialEq, Eq, Structural)]
pub struct HeapItem {
    pub prio: u8,
    pub seq: u64,
    pub msg: Msg,
}

/// `a` is handed out before `b`: it has a higher priority, or the same
/// priority and a smaller sequence number.
pub open spec fn outranks(a: HeapItem, b: HeapItem) -> bool {
    a.prio > b.prio || (a.prio == b.prio && a.seq < b.seq)
}

impl HeapItem {
    /// Three-way comparison in heap order: `Greater` when `self` is handed out
    /// first, `Less` when `other` is, `Equal` when both priority and sequence
    /// number agree.
    pub fn cmp(&self, other: &HeapItem) -> (o: Ordering)
        ensures
            (o == Ordering::Greater) <==> outranks(*self, *other),
            (o == Ordering::Less) <==> outranks(*other, *self),
            (o == Ordering::Equal) <==> (self.prio == other.prio && self.seq == other.seq),
    {
        if self.prio == other.prio {
            // Reversed on the sequence number: the smaller one ranks higher.
            if other.seq < self.seq {
                Ordering::Less
            } else if other.seq == self.seq {
                Ordering::Equal
            } else {
                Ordering::Greater
            }
        } else if self.prio < other.prio {
            Ordering::Less
        } else {
            Ordering::Greater
        }
    }
}

/// Whether `a` is handed out before `b`, decided through [`HeapItem::cmp`].
pub fn ranks_above(a: &HeapItem, b: &HeapItem) -> (r: bool)
    ensures
        r == outranks(*a, *b),
{
    match a.cmp(b) {
        Ordering::Greater => true,
        _ => false,
    }
}

/// Every entry but the root is not handed out before its parent.
pub open spec fn heap_ordered(s: Seq<HeapItem>) -> bool {
    forall|i: int| #![trigger s[i]] 0 < i < s.len() ==> !outranks(s[i], s[(i - 1) / 2])
}

/// In a heap-ordered sequence no entry outranks the root.
pub proof fn lemma_root_first(s: Seq<HeapItem>, i: int)
    requires
        heap_ordered(s),
        0 <= i < s.len(),
    ensures
        !outranks(s[i], s[0]),
    decreases i,
{
    if i > 0 {
        let p = (i - 1) / 2;
        assert(!outranks(s[i], s[p as int]));
        lemma_root_first(s, p);
    }
}

proof fn lemma_swap_keeps_multiset(s: Seq<HeapItem>, i: int, j: int)
    requires
        0 <= i < s.len(),
        0 <= j < s.len(),
        i != j,
    ensures
        s.update(i, s[j]).update(j, s[i]).to_multiset() =~= s.to_multiset(),
{
    broadcast use vstd::multiset::group_multiset_axioms;

    let s1 = s.update(i, s[j]);
    assert(s1[j] == s[j]);
    assert(s1.to_multiset() == s.to_multiset().insert(s[j]).remove(s[i]));
    assert(s1.update(j, s[i]).to_multiset() == s1.to_multiset().insert(s[i]).remove(s1[j]));
}

/// Binary max-heap stored level by level in a vector.
pub struct ItemHeap {
    pub items: Vec<HeapItem>,
}

impl ItemHeap {
    /// The entries, level by level.
    pub open spec fn items(&self) -> Seq<HeapItem> {
        self.items@
    }

    pub fn new() -> (h: ItemHeap)
        ensures
            h.items() == Seq::<HeapItem>::empty(),
    {
        ItemHeap { items: Vec::new() }
    }

    fn swap(&mut self, i: usize, j: usize)
        requires
            i < old(self).items().len(),
            j < old(self).items().len(),
            i != j,
        ensures
            final(self).items() == old(self).items().update(i as int, old(self).items()[j as int]).update(
                j as int,
                old(self).items()[i as int],
            ),
            final(self).items().to_multiset() == old(self).items().to_multiset(),
    {
        proof {
            lemma_swap_keeps_multiset(self.items@, i as int, j as int);
        }
        let a = self.items[i];
        let b = self.items[j];
        self.items.set(i, b);
        self.items.set(j, a);
    }

    /// Adds `it`, restoring heap order by moving it up towards the root.
    pub fn push(&mut self, it: HeapItem)
        requires
            heap_ordered(old(self).items()),
        ensures
            heap_ordered(final(self).items()),
            final(self).items().to_multiset() == old(self).items().to_multiset().insert(it),
    {
        self.items.push(it);
        let mut k: usize = self.items.len() - 1;
        while k > 0
            invariant
                k < self.items@.len(),
                self.items@.to_multiset() == old(self).items().to_multiset().insert(it),
                forall|j: int|
                    #![trigger self.items@[j]]
                    0 < j < self.items@.len() && j != k ==> !outranks(
                        self.items@[j],
                        self.items@[(j - 1) / 2],
                    ),
                k > 0 ==> forall|j: int|
                    #![trigger self.items@[j]]
                    0 < j < self.items@.len() && (j - 1) / 2 == k ==> !outranks(
                        self.items@[j],
                        self.items@[(k - 1) / 2],
                    ),
            ensures
                heap_ordered(self.items@),
                self.items@.to_multiset() == old(self).items().to_multiset().insert(it),
            decreases k,
        {
            let p = (k - 1) / 2;
            if ranks_above(&self.items[k], &self.items[p]) {
                    let ghost s = self.items@;
                    self.swap(k, p);
                    proof {
                        let t = self.items@;
                        assert forall|j: int|
                            #![trigger t[j]]
                            0 < j < t.len() && j != p implies !outranks(t[j], t[(j - 1) / 2]) by {
                            if j == k {
                            } else if (j - 1) / 2 == k {
                                assert(!outranks(s[j], s[p as int]));
                            } else if (j - 1) / 2 == p {
                                assert(!outranks(s[j], s[p as int]));
                            } else {
                                assert(s[j] == t[j]);
                                assert(!outranks(s[j], s[(j - 1) / 2]));
                            }
                        }
                        if p > 0 {
                            assert(!outranks(s[p as int], s[(p - 1) / 2]));
                            assert forall|j: int|
                                #![trigger t[j]]
                                0 < j < t.len() && (j - 1) / 2 == p implies !outranks(
                                    t[j],
                                    t[(p - 1) / 2],
                                ) by {
                                if j == k {
                                } else {
                                    assert(!outranks(s[j], s[p as int]));
                                }
                            }
                        }
                    }
                k = p;
            } else {
                break;
            }
        }
    }

    /// Moves the entry at the root down until heap order holds again.
    fn sift_down(&mut self)
        requires
            old(self).items().len() > 0,
            forall|j: int|
                #![trigger old(self).items()[j]]
                0 < j < old(self).items().len() && (j - 1) / 2 != 0 ==> !outranks(
                    old(self).items()[j],
                    old(self).items()[(j - 1) / 2],
                ),
        ensures
            heap_ordered(final(self).items()),
            final(self).items().to_multiset() == old(self).items().to_multiset(),
            final(self).items().len() == old(self).items().len(),
    {
        let n = self.items.len();
        let mut k: usize = 0;
        loop
            invariant
                n == self.items@.len(),
                k < n,
                self.items@.to_multiset() == old(self).items().to_multiset(),
                forall|j: int|
                    #![trigger self.items@[j]]
                    0 < j < n && (j - 1) / 2 != k ==> !outranks(
                        self.items@[j],
                        self.items@[(j - 1) / 2],
                    ),
                k > 0 ==> forall|j: int|
                    #![trigger self.items@[j]]
                    0 < j < n && (j - 1) / 2 == k ==> !outranks(
                        self.items@[j],
                        self.items@[(k - 1) / 2],
                    ),
            ensures
                heap_ordered(self.items@),
                self.items@.to_multiset() == old(self).items().to_multiset(),
                n == self.items@.len(),
            decreases n - k,
        {
            if n - k <= k + 1 {
                // No child: heap order holds everywhere.
                proof {
                    let t = self.items@;
                    assert forall|j: int| #![trigger t[j]] 0 < j < t.len() implies !outranks(
                        t[j],
                        t[(j - 1) / 2],
                    ) by {
                        assert((j - 1) / 2 != k);
                    }
                }
                break;
            }
            let l = 2 * k + 1;
            let r = l + 1;
            let mut c = l;
            if r < n {
                if ranks_above(&self.items[r], &self.items[l]) {
                    c = r;
                }
            }
            let ghost s = self.items@;
            assert(!outranks(s[l as int], s[c as int]));
            assert(r < n ==> !outranks(s[r as int], s[c as int]));
            if ranks_above(&self.items[c], &self.items[k]) {
                    self.swap(k, c);
                    proof {
                        let t = self.items@;
                        assert forall|j: int|
                            #![trigger t[j]]
                            0 < j < n && (j - 1) / 2 != c implies !outranks(t[j], t[(j - 1) / 2]) by {
                            if j == c {
                            } else if (j - 1) / 2 == k {
                                assert(j == l || j == r);
                            } else if j == k {
                                assert(!outranks(s[c as int], s[(k - 1) / 2]));
                            } else {
                                assert(s[j] == t[j]);
                                assert(!outranks(s[j], s[(j - 1) / 2]));
                            }
                        }
                        assert forall|j: int|
                            #![trigger t[j]]
                            0 < j < n && (j - 1) / 2 == c implies !outranks(t[j], t[(c - 1) / 2]) by {
                            assert(!outranks(s[j], s[c as int]));
                        }
                    }
                k = c;
            } else {
                    proof {
                        let t = self.items@;
                        assert forall|j: int| #![trigger t[j]] 0 < j < t.len() implies !outranks(
                            t[j],
                            t[(j - 1) / 2],
                        ) by {
                            if (j - 1) / 2 == k {
                                assert(j == l || j == r);
                            }
                        }
                    }
                    break;
            }
        }
    }

    /// Removes and returns the root, the entry that no other entry outranks.
    pub fn pop(&mut self) -> (r: Option<HeapItem>)
        requires
            heap_ordered(old(self).items()),
        ensures
            heap_ordered(final(self).items()),
            old(self).items().len() == 0 ==> r is None && final(self).items() == old(self).items(),
            old(self).items().len() > 0 ==> r == Some(old(self).items()[0])
                && final(self).items().to_multiset() == old(self).items().to_multiset().remove(
                old(self).items()[0],
            ),
    {
        if self.items.len() == 0 {
            return None;
        }
        let top = self.items[0];
        let ghost s = self.items@;
        let last = self.items.pop().unwrap();
        proof {
            assert(s == self.items@.push(last));
            assert(s.to_multiset() == self.items@.to_multiset().insert(last));
        }
        if self.items.len() > 0 {
            let ghost s1 = self.items@;
            self.items.set(0, last);
            proof {
                assert(s1[0] == top);
                assert(self.items@.to_multiset() == s1.to_multiset().insert(last).remove(top));
                assert(self.items@.to_multiset() =~= s.to_multiset().remove(top)) by {
                    broadcast use vstd::multiset::group_multiset_axioms;

                }
                assert forall|j: int|
                    #![trigger self.items@[j]]
                    0 < j < self.items@.len() && (j - 1) / 2 != 0 implies !outranks(
                    self.items@[j],
                    self.items@[(j - 1) / 2],
                ) by {
                    assert(s[j] == self.items@[j]);
                    assert(!outranks(s[j], s[(j - 1) / 2]));
                }
            }
            self.sift_down();
        } else {
            proof {
                assert(self.items@.to_multiset() =~= s.to_multiset().remove(top)) by {
                    broadcast use vstd::multiset::group_multiset_axioms;

                }
            }
        }
        Some(top)
    }
}

} // verus!
