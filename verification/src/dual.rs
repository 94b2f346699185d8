//! The two-class discipline: a HIGH class served before a LOW class, first in
//! first out within a class.

use crate::heap::{heap_ordered, lemma_root_first, outranks, HeapItem, ItemHeap};
use crate::model::{level_pop, level_push, top_below, top_level};
use crate::ranked::{
    all_entries, lemma_ranked_pop, lemma_ranked_push, lemma_ranked_start, ranked_empty,
    ranked_front, ranked_level_count, ranked_levels, ranked_ok,
};
use crate::queues_backing::{seg_items, seg_new, seg_pop, seg_push};
use crate::{Msg, HIGH};
use crossbeam::queue::SegQueue;
use vstd::multiset::Multiset;
use vstd::prelude::*;

verus! {

broadcast use vstd::seq_lib::group_to_multiset_ensures;

/// A two-class priority queue with one consumer, described by the leveled
/// model of `crate::model`: one first-in-first-out list per level, the highest
/// non-empty level served first.
pub trait DualPrioQueue: Sized {
    /// The queue's internal invariant.
    spec fn wf(&self) -> bool;

    /// The queued messages by level, each front first.
    spec fn levels(&self) -> Seq<Seq<Msg>>;

    /// The level a push of priority `prio` goes to.
    spec fn level_of(prio: u8) -> int;

    /// The leveled model describes the queue exactly.
    spec fn in_order(&self) -> bool;

    /// A push keeps the leveled model exact.
    spec fn push_keeps_order(&self) -> bool;

    /// Queues `msg` at the back of level `level_of(prio)`.
    fn push(&mut self, prio: u8, msg: Msg)
        requires
            old(self).wf(),
        ensures
            final(self).wf(),
            old(self).in_order() && old(self).push_keeps_order() ==> final(self).in_order()
                && final(self).levels() == level_push(old(self).levels(), Self::level_of(prio), msg),
    ;

    /// Takes the front message of the highest non-empty level, or `None` when
    /// nothing is queued.
    fn pop(&mut self) -> (r: Option<Msg>)
        requires
            old(self).wf(),
        ensures
            final(self).wf(),
            old(self).in_order() ==> final(self).in_order() && (r, final(self).levels())
                == level_pop(old(self).levels()),
    ;
}

/// The sequence number that follows `s`, wrapping to 0 after `u64::MAX`.
pub open spec fn seq_after(s: u64) -> u64 {
    if s == u64::MAX {
        0
    } else {
        (s + 1) as u64
    }
}

/// Binary heap of (priority, sequence number, message) entries: the highest
/// priority is served first, the smallest sequence number first within a
/// priority. Exclusive access stands in for the lock that guards it when
/// threads share it.
pub struct MutexBinaryHeapQueue {
    seq: u64,
    heap: ItemHeap,
    /// The entries split by priority, each level in push order.
    by_level: Ghost<Seq<Seq<HeapItem>>>,
}

impl MutexBinaryHeapQueue {
    /// The queued entries.
    pub closed spec fn entries(&self) -> Multiset<HeapItem> {
        self.heap.items@.to_multiset()
    }

    /// The sequence number the next push gives its entry.
    pub closed spec fn next_seq(&self) -> u64 {
        self.seq
    }

    /// The entry the next pop hands out, when one is queued.
    pub closed spec fn front(&self) -> HeapItem {
        self.heap.items@[0]
    }
}

impl Default for MutexBinaryHeapQueue {
    fn default() -> (q: Self)
        ensures
            q.wf(),
            q.in_order(),
            q.levels() == Seq::new(ranked_level_count(), |c: int| Seq::<Msg>::empty()),
            q.entries() == Multiset::<HeapItem>::empty(),
            q.next_seq() == 0,
    {
        let q = MutexBinaryHeapQueue {
            seq: 0,
            heap: ItemHeap::new(),
            by_level: Ghost(ranked_empty()),
        };
        proof {
            lemma_ranked_start();
            assert(q.heap.items@.to_multiset() =~= Multiset::<HeapItem>::empty()) by {
                broadcast use vstd::multiset::group_multiset_axioms;

                assert(q.heap.items@.to_multiset().len() == 0);
            }
        }
        q
    }
}

impl DualPrioQueue for MutexBinaryHeapQueue {
    closed spec fn wf(&self) -> bool {
        heap_ordered(self.heap.items@)
    }

    /// One level per `u8` priority.
    closed spec fn levels(&self) -> Seq<Seq<Msg>> {
        ranked_levels(self.by_level@)
    }

    /// The priority itself.
    open spec fn level_of(prio: u8) -> int {
        prio as int
    }

    /// The entries, split by priority in push order, match the heap.
    closed spec fn in_order(&self) -> bool {
        ranked_ok(self.by_level@, self.seq) && self.entries() == all_entries(self.by_level@)
    }

    /// The sequence counter has not reached its last value.
    closed spec fn push_keeps_order(&self) -> bool {
        self.seq < u64::MAX
    }

    fn push(&mut self, prio: u8, msg: Msg)
        ensures
            final(self).entries() == old(self).entries().insert(
                (HeapItem { prio: prio, seq: old(self).next_seq(), msg: msg }),
            ),
            final(self).next_seq() == seq_after(old(self).next_seq()),
    {
        let seq = self.seq;
        let it = HeapItem { prio, seq, msg };
        proof {
            if old(self).in_order() && seq < u64::MAX {
                lemma_ranked_push(self.by_level@, seq, it);
            }
        }
        self.seq = seq.wrapping_add(1);
        self.heap.push(it);
        self.by_level = Ghost(self.by_level@.update(prio as int, self.by_level@[prio as int].push(it)));
    }

    fn pop(&mut self) -> (r: Option<Msg>)
        ensures
            old(self).entries().len() == 0 ==> r is None && final(self).entries() == old(
                self,
            ).entries(),
            old(self).entries().len() > 0 ==> {
                &&& old(self).entries().count(old(self).front()) > 0
                &&& forall|x: HeapItem| #[trigger]
                    old(self).entries().count(x) > 0 ==> !outranks(x, old(self).front())
                &&& r == Some(old(self).front().msg)
                &&& final(self).entries() == old(self).entries().remove(old(self).front())
            },
            final(self).next_seq() == old(self).next_seq(),
    {
        let ghost s = self.heap.items@;
        proof {
            if s.len() > 0 {
                assert(s.contains(s[0]));
                assert forall|x: HeapItem| #[trigger] s.to_multiset().count(x) > 0 implies !outranks(
                    x,
                    s[0],
                ) by {
                    assert(s.contains(x));
                    let i = choose|i: int| 0 <= i < s.len() && s[i] == x;
                    lemma_root_first(s, i);
                }
            }
        }
        let ghost hs = self.by_level@;
        proof {
            if old(self).in_order() {
                lemma_ranked_pop(hs, self.seq);
                if s.len() > 0 {
                    let e = all_entries(hs);
                    assert(e == s.to_multiset());
                    assert(e.count(s[0]) > 0);
                    assert(forall|x: HeapItem| #[trigger] e.count(x) > 0 ==> !outranks(x, s[0]));
                    assert(s[0] == ranked_front(hs));
                } else {
                    assert(all_entries(hs).len() == 0);
                }
            }
        }
        match self.heap.pop() {
            Some(it) => {
                let ghost t = top_level(ranked_levels(hs));
                self.by_level = Ghost(hs.update(t, hs[t].drop_first()));
                Some(it.msg)
            },
            None => None,
        }
    }
}

/// Every queued entry has a sequence number below `next`, and no two queued
/// entries share one.
pub open spec fn seqs_fresh(entries: Multiset<HeapItem>, next: u64) -> bool {
    &&& forall|x: HeapItem| #[trigger] entries.count(x) > 0 ==> x.seq < next
    &&& forall|x: HeapItem| #[trigger] entries.count(x) <= 1
    &&& forall|x: HeapItem, y: HeapItem|
        #![trigger entries.count(x), entries.count(y)]
        entries.count(x) > 0 && entries.count(y) > 0 && x.seq == y.seq ==> x == y
}

/// Law: while the sequence counter has not wrapped, a push keeps sequence
/// numbers fresh, and every entry already queued at the same or a higher
/// priority is handed out before the new one.
pub proof fn lemma_push_fifo(entries: Multiset<HeapItem>, next: u64, prio: u8, msg: Msg)
    requires
        seqs_fresh(entries, next),
        next < u64::MAX,
    ensures
        seqs_fresh(entries.insert((HeapItem { prio: prio, seq: next, msg: msg })), seq_after(next)),
        forall|x: HeapItem| #[trigger]
            entries.count(x) > 0 && x.prio >= prio ==> outranks(
                x,
                (HeapItem { prio: prio, seq: next, msg: msg }),
            ),
{
    broadcast use vstd::multiset::group_multiset_axioms;

}

/// Law: a pop keeps sequence numbers fresh.
pub proof fn lemma_pop_keeps_fresh(entries: Multiset<HeapItem>, next: u64, taken: HeapItem)
    requires
        seqs_fresh(entries, next),
    ensures
        seqs_fresh(entries.remove(taken), next),
{
    broadcast use vstd::multiset::group_multiset_axioms;

}

/// Law: with fresh sequence numbers, the entry a pop hands out outranks every
/// other queued entry: highest priority first, earliest push first within a
/// priority.
pub proof fn lemma_front_unique(entries: Multiset<HeapItem>, next: u64, front: HeapItem)
    requires
        seqs_fresh(entries, next),
        entries.count(front) > 0,
        forall|x: HeapItem| #[trigger] entries.count(x) > 0 ==> !outranks(x, front),
    ensures
        forall|x: HeapItem| #[trigger] entries.count(x) > 0 && x != front ==> outranks(front, x),
{
}

/// Which class a priority goes to: `HIGH` to the high class (level 1), every
/// other value to the low class (level 0).
pub open spec fn dual_level(prio: u8) -> int {
    if prio == HIGH {
        1
    } else {
        0
    }
}

/// Two segmented queues, HIGH drained before LOW.
pub struct DualSegQueue {
    high: SegQueue<Msg>,
    low: SegQueue<Msg>,
}

impl DualSegQueue {
    /// There are two levels: low (0) and high (1).
    pub proof fn lemma_two_levels(&self)
        ensures
            self.levels().len() == 2,
            self.levels()[0] == self.low_items(),
            self.levels()[1] == self.high_items(),
    {
    }

    /// The high class, front first.
    pub closed spec fn high_items(&self) -> Seq<Msg> {
        seg_items(self.high)
    }

    /// The low class, front first.
    pub closed spec fn low_items(&self) -> Seq<Msg> {
        seg_items(self.low)
    }
}

impl Default for DualSegQueue {
    fn default() -> (q: Self)
        ensures
            q.wf(),
            q.in_order(),
            q.levels() == seq![Seq::<Msg>::empty(), Seq::<Msg>::empty()],
    {
        DualSegQueue { high: seg_new(), low: seg_new() }
    }
}

impl DualPrioQueue for DualSegQueue {
    closed spec fn wf(&self) -> bool {
        true
    }

    /// Level 0 the low class, level 1 the high class.
    closed spec fn levels(&self) -> Seq<Seq<Msg>> {
        seq![seg_items(self.low), seg_items(self.high)]
    }

    /// `HIGH` to level 1, every other value to level 0.
    open spec fn level_of(prio: u8) -> int {
        dual_level(prio)
    }

    /// The two queues are the levels.
    open spec fn in_order(&self) -> bool {
        true
    }

    /// Always.
    open spec fn push_keeps_order(&self) -> bool {
        true
    }

    fn push(&mut self, prio: u8, msg: Msg)
        ensures
            final(self).levels() == level_push(old(self).levels(), dual_level(prio), msg),
    {
        if prio == HIGH {
            seg_push(&mut self.high, msg);
        } else {
            seg_push(&mut self.low, msg);
        }
        assert(self.levels() =~= level_push(old(self).levels(), dual_level(prio), msg));
    }

    fn pop(&mut self) -> (r: Option<Msg>)
        ensures
            (r, final(self).levels()) == level_pop(old(self).levels()),
    {
        proof {
            reveal_with_fuel(top_below, 3);
        }
        let ghost ls = old(self).levels();
        if let Some(m) = seg_pop(&mut self.high) {
            assert(self.levels() =~= ls.update(1, ls[1].drop_first()));
            return Some(m);
        }
        let r = seg_pop(&mut self.low);
        assert(self.levels() =~= ls.update(0, ls[0].drop_first()) || r is None);
        assert(r is None ==> self.levels() =~= ls);
        r
    }
}

} // verus!
