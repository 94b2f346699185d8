//! The many-level discipline: levels 0 to `MAX_PRIO`, the highest non-empty
//! level served first, first in first out within a level.

use crate::dual::seq_after;
use crate::heap::HeapItem;
use crate::model::{lemma_top_below, level_pop, level_push, top_below, top_level};
use crate::ranked::{
    all_entries, lemma_ranked_pop, lemma_ranked_push, lemma_ranked_start, ranked_empty,
    ranked_front, ranked_level_count, ranked_levels, ranked_ok,
};
use crate::queues_backing::{
    key_le, seg_items, seg_new, seg_pop, seg_push, skip_entries, skip_insert, skip_last, skip_new,
    skip_remove,
};
use crate::{Msg, MAX_PRIO, NUM_PRIOS};
use crossbeam::queue::SegQueue;
use crossbeam_skiplist::SkipMap;
use vstd::prelude::*;
use vstd::std_specs::bits::{axiom_u64_leading_zeros, u64_leading_zeros};

verus! {

/// A priority queue over levels 0 to `MAX_PRIO` with one consumer, described
/// by the leveled model of `crate::model`: one first-in-first-out list per
/// level, the highest non-empty level served first.
pub trait Prio101Queue: Sized {
    /// The queue's internal invariant.
    spec fn wf(&self) -> bool;

    /// The levels a push takes: every level the discipline can hold.
    spec fn accepts_level(prio: u8) -> bool;

    /// The queued messages by level, each front first.
    spec fn levels(&self) -> Seq<Seq<Msg>>;

    /// The leveled model describes the queue exactly.
    spec fn in_order(&self) -> bool;

    /// A push keeps the leveled model exact.
    spec fn push_keeps_order(&self) -> bool;

    /// Queues `msg` at the back of level `prio`.
    fn push(&mut self, prio: u8, msg: Msg)
        requires
            old(self).wf(),
            Self::accepts_level(prio),
        ensures
            final(self).wf(),
            old(self).in_order() && old(self).push_keeps_order() ==> final(self).in_order()
                && final(self).levels() == level_push(old(self).levels(), prio as int, msg),
    ;

    /// Takes the front message of the highest level that holds any, or `None`
    /// when nothing is queued.
    fn pop(&mut self) -> (r: Option<Msg>)
        requires
            old(self).wf(),
        ensures
            final(self).wf(),
            old(self).in_order() ==> final(self).in_order() && (r, final(self).levels())
                == level_pop(old(self).levels()),
    ;
}

// ---------------------------------------------------------------------------
// Skip-map discipline
// ---------------------------------------------------------------------------

/// The key an entry is filed under: its level, then its sequence number
/// reversed, so that the greatest key is the earliest push of the highest
/// level.
pub open spec fn skip_key(prio: u8, seq: u64) -> (u8, u64) {
    (prio, (u64::MAX - seq) as u64)
}

/// The greatest key of `m`, when `m` holds any.
pub open spec fn greatest_key(m: Map<(u8, u64), Msg>) -> (u8, u64) {
    choose|k: (u8, u64)|
        m.dom().contains(k) && forall|j: (u8, u64)| #[trigger] m.dom().contains(j) ==> key_le(j, k)
}

/// Ordered skip map from (level, reversed sequence number) to message; a pop
/// takes the entry with the greatest key.
pub struct SkiplistQueue {
    seq: u64,
    map: SkipMap<(u8, u64), Msg>,
    /// The entries split by level, each level in push order.
    by_level: Ghost<Seq<Seq<HeapItem>>>,
}

/// The map holds exactly the entries of `hs`, each message under the key of
/// its level and sequence number.
pub open spec fn skip_matches(m: Map<(u8, u64), Msg>, hs: Seq<Seq<HeapItem>>) -> bool {
    &&& forall|c: int, i: int|
        #![trigger hs[c][i]]
        0 <= c < hs.len() && 0 <= i < hs[c].len() ==> m.dom().contains(
            skip_key(hs[c][i].prio, hs[c][i].seq),
        ) && m[skip_key(hs[c][i].prio, hs[c][i].seq)] == hs[c][i].msg
    &&& forall|k: (u8, u64)| #[trigger]
        m.dom().contains(k) ==> exists|c: int, i: int|
            #![trigger hs[c][i]]
            0 <= c < hs.len() && 0 <= i < hs[c].len() && skip_key(hs[c][i].prio, hs[c][i].seq) == k
}

/// Law: a push before the counter wraps files the new entry under a fresh key
/// at the back of its level, and the map still matches the split.
pub proof fn lemma_skip_matches_push(m: Map<(u8, u64), Msg>, hs: Seq<Seq<HeapItem>>, next: u64, it: HeapItem)
    requires
        ranked_ok(hs, next),
        skip_matches(m, hs),
        next < u64::MAX,
        it.seq == next,
    ensures
        !m.dom().contains(skip_key(it.prio, next)),
        skip_matches(
            m.insert(skip_key(it.prio, next), it.msg),
            hs.update(it.prio as int, hs[it.prio as int].push(it)),
        ),
{
    let nk = skip_key(it.prio, next);
    let p = it.prio as int;
    let hs2 = hs.update(p, hs[p].push(it));
    let m2 = m.insert(nk, it.msg);
    if m.dom().contains(nk) {
        let (c, i) = choose|c: int, i: int|
            #![trigger hs[c][i]]
            0 <= c < hs.len() && 0 <= i < hs[c].len() && skip_key(hs[c][i].prio, hs[c][i].seq) == nk;
        assert(hs[c][i].seq < next);
    }
    assert forall|c: int, i: int|
        #![trigger hs2[c][i]]
        0 <= c < hs2.len() && 0 <= i < hs2[c].len() implies m2.dom().contains(
            skip_key(hs2[c][i].prio, hs2[c][i].seq),
        ) && m2[skip_key(hs2[c][i].prio, hs2[c][i].seq)] == hs2[c][i].msg by {
        if !(c == p && i == hs[p].len()) {
            assert(hs2[c][i] == hs[c][i]);
            assert(hs[c][i].seq < next);
        }
    }
    assert forall|k: (u8, u64)| #[trigger] m2.dom().contains(k) implies exists|c: int, i: int|
        #![trigger hs2[c][i]]
        0 <= c < hs2.len() && 0 <= i < hs2[c].len() && skip_key(hs2[c][i].prio, hs2[c][i].seq)
            == k by {
        if k == nk {
            assert(hs2[p][hs[p].len() as int] == it);
        } else {
            let (c, i) = choose|c: int, i: int|
                #![trigger hs[c][i]]
                0 <= c < hs.len() && 0 <= i < hs[c].len() && skip_key(hs[c][i].prio, hs[c][i].seq) == k;
            assert(hs2[c][i] == hs[c][i]);
        }
    }
}

/// Law: the greatest key of a matching map is the key of the split's front
/// entry (the front of its top level); removing it leaves a map that matches
/// the split without that entry.
pub proof fn lemma_skip_matches_pop(m: Map<(u8, u64), Msg>, hs: Seq<Seq<HeapItem>>, next: u64, k: (u8, u64))
    requires
        ranked_ok(hs, next),
        skip_matches(m, hs),
        m.dom().contains(k),
        forall|j: (u8, u64)| #[trigger] m.dom().contains(j) ==> key_le(j, k),
    ensures
        ({
            let t = top_level(ranked_levels(hs));
            let f = ranked_front(hs);
            &&& all_entries(hs).len() > 0
            &&& 0 <= t < hs.len()
            &&& k == skip_key(f.prio, f.seq)
            &&& m[k] == f.msg
            &&& skip_matches(m.remove(k), hs.update(t, hs[t].drop_first()))
        }),
{
    let ls = ranked_levels(hs);
    let n = hs.len() as int;
    lemma_top_below(ls, n);
    let (c, i) = choose|c: int, i: int|
        #![trigger hs[c][i]]
        0 <= c < hs.len() && 0 <= i < hs[c].len() && skip_key(hs[c][i].prio, hs[c][i].seq) == k;
    assert(ls[c].len() > 0);
    let t = top_level(ls);
    assert(t >= 0);
    lemma_ranked_pop(hs, next);
    let f = hs[t][0];
    assert(ls[t].len() > 0);
    assert(m.dom().contains(skip_key(f.prio, f.seq)));
    assert(key_le(skip_key(f.prio, f.seq), k));
    if c < t {
        assert(false);
    }
    if c > t {
        assert(ls[c].len() == 0);
    }
    if i > 0 {
        assert(hs[t][0].seq < hs[t][i].seq);
    }
    assert(hs[c][i] == f);
    let hs2 = hs.update(t, hs[t].drop_first());
    let m2 = m.remove(k);
    assert forall|c2: int, i2: int|
        #![trigger hs2[c2][i2]]
        0 <= c2 < hs2.len() && 0 <= i2 < hs2[c2].len() implies m2.dom().contains(
            skip_key(hs2[c2][i2].prio, hs2[c2][i2].seq),
        ) && m2[skip_key(hs2[c2][i2].prio, hs2[c2][i2].seq)] == hs2[c2][i2].msg by {
        if c2 == t {
            assert(hs2[c2][i2] == hs[t][i2 + 1]);
            assert(hs[t][0].seq < hs[t][i2 + 1].seq);
        } else {
            assert(hs2[c2][i2] == hs[c2][i2]);
        }
    }
    assert forall|j: (u8, u64)| #[trigger] m2.dom().contains(j) implies exists|c2: int, i2: int|
        #![trigger hs2[c2][i2]]
        0 <= c2 < hs2.len() && 0 <= i2 < hs2[c2].len() && skip_key(hs2[c2][i2].prio, hs2[c2][i2].seq)
            == j by {
        let (c2, i2) = choose|c2: int, i2: int|
            #![trigger hs[c2][i2]]
            0 <= c2 < hs.len() && 0 <= i2 < hs[c2].len() && skip_key(hs[c2][i2].prio, hs[c2][i2].seq)
                == j;
        if c2 == t {
            if i2 == 0 {
                assert(false);
            }
            assert(hs2[t][i2 - 1] == hs[t][i2]);
        } else {
            assert(hs2[c2][i2] == hs[c2][i2]);
        }
    }
}

impl SkiplistQueue {
    /// The queued entries by key.
    pub closed spec fn entries(&self) -> Map<(u8, u64), Msg> {
        skip_entries(self.map)
    }

    /// The sequence number the next push uses.
    pub closed spec fn next_seq(&self) -> u64 {
        self.seq
    }
}

impl Default for SkiplistQueue {
    fn default() -> (q: Self)
        ensures
            q.wf(),
            q.in_order(),
            q.levels() == Seq::new(ranked_level_count(), |c: int| Seq::<Msg>::empty()),
            q.entries().dom().is_empty(),
            q.next_seq() == 0,
    {
        let q = SkiplistQueue { seq: 0, map: skip_new(), by_level: Ghost(ranked_empty()) };
        proof {
            lemma_ranked_start();
            let hs = ranked_empty();
            assert forall|c: int, i: int|
                #![trigger hs[c][i]]
                0 <= c < hs.len() && 0 <= i < hs[c].len() implies false by {
            }
        }
        q
    }
}

impl Prio101Queue for SkiplistQueue {
    closed spec fn wf(&self) -> bool {
        true
    }

    /// Any level: the key orders whatever level it holds.
    open spec fn accepts_level(prio: u8) -> bool {
        true
    }

    /// One level per `u8` priority.
    closed spec fn levels(&self) -> Seq<Seq<Msg>> {
        ranked_levels(self.by_level@)
    }

    /// The entries, split by level in push order, match the map.
    closed spec fn in_order(&self) -> bool {
        ranked_ok(self.by_level@, self.seq) && skip_matches(skip_entries(self.map), self.by_level@)
    }

    /// The sequence counter has not reached its last value.
    closed spec fn push_keeps_order(&self) -> bool {
        self.seq < u64::MAX
    }

    fn push(&mut self, prio: u8, msg: Msg)
        ensures
            final(self).entries() == old(self).entries().insert(
                skip_key(prio, old(self).next_seq()),
                msg,
            ),
            final(self).next_seq() == seq_after(old(self).next_seq()),
    {
        let seq = self.seq;
        let ghost it = HeapItem { prio, seq, msg };
        proof {
            if old(self).in_order() && seq < u64::MAX {
                lemma_ranked_push(self.by_level@, seq, it);
                lemma_skip_matches_push(skip_entries(self.map), self.by_level@, seq, it);
            }
        }
        self.seq = seq.wrapping_add(1);
        skip_insert(&mut self.map, (prio, u64::MAX - seq), msg);
        self.by_level = Ghost(self.by_level@.update(prio as int, self.by_level@[prio as int].push(it)));
    }

    fn pop(&mut self) -> (r: Option<Msg>)
        ensures
            old(self).entries().dom().is_empty() ==> r is None && final(self).entries() == old(
                self,
            ).entries(),
            !old(self).entries().dom().is_empty() ==> {
                let k = greatest_key(old(self).entries());
                &&& old(self).entries().dom().contains(k)
                &&& forall|j: (u8, u64)| #[trigger]
                    old(self).entries().dom().contains(j) ==> key_le(j, k)
                &&& r == Some(old(self).entries()[k])
                &&& final(self).entries() == old(self).entries().remove(k)
            },
            final(self).next_seq() == old(self).next_seq(),
    {
        let ghost hs = self.by_level@;
        let (key, val) = match skip_last(&self.map) {
            Some(e) => e,
            None => {
                proof {
                    if old(self).in_order() {
                        lemma_ranked_pop(hs, self.seq);
                        if all_entries(hs).len() > 0 {
                            let t = top_level(ranked_levels(hs));
                            let f = hs[t][0];
                            lemma_top_below(ranked_levels(hs), hs.len() as int);
                            assert(ranked_levels(hs)[t].len() > 0);
                            assert(skip_entries(self.map).dom().contains(skip_key(f.prio, f.seq)));
                        }
                    }
                }
                return None;
            },
        };
        proof {
            if old(self).in_order() {
                lemma_skip_matches_pop(skip_entries(self.map), hs, self.seq, key);
                lemma_ranked_pop(hs, self.seq);
            }
            let m = skip_entries(self.map);
            let g = greatest_key(m);
            assert(m.dom().contains(key) && forall|j: (u8, u64)| #[trigger]
                m.dom().contains(j) ==> key_le(j, key));
            assert(m.dom().contains(g) && key_le(key, g) && key_le(g, key));
        }
        skip_remove(&mut self.map, &key);
        let ghost t = top_level(ranked_levels(hs));
        self.by_level = Ghost(hs.update(t, hs[t].drop_first()));
        Some(val)
    }
}

/// Every key of `m` stands for a sequence number below `next`.
pub open spec fn skip_keys_fresh(m: Map<(u8, u64), Msg>, next: u64) -> bool {
    forall|k: (u8, u64)| #[trigger] m.dom().contains(k) ==> u64::MAX - k.1 < next
}

/// Law: while the sequence counter has not wrapped, a push files its message
/// under a key no queued entry has (nothing is overwritten), keys stay fresh,
/// and every entry already queued at the same or a higher level has a greater
/// key than the new one, so it is handed out first.
pub proof fn lemma_skip_push_fifo(m: Map<(u8, u64), Msg>, next: u64, prio: u8, msg: Msg)
    requires
        skip_keys_fresh(m, next),
        next < u64::MAX,
    ensures
        !m.dom().contains(skip_key(prio, next)),
        skip_keys_fresh(m.insert(skip_key(prio, next), msg), seq_after(next)),
        forall|k: (u8, u64)| #[trigger]
            m.dom().contains(k) && k.0 >= prio ==> key_le(skip_key(prio, next), k) && k != skip_key(
                prio,
                next,
            ),
{
}

/// Law: keys order entries as the queue serves them: a higher level first,
/// and within a level the smaller sequence number first.
pub proof fn lemma_skip_key_order(p1: u8, s1: u64, p2: u8, s2: u64)
    ensures
        key_le(skip_key(p2, s2), skip_key(p1, s1)) <==> (p1 > p2 || (p1 == p2 && s1 <= s2)),
{
}

// ---------------------------------------------------------------------------
// Bitmap discipline
// ---------------------------------------------------------------------------

/// Bit `p` of the two-word level mask: levels 0 to 63 in `lo`, 64 to 127 in
/// `hi`.
pub open spec fn mask_bit(lo: u64, hi: u64, p: int) -> bool {
    if p < 64 {
        (lo >> (p as u64)) & 1u64 == 1u64
    } else {
        (hi >> ((p - 64) as u64)) & 1u64 == 1u64
    }
}

proof fn lemma_or_bit(x: u64, b: u64, q: u64)
    by (bit_vector)
    requires
        b < 64,
        q < 64,
    ensures
        ((x | (1u64 << b)) >> q) & 1u64 == 1u64 <==> (q == b || (x >> q) & 1u64 == 1u64),
{
}

proof fn lemma_clear_bit(x: u64, b: u64, q: u64)
    by (bit_vector)
    requires
        b < 64,
        q < 64,
    ensures
        ((x & !(1u64 << b)) >> q) & 1u64 == 1u64 <==> (q != b && (x >> q) & 1u64 == 1u64),
{
}

proof fn lemma_low_mask_bit(x: u64, q: u64)
    by (bit_vector)
    requires
        q < 64,
    ensures
        ((x & 0x1F_FFFF_FFFFu64) >> q) & 1u64 == 1u64 <==> (q < 37 && (x >> q) & 1u64 == 1u64),
{
}

proof fn lemma_bit_is_one(x: u64, q: u64)
    by (bit_vector)
    ensures
        (x >> q) & 1u64 != 0u64 <==> (x >> q) & 1u64 == 1u64,
{
}

proof fn lemma_zero_word_bit(q: u64)
    by (bit_vector)
    ensures
        (0u64 >> q) & 1u64 == 0u64,
{
}

/// The highest set bit of a non-zero word, through `leading_zeros`.
proof fn lemma_top_bit(x: u64)
    requires
        x != 0,
    ensures
        0 <= u64_leading_zeros(x) < 64,
        (x >> ((63 - u64_leading_zeros(x)) as u64)) & 1u64 == 1u64,
        forall|j: u64| 63 - u64_leading_zeros(x) < j < 64 ==> #[trigger] ((x >> j) & 1u64) == 0u64,
{
    axiom_u64_leading_zeros(x);
    let lz = u64_leading_zeros(x);
    lemma_bit_is_one(x, (63 - lz) as u64);
}

/// One segmented queue per level, and a two-word mask with the bit of every
/// level that may hold messages; a pop scans the mask from the top.
pub struct BitmapQueue {
    queues: Vec<SegQueue<Msg>>,
    mask_lo: u64,
    mask_hi: u64,
}

impl BitmapQueue {
    spec fn bit(&self, p: int) -> bool {
        mask_bit(self.mask_lo, self.mask_hi, p)
    }

    /// Whether level `p`'s bit is set in the mask.
    pub closed spec fn flagged(&self, p: int) -> bool {
        self.bit(p)
    }

    /// A well-formed queue has one level per priority, and every level that
    /// holds messages has its bit set: no queued message is hidden from a pop.
    pub proof fn lemma_levels_flagged(&self)
        requires
            Prio101Queue::wf(self),
        ensures
            self.levels().len() == NUM_PRIOS,
            forall|p: int| 0 <= p < NUM_PRIOS && #[trigger] self.levels()[p].len() > 0 ==> self.flagged(p),
    {
        assert forall|p: int| 0 <= p < NUM_PRIOS && #[trigger] self.levels()[p].len() > 0 implies self.flagged(p) by {
            assert(self.levels()[p] == seg_items(self.queues@[p]));
        }
    }

    fn set_bit(&mut self, prio: u8)
        requires
            prio < 128,
        ensures
            final(self).queues == old(self).queues,
            forall|p: int| 0 <= p < 128 ==> #[trigger] final(self).bit(p) == (p == prio || old(self).bit(p)),
    {
        if prio < 64 {
            let bit = 1u64 << prio;
            self.mask_lo = self.mask_lo | bit;
        } else {
            let bit = 1u64 << (prio - 64);
            self.mask_hi = self.mask_hi | bit;
        }
        proof {
            assert forall|p: int| 0 <= p < 128 implies #[trigger] self.bit(p) == (p == prio || old(self).bit(p)) by {
                if p < 64 {
                    if prio < 64 {
                        lemma_or_bit(old(self).mask_lo, prio as u64, p as u64);
                    }
                } else {
                    if prio >= 64 {
                        lemma_or_bit(old(self).mask_hi, (prio - 64) as u64, (p - 64) as u64);
                    }
                }
            }
        }
    }

    fn clear_bit(&mut self, prio: u8)
        requires
            prio < 128,
        ensures
            final(self).queues == old(self).queues,
            forall|p: int| 0 <= p < 128 ==> #[trigger] final(self).bit(p) == (p != prio && old(self).bit(p)),
    {
        if prio < 64 {
            let bit = 1u64 << prio;
            self.mask_lo = self.mask_lo & !bit;
        } else {
            let bit = 1u64 << (prio - 64);
            self.mask_hi = self.mask_hi & !bit;
        }
        proof {
            assert forall|p: int| 0 <= p < 128 implies #[trigger] self.bit(p) == (p != prio && old(self).bit(p)) by {
                if p < 64 {
                    if prio < 64 {
                        lemma_clear_bit(old(self).mask_lo, prio as u64, p as u64);
                    }
                } else {
                    if prio >= 64 {
                        lemma_clear_bit(old(self).mask_hi, (prio - 64) as u64, (p - 64) as u64);
                    }
                }
            }
        }
    }

    /// The highest level from 0 to `MAX_PRIO` whose bit is set.
    fn highest_prio_from_mask(&self) -> (r: Option<u8>)
        ensures
            r is None ==> forall|p: int| 0 <= p <= MAX_PRIO ==> !#[trigger] self.bit(p),
            r matches Some(p) ==> {
                &&& p <= MAX_PRIO
                &&& self.bit(p as int)
                &&& forall|q: int| p < q <= MAX_PRIO ==> !#[trigger] self.bit(q)
            },
    {
        // Levels 64 to 100 use the low 37 bits of the high word.
        let hi = self.mask_hi & 0x1F_FFFF_FFFFu64;
        if hi != 0 {
            let lz = hi.leading_zeros();
            proof {
                lemma_top_bit(hi);
            }
            let idx = 63u8 - (lz as u8);
            proof {
                lemma_low_mask_bit(self.mask_hi, idx as u64);
                assert forall|q: int| 64 + idx < q <= MAX_PRIO implies !#[trigger] self.bit(q) by {
                    lemma_low_mask_bit(self.mask_hi, (q - 64) as u64);
                    assert(((hi >> ((q - 64) as u64)) & 1u64) == 0u64);
                }
            }
            return Some(64 + idx);
        }
        let lo = self.mask_lo;
        proof {
            assert forall|q: int| 64 <= q <= MAX_PRIO implies !#[trigger] self.bit(q) by {
                lemma_low_mask_bit(self.mask_hi, (q - 64) as u64);
                lemma_zero_word_bit((q - 64) as u64);
            }
        }
        if lo != 0 {
            let lz = lo.leading_zeros();
            proof {
                lemma_top_bit(lo);
            }
            let idx = 63u8 - (lz as u8);
            proof {
                assert forall|q: int| idx < q <= MAX_PRIO implies !#[trigger] self.bit(q) by {
                    if q < 64 {
                        assert(((lo >> (q as u64)) & 1u64) == 0u64);
                    }
                }
            }
            return Some(idx);
        }
        proof {
            assert forall|q: int| 0 <= q < 64 implies !#[trigger] self.bit(q) by {
                lemma_zero_word_bit(q as u64);
            }
        }
        None
    }
}

impl Default for BitmapQueue {
    fn default() -> (q: Self)
        ensures
            q.wf(),
            q.in_order(),
            q.levels() == Seq::new(NUM_PRIOS as nat, |i: int| Seq::<Msg>::empty()),
    {
        let mut queues: Vec<SegQueue<Msg>> = Vec::new();
        let mut i: usize = 0;
        while i < NUM_PRIOS
            invariant
                i <= NUM_PRIOS,
                queues@.len() == i,
                forall|j: int| 0 <= j < i ==> seg_items(#[trigger] queues@[j]) == Seq::<Msg>::empty(),
            decreases NUM_PRIOS - i,
        {
            queues.push(seg_new());
            i = i + 1;
        }
        let q = BitmapQueue { queues, mask_lo: 0, mask_hi: 0 };
        assert(q.levels() =~= Seq::new(NUM_PRIOS as nat, |i: int| Seq::<Msg>::empty()));
        q
    }
}

impl Prio101Queue for BitmapQueue {
    closed spec fn wf(&self) -> bool {
        &&& self.queues@.len() == NUM_PRIOS
        &&& forall|p: int|
            0 <= p < NUM_PRIOS && #[trigger] seg_items(self.queues@[p]).len() > 0 ==> self.bit(p)
    }

    /// Levels 0 to `MAX_PRIO`, one queue each.
    open spec fn accepts_level(prio: u8) -> bool {
        prio <= MAX_PRIO
    }

    /// One queue per level.
    closed spec fn levels(&self) -> Seq<Seq<Msg>> {
        Seq::new(self.queues@.len(), |i: int| seg_items(self.queues@[i]))
    }

    /// The queues are the levels.
    open spec fn in_order(&self) -> bool {
        true
    }

    /// Always.
    open spec fn push_keeps_order(&self) -> bool {
        true
    }

    fn push(&mut self, prio: u8, msg: Msg)
        ensures
            final(self).levels() == level_push(old(self).levels(), prio as int, msg),
            final(self).flagged(prio as int),
            forall|p: int|
                0 <= p < 128 && p != prio ==> #[trigger] final(self).flagged(p) == old(self).flagged(p),
    {
        seg_push(&mut self.queues[prio as usize], msg);
        self.set_bit(prio);
        assert(self.levels() =~= level_push(old(self).levels(), prio as int, msg));
    }

    fn pop(&mut self) -> (r: Option<Msg>)
        ensures
            (r, final(self).levels()) == level_pop(old(self).levels()),
    {
        let ghost ls = old(self).levels();
        let ghost mut limit: int = MAX_PRIO as int;
        loop
            invariant
                self.wf(),
                self.levels() == ls,
                ls == old(self).levels(),
                ls.len() == NUM_PRIOS,
                -1 <= limit <= MAX_PRIO,
                forall|q: int| limit < q <= MAX_PRIO ==> !#[trigger] self.bit(q),
            decreases limit + 1,
        {
            let prio = match self.highest_prio_from_mask() {
                Some(p) => p,
                None => {
                    proof {
                        assert forall|p: int| 0 <= p < ls.len() implies #[trigger] ls[p].len() == 0 by {
                            assert(ls[p] == seg_items(self.queues@[p]));
                            assert(!self.bit(p));
                        }
                        lemma_all_empty_top(ls);
                        assert(level_pop(ls) == (None::<Msg>, ls));
                    }
                    return None;
                },
            };
            let ghost before = self.queues@;
            let ghost before_lo = self.mask_lo;
            let ghost before_hi = self.mask_hi;
            proof {
                assert forall|q: int| prio < q <= MAX_PRIO implies !#[trigger] mask_bit(
                    before_lo,
                    before_hi,
                    q,
                ) by {
                    assert(!self.bit(q));
                }
                assert forall|p: int| prio < p < ls.len() implies #[trigger] ls[p].len() == 0 by {
                    assert(ls[p] == seg_items(self.queues@[p]));
                    assert(!self.bit(p));
                }
            }
            if let Some(m) = seg_pop(&mut self.queues[prio as usize]) {
                proof {
                    assert(ls[prio as int] == seg_items(before[prio as int]));
                    lemma_top_is(ls, prio as int);
                    assert(self.levels() =~= ls.update(prio as int, ls[prio as int].drop_first()));
                }
                return Some(m);
            }
            let ghost mid = *self;
            self.clear_bit(prio);
            let ghost cleared = *self;
            if let Some(m) = seg_pop(&mut self.queues[prio as usize]) {
                self.set_bit(prio);
                proof {
                    lemma_top_is(ls, prio as int);
                    assert(self.levels() =~= ls.update(prio as int, ls[prio as int].drop_first()));
                }
                return Some(m);
            }
            proof {
                assert(self.mask_lo == cleared.mask_lo && self.mask_hi == cleared.mask_hi);
                assert forall|p: int|
                    0 <= p < NUM_PRIOS && #[trigger] seg_items(self.queues@[p]).len() > 0 implies self.bit(p) by {
                    assert(self.levels()[p] == seg_items(self.queues@[p]));
                    assert(ls[p] == seg_items(before[p]));
                    assert(self.bit(p) == cleared.bit(p));
                    assert(cleared.bit(p) == (p != prio && mid.bit(p)));
                    assert(mid.bit(p) == mask_bit(before_lo, before_hi, p));
                    if p != prio {
                        assert(seg_items(before[p]).len() > 0);
                    }
                }
                assert forall|q: int| prio - 1 < q <= MAX_PRIO implies !#[trigger] self.bit(q) by {
                    assert(self.bit(q) == cleared.bit(q));
                    assert(cleared.bit(q) == (q != prio && mid.bit(q)));
                    assert(mid.bit(q) == mask_bit(before_lo, before_hi, q));
                }
                limit = prio as int - 1;
            }
        }
    }
}

/// When every level is empty, there is no top level.
proof fn lemma_all_empty_top(ls: Seq<Seq<Msg>>)
    requires
        forall|p: int| 0 <= p < ls.len() ==> #[trigger] ls[p].len() == 0,
    ensures
        top_level(ls) == -1,
{
    lemma_top_below_empty(ls, ls.len() as int);
}

proof fn lemma_top_below_empty(ls: Seq<Seq<Msg>>, k: int)
    requires
        k <= ls.len(),
        forall|p: int| 0 <= p < k ==> #[trigger] ls[p].len() == 0,
    ensures
        top_below(ls, k) == -1,
    decreases k,
{
    if k > 0 {
        lemma_top_below_empty(ls, k - 1);
    }
}

/// When level `t` holds messages and every level above it is empty, `t` is
/// the top level.
proof fn lemma_top_is(ls: Seq<Seq<Msg>>, t: int)
    requires
        0 <= t < ls.len(),
        ls[t].len() > 0,
        forall|p: int| t < p < ls.len() ==> #[trigger] ls[p].len() == 0,
    ensures
        top_level(ls) == t,
{
    lemma_top_below_above(ls, t, ls.len() as int);
}

proof fn lemma_top_below_above(ls: Seq<Seq<Msg>>, t: int, k: int)
    requires
        0 <= t < k <= ls.len(),
        ls[t].len() > 0,
        forall|p: int| t < p < ls.len() ==> #[trigger] ls[p].len() == 0,
    ensures
        top_below(ls, k) == t,
    decreases k,
{
    if k - 1 > t {
        lemma_top_below_above(ls, t, k - 1);
    }
}

} // verus!
