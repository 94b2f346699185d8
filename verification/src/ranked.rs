//! Queues that order entries by (priority, sequence number), described by the
//! leveled model: the entries split by priority, each level in push order.

use crate::heap::{outranks, HeapItem};
use crate::model::{level_pop, level_push, lemma_top_below, top_level};
use crate::Msg;
use vstd::multiset::Multiset;
use vstd::prelude::*;

verus! {

broadcast use vstd::seq_lib::group_to_multiset_ensures;

/// Number of levels of a queue that accepts any `u8` priority.
pub open spec fn ranked_level_count() -> nat {
    256
}

/// The messages of a level, front first.
pub open spec fn level_msgs(h: Seq<HeapItem>) -> Seq<Msg> {
    h.map_values(|it: HeapItem| it.msg)
}

/// The leveled model of entries split by level.
pub open spec fn ranked_levels(hs: Seq<Seq<HeapItem>>) -> Seq<Seq<Msg>> {
    Seq::new(hs.len(), |c: int| level_msgs(hs[c]))
}

/// `hs` splits entries by priority: one level per `u8` value, every entry of
/// level `c` has priority `c` and a sequence number below `next`, and
/// sequence numbers rise along each level.
pub open spec fn ranked_ok(hs: Seq<Seq<HeapItem>>, next: u64) -> bool {
    &&& hs.len() == ranked_level_count()
    &&& forall|c: int, i: int|
        #![trigger hs[c][i]]
        0 <= c < hs.len() && 0 <= i < hs[c].len() ==> hs[c][i].prio == c && hs[c][i].seq < next
    &&& forall|c: int, i: int, j: int|
        #![trigger hs[c][i], hs[c][j]]
        0 <= c < hs.len() && 0 <= i < j < hs[c].len() ==> hs[c][i].seq < hs[c][j].seq
}

/// The entries of levels `0` to `k - 1`, one level after another.
pub open spec fn flat(hs: Seq<Seq<HeapItem>>, k: int) -> Seq<HeapItem>
    decreases k,
{
    if k <= 0 {
        Seq::empty()
    } else {
        flat(hs, k - 1) + hs[k - 1]
    }
}

/// Every entry of `hs`, one level after another.
pub open spec fn all_entries(hs: Seq<Seq<HeapItem>>) -> Multiset<HeapItem> {
    flat(hs, hs.len() as int).to_multiset()
}

/// The empty split.
pub open spec fn ranked_empty() -> Seq<Seq<HeapItem>> {
    Seq::new(ranked_level_count(), |c: int| Seq::<HeapItem>::empty())
}

proof fn lemma_flat_update(hs: Seq<Seq<HeapItem>>, p: int, x: Seq<HeapItem>, k: int)
    requires
        0 <= p < hs.len(),
        0 <= k <= hs.len(),
    ensures
        k <= p ==> flat(hs.update(p, x), k) == flat(hs, k),
        k > p ==> flat(hs.update(p, x), k).to_multiset().add(hs[p].to_multiset()) =~= flat(
            hs,
            k,
        ).to_multiset().add(x.to_multiset()),
    decreases k,
{
    broadcast use vstd::seq_lib::lemma_multiset_commutative;
    broadcast use vstd::multiset::group_multiset_axioms;

    if k > 0 {
        lemma_flat_update(hs, p, x, k - 1);
        let hs2 = hs.update(p, x);
        assert(flat(hs2, k) == flat(hs2, k - 1) + hs2[k - 1]);
        assert(flat(hs, k) == flat(hs, k - 1) + hs[k - 1]);
        if k <= p {
            assert(hs2[k - 1] == hs[k - 1]);
        } else {
            let a2 = flat(hs2, k - 1).to_multiset();
            let a = flat(hs, k - 1).to_multiset();
            assert(flat(hs2, k).to_multiset() =~= a2.add(hs2[k - 1].to_multiset()));
            assert(flat(hs, k).to_multiset() =~= a.add(hs[k - 1].to_multiset()));
            let l = flat(hs2, k).to_multiset().add(hs[p].to_multiset());
            let r = flat(hs, k).to_multiset().add(x.to_multiset());
            if k - 1 == p {
                assert(a2 == a);
                assert(hs2[k - 1] == x);
            } else {
                assert(hs2[k - 1] == hs[k - 1]);
                assert(a2.add(hs[p].to_multiset()) =~= a.add(x.to_multiset()));
                assert forall|v: HeapItem| #[trigger] l.count(v) == r.count(v) by {
                    assert(a2.add(hs[p].to_multiset()).count(v) == a.add(x.to_multiset()).count(v));
                }
            }
            assert(l =~= r);
        }
    }
}

proof fn lemma_flat_member(hs: Seq<Seq<HeapItem>>, k: int, y: HeapItem)
    requires
        0 <= k <= hs.len(),
        flat(hs, k).to_multiset().count(y) > 0,
    ensures
        exists|c: int, i: int| 0 <= c < k && 0 <= i < hs[c].len() && hs[c][i] == y,
    decreases k,
{
    broadcast use vstd::seq_lib::lemma_multiset_commutative;
    broadcast use vstd::multiset::group_multiset_axioms;

    if k > 0 {
        assert(flat(hs, k) == flat(hs, k - 1) + hs[k - 1]);
        if flat(hs, k - 1).to_multiset().count(y) > 0 {
            lemma_flat_member(hs, k - 1, y);
            let (c, i) = choose|c: int, i: int|
                0 <= c < k - 1 && 0 <= i < hs[c].len() && hs[c][i] == y;
            assert(0 <= c < k && 0 <= i < hs[c].len() && hs[c][i] == y);
        } else {
            assert(hs[k - 1].to_multiset().count(y) > 0);
            assert(hs[k - 1].contains(y));
            let h = hs[k - 1];
            let i = choose|i: int| 0 <= i < h.len() && #[trigger] h[i] == y;
            assert(0 <= k - 1 < k && 0 <= i < hs[k - 1].len() && hs[k - 1][i] == y);
        }
    }
}

proof fn lemma_flat_contains(hs: Seq<Seq<HeapItem>>, k: int, c: int, i: int)
    requires
        0 <= c < k <= hs.len(),
        0 <= i < hs[c].len(),
    ensures
        flat(hs, k).to_multiset().count(hs[c][i]) > 0,
    decreases k,
{
    broadcast use vstd::seq_lib::lemma_multiset_commutative;
    broadcast use vstd::multiset::group_multiset_axioms;

    assert(flat(hs, k) == flat(hs, k - 1) + hs[k - 1]);
    if c < k - 1 {
        lemma_flat_contains(hs, k - 1, c, i);
    } else {
        assert(hs[c].contains(hs[c][i]));
    }
}

/// Law: the empty split describes an empty queue.
pub proof fn lemma_ranked_start()
    ensures
        ranked_ok(ranked_empty(), 0),
        all_entries(ranked_empty()) =~= Multiset::<HeapItem>::empty(),
        ranked_levels(ranked_empty()) =~= Seq::new(
            ranked_level_count(),
            |c: int| Seq::<Msg>::empty(),
        ),
{
    broadcast use vstd::multiset::group_multiset_axioms;

    let hs = ranked_empty();
    lemma_flat_empty(hs, hs.len() as int);
    assert forall|c: int| 0 <= c < hs.len() implies #[trigger] ranked_levels(hs)[c] =~= Seq::<
        Msg,
    >::empty() by {
        assert(level_msgs(hs[c]) =~= Seq::<Msg>::empty());
    }
}

proof fn lemma_flat_empty(hs: Seq<Seq<HeapItem>>, k: int)
    requires
        0 <= k <= hs.len(),
        forall|c: int| 0 <= c < hs.len() ==> #[trigger] hs[c].len() == 0,
    ensures
        flat(hs, k) =~= Seq::<HeapItem>::empty(),
    decreases k,
{
    if k > 0 {
        lemma_flat_empty(hs, k - 1);
        assert(hs[k - 1] =~= Seq::<HeapItem>::empty());
    }
}

/// Law: a push of priority `it.prio` with the next sequence number goes at the
/// back of its level; before the counter wraps the split stays valid.
pub proof fn lemma_ranked_push(hs: Seq<Seq<HeapItem>>, next: u64, it: HeapItem)
    requires
        ranked_ok(hs, next),
        next < u64::MAX,
        it.seq == next,
    ensures
        ({
            let hs2 = hs.update(it.prio as int, hs[it.prio as int].push(it));
            &&& ranked_ok(hs2, (next + 1) as u64)
            &&& all_entries(hs2) =~= all_entries(hs).insert(it)
            &&& ranked_levels(hs2) =~= level_push(ranked_levels(hs), it.prio as int, it.msg)
        }),
{
    broadcast use vstd::multiset::group_multiset_axioms;

    let p = it.prio as int;
    let x = hs[p].push(it);
    let hs2 = hs.update(p, x);
    lemma_flat_update(hs, p, x, hs.len() as int);
    assert(x.to_multiset() =~= hs[p].to_multiset().insert(it));
    assert forall|c: int, i: int, j: int|
        #![trigger hs2[c][i], hs2[c][j]]
        0 <= c < hs2.len() && 0 <= i < j < hs2[c].len() implies hs2[c][i].seq < hs2[c][j].seq by {
        if c == p && j == hs[p].len() {
            assert(hs[c][i].seq < next);
        } else {
            assert(hs2[c][i] == hs[c][i] && hs2[c][j] == hs[c][j]);
        }
    }
    assert forall|c: int, i: int|
        #![trigger hs2[c][i]]
        0 <= c < hs2.len() && 0 <= i < hs2[c].len() implies hs2[c][i].prio == c && hs2[c][i].seq < (
        next + 1) as u64 by {
        if !(c == p && i == hs[p].len()) {
            assert(hs2[c][i] == hs[c][i]);
        }
    }
    assert(level_msgs(x) =~= level_msgs(hs[p]).push(it.msg));
    let l = flat(hs2, hs.len() as int).to_multiset();
    let r = flat(hs, hs.len() as int).to_multiset();
    assert forall|v: HeapItem| #[trigger] l.count(v) == r.insert(it).count(v) by {
        assert(l.add(hs[p].to_multiset()).count(v) == r.add(x.to_multiset()).count(v));
    }
    assert(all_entries(hs2) =~= all_entries(hs).insert(it));
    assert(ranked_levels(hs2) =~= level_push(ranked_levels(hs), p, it.msg));
    assert(ranked_ok(hs2, (next + 1) as u64));
}

/// The top level's front entry: the one a pop hands out.
pub open spec fn ranked_front(hs: Seq<Seq<HeapItem>>) -> HeapItem {
    hs[top_level(ranked_levels(hs))][0]
}

/// Law: when the split holds entries, its top level's front entry is the only
/// entry that no other entry outranks; a pop of the leveled model hands out
/// its message, and the split without it describes what is left.
pub proof fn lemma_ranked_pop(hs: Seq<Seq<HeapItem>>, next: u64)
    requires
        ranked_ok(hs, next),
    ensures
        all_entries(hs).len() == 0 <==> level_pop(ranked_levels(hs)).0 is None,
        all_entries(hs).len() > 0 ==> {
            let t = top_level(ranked_levels(hs));
            let f = ranked_front(hs);
            let hs2 = hs.update(t, hs[t].drop_first());
            &&& 0 <= t < hs.len()
            &&& all_entries(hs).count(f) > 0
            &&& forall|x: HeapItem| #[trigger] all_entries(hs).count(x) > 0 ==> !outranks(x, f)
            &&& forall|y: HeapItem|
                all_entries(hs).count(y) > 0 && (forall|x: HeapItem| #[trigger]
                    all_entries(hs).count(x) > 0 ==> !outranks(x, y)) ==> y == f
            &&& level_pop(ranked_levels(hs)).0 == Some(f.msg)
            &&& ranked_ok(hs2, next)
            &&& all_entries(hs2) =~= all_entries(hs).remove(f)
            &&& ranked_levels(hs2) =~= level_pop(ranked_levels(hs)).1
        },
{
    broadcast use vstd::multiset::group_multiset_axioms;

    let ls = ranked_levels(hs);
    let n = hs.len() as int;
    lemma_top_below(ls, n);
    let t = top_level(ls);
    if t < 0 {
        assert forall|c: int| 0 <= c < n implies #[trigger] hs[c].len() == 0 by {
            assert(ls[c].len() == 0);
        }
        lemma_flat_empty(hs, n);
        assert(all_entries(hs) =~= Multiset::<HeapItem>::empty());
        return;
    }
    assert(ls[t].len() > 0);
    let f = hs[t][0];
    lemma_flat_contains(hs, n, t, 0);
    assert(all_entries(hs).count(f) > 0);
    assert(all_entries(hs).len() > 0);
    assert forall|x: HeapItem| #[trigger] all_entries(hs).count(x) > 0 implies !outranks(x, f) by {
        lemma_flat_member(hs, n, x);
        let (c, i) = choose|c: int, i: int| 0 <= c < n && 0 <= i < hs[c].len() && hs[c][i] == x;
        if c > t {
            assert(ls[c].len() == 0);
        }
        if c == t && i > 0 {
            assert(hs[t][0].seq < hs[t][i].seq);
        }
    }
    assert forall|y: HeapItem|
        all_entries(hs).count(y) > 0 && (forall|x: HeapItem| #[trigger]
            all_entries(hs).count(x) > 0 ==> !outranks(x, y)) implies y == f by {
        lemma_flat_member(hs, n, y);
        let (c, i) = choose|c: int, i: int| 0 <= c < n && 0 <= i < hs[c].len() && hs[c][i] == y;
        assert(!outranks(f, y));
        assert(!outranks(y, f));
        if c > t {
            assert(ls[c].len() == 0);
        }
        if i > 0 {
            assert(hs[t][0].seq < hs[t][i].seq);
        }
    }
    let x = hs[t].drop_first();
    let hs2 = hs.update(t, x);
    lemma_flat_update(hs, t, x, n);
    assert(hs[t] =~= seq![f] + x);
    assert(hs[t].to_multiset() =~= x.to_multiset().insert(f)) by {
        assert(hs[t].drop_first() =~= hs[t].remove(0));
    }
    assert forall|c: int, a: int, b: int|
        #![trigger hs2[c][a], hs2[c][b]]
        0 <= c < n && 0 <= a < b < hs2[c].len() implies hs2[c][a].seq < hs2[c][b].seq by {
        if c == t {
            assert(hs2[c][a] == hs[c][a + 1] && hs2[c][b] == hs[c][b + 1]);
        } else {
            assert(hs2[c][a] == hs[c][a] && hs2[c][b] == hs[c][b]);
        }
    }
    assert forall|c: int, a: int|
        #![trigger hs2[c][a]]
        0 <= c < n && 0 <= a < hs2[c].len() implies hs2[c][a].prio == c && hs2[c][a].seq < next by {
        if c == t {
            assert(hs2[c][a] == hs[c][a + 1]);
        } else {
            assert(hs2[c][a] == hs[c][a]);
        }
    }
    assert(level_msgs(x) =~= level_msgs(hs[t]).drop_first());
    assert(ranked_levels(hs2) =~= ls.update(t, ls[t].drop_first()));
    let l = flat(hs2, n).to_multiset();
    let r = flat(hs, n).to_multiset();
    assert forall|v: HeapItem| #[trigger] l.count(v) == r.remove(f).count(v) by {
        assert(l.add(hs[t].to_multiset()).count(v) == r.add(x.to_multiset()).count(v));
    }
    assert(all_entries(hs2) =~= all_entries(hs).remove(f));
    assert(level_pop(ls).0 == Some(f.msg));
    assert(ranked_front(hs) == f);
}

} // verus!
