//! Abstract model of a leveled priority queue: one first-in-first-out sequence
//! of messages per level, the highest non-empty level served first.

use crate::Msg;
use vstd::prelude::*;

verus! {

/// Appends `m` at the back of level `p`.
pub open spec fn level_push(ls: Seq<Seq<Msg>>, p: int, m: Msg) -> Seq<Seq<Msg>> {
    ls.update(p, ls[p].push(m))
}

/// The highest level below `k` that holds a message, or -1 when there is none.
pub open spec fn top_below(ls: Seq<Seq<Msg>>, k: int) -> int
    decreases k,
{
    if k <= 0 {
        -1
    } else if ls[k - 1].len() > 0 {
        k - 1
    } else {
        top_below(ls, k - 1)
    }
}

/// The highest level that holds a message, or -1 when every level is empty.
pub open spec fn top_level(ls: Seq<Seq<Msg>>) -> int {
    top_below(ls, ls.len() as int)
}

/// Takes the front message of the highest non-empty level; nothing when every
/// level is empty.
pub open spec fn level_pop(ls: Seq<Seq<Msg>>) -> (Option<Msg>, Seq<Seq<Msg>>) {
    let t = top_level(ls);
    if t < 0 {
        (None, ls)
    } else {
        (Some(ls[t][0]), ls.update(t, ls[t].drop_first()))
    }
}

/// The messages of levels `lo` up to `hi - 1`, level `hi - 1` first and each
/// level front first.
pub open spec fn drain_between(ls: Seq<Seq<Msg>>, lo: int, hi: int) -> Seq<Msg>
    decreases hi - lo,
{
    if hi <= lo {
        Seq::empty()
    } else {
        ls[hi - 1] + drain_between(ls, lo, hi - 1)
    }
}

/// Every queued message in the order the queue hands them out: highest level
/// first, first-in-first-out within a level.
pub open spec fn drain_order(ls: Seq<Seq<Msg>>) -> Seq<Msg> {
    drain_between(ls, 0, ls.len() as int)
}

/// The top level below `k` holds messages and every level between it and `k`
/// is empty.
pub proof fn lemma_top_below(ls: Seq<Seq<Msg>>, k: int)
    requires
        0 <= k <= ls.len(),
    ensures
        -1 <= top_below(ls, k) < k,
        top_below(ls, k) >= 0 ==> ls[top_below(ls, k)].len() > 0,
        forall|i: int| top_below(ls, k) < i < k ==> #[trigger] ls[i].len() == 0,
    decreases k,
{
    if k > 0 && ls[k - 1].len() == 0 {
        lemma_top_below(ls, k - 1);
    }
}

proof fn lemma_drain_split(ls: Seq<Seq<Msg>>, lo: int, mid: int, hi: int)
    requires
        lo <= mid <= hi,
    ensures
        drain_between(ls, lo, hi) =~= drain_between(ls, mid, hi) + drain_between(ls, lo, mid),
    decreases hi - mid,
{
    if hi > mid {
        lemma_drain_split(ls, lo, mid, hi - 1);
        assert(drain_between(ls, lo, hi) =~= ls[hi - 1] + drain_between(ls, lo, hi - 1));
        assert(drain_between(ls, mid, hi) =~= ls[hi - 1] + drain_between(ls, mid, hi - 1));
    } else {
        assert(drain_between(ls, mid, hi) =~= Seq::<Msg>::empty());
    }
}

proof fn lemma_drain_empty_levels(ls: Seq<Seq<Msg>>, lo: int, hi: int)
    requires
        forall|i: int| lo <= i < hi ==> #[trigger] ls[i].len() == 0,
    ensures
        drain_between(ls, lo, hi) =~= Seq::<Msg>::empty(),
    decreases hi - lo,
{
    if hi > lo {
        lemma_drain_empty_levels(ls, lo, hi - 1);
        assert(ls[hi - 1] =~= Seq::<Msg>::empty());
    }
}

proof fn lemma_drain_unchanged(ls: Seq<Seq<Msg>>, ms: Seq<Seq<Msg>>, lo: int, hi: int)
    requires
        forall|i: int| lo <= i < hi ==> #[trigger] ls[i] == ms[i],
    ensures
        drain_between(ls, lo, hi) == drain_between(ms, lo, hi),
    decreases hi - lo,
{
    if hi > lo {
        lemma_drain_unchanged(ls, ms, lo, hi - 1);
    }
}

/// Around level `p`, the hand-out order is: the levels above `p`, then level
/// `p`, then the levels below it.
pub proof fn lemma_drain_around(ls: Seq<Seq<Msg>>, p: int)
    requires
        0 <= p < ls.len(),
    ensures
        drain_order(ls) =~= drain_between(ls, p + 1, ls.len() as int) + ls[p] + drain_between(
            ls,
            0,
            p,
        ),
{
    lemma_drain_split(ls, 0, p, ls.len() as int);
    lemma_drain_split(ls, p, p + 1, ls.len() as int);
    assert(drain_between(ls, p, p + 1) =~= ls[p] + drain_between(ls, p, p));
    assert(drain_between(ls, p, p) =~= Seq::<Msg>::empty());
}

/// Law: a pop hands out the first message of the hand-out order and leaves the
/// rest of that order as it was; it hands out nothing exactly when nothing is
/// queued.
pub proof fn lemma_pop_follows_drain_order(ls: Seq<Seq<Msg>>)
    ensures
        level_pop(ls).0 == (if drain_order(ls).len() == 0 {
            None
        } else {
            Some(drain_order(ls)[0])
        }),
        drain_order(level_pop(ls).1) == (if drain_order(ls).len() == 0 {
            drain_order(ls)
        } else {
            drain_order(ls).drop_first()
        }),
        level_pop(ls).1.len() == ls.len(),
{
    let n = ls.len() as int;
    lemma_top_below(ls, n);
    let t = top_level(ls);
    if t < 0 {
        lemma_drain_empty_levels(ls, 0, n);
    } else {
        let ms = level_pop(ls).1;
        lemma_drain_around(ls, t);
        lemma_drain_around(ms, t);
        lemma_drain_empty_levels(ls, t + 1, n);
        lemma_drain_unchanged(ls, ms, t + 1, n);
        lemma_drain_unchanged(ls, ms, 0, t);
        assert(drain_order(ls) =~= ls[t] + drain_between(ls, 0, t));
        assert(drain_order(ms) =~= ls[t].drop_first() + drain_between(ls, 0, t));
        assert(drain_order(ls)[0] == ls[t][0]);
    }
}

/// Law: a push at level `p` puts the new message after every queued message of
/// level `p` and above, and before every message of the levels below `p`.
pub proof fn lemma_push_place(ls: Seq<Seq<Msg>>, p: int, m: Msg)
    requires
        0 <= p < ls.len(),
    ensures
        drain_order(ls) =~= drain_between(ls, p + 1, ls.len() as int) + ls[p] + drain_between(
            ls,
            0,
            p,
        ),
        drain_order(level_push(ls, p, m)) =~= drain_between(ls, p + 1, ls.len() as int) + ls[p].push(
            m,
        ) + drain_between(ls, 0, p),
{
    let ms = level_push(ls, p, m);
    lemma_drain_around(ls, p);
    lemma_drain_around(ms, p);
    lemma_drain_unchanged(ls, ms, p + 1, ls.len() as int);
    lemma_drain_unchanged(ls, ms, 0, p);
}

/// Law: a push adds exactly its message to what is queued.
pub proof fn lemma_push_adds_one(ls: Seq<Seq<Msg>>, p: int, m: Msg)
    requires
        0 <= p < ls.len(),
    ensures
        drain_order(level_push(ls, p, m)).to_multiset() =~= drain_order(ls).to_multiset().insert(m),
{
    broadcast use vstd::seq_lib::lemma_multiset_commutative;
    broadcast use vstd::seq_lib::group_to_multiset_ensures;
    broadcast use vstd::multiset::group_multiset_axioms;

    lemma_push_place(ls, p, m);
    let a = drain_between(ls, p + 1, ls.len() as int);
    let b = drain_between(ls, 0, p);
    assert((a + ls[p].push(m) + b).to_multiset() =~= a.to_multiset().add(ls[p].to_multiset().insert(
        m,
    )).add(b.to_multiset()));
    assert((a + ls[p] + b).to_multiset() =~= a.to_multiset().add(ls[p].to_multiset()).add(
        b.to_multiset(),
    ));
}

/// Law: a pop that hands out `m` removes exactly `m` from what is queued; a
/// pop that hands out nothing changes nothing.
pub proof fn lemma_pop_removes_one(ls: Seq<Seq<Msg>>)
    ensures
        level_pop(ls).0 matches Some(m) ==> drain_order(ls).to_multiset().count(m) > 0
            && drain_order(level_pop(ls).1).to_multiset() =~= drain_order(ls).to_multiset().remove(
            m,
        ),
        level_pop(ls).0 is None ==> drain_order(ls).len() == 0 && level_pop(ls).1 == ls,
{
    broadcast use vstd::seq_lib::group_to_multiset_ensures;

    lemma_pop_follows_drain_order(ls);
    let d = drain_order(ls);
    if d.len() > 0 {
        assert(d.drop_first() =~= d.remove(0));
        assert(d.contains(d[0]));
    }
}

/// `big` holds the levels of `small` at its bottom and nothing above them.
pub open spec fn embeds(small: Seq<Seq<Msg>>, big: Seq<Seq<Msg>>) -> bool {
    &&& small.len() <= big.len()
    &&& forall|c: int| 0 <= c < small.len() ==> #[trigger] big[c] == small[c]
    &&& forall|c: int| small.len() <= c < big.len() ==> #[trigger] big[c].len() == 0
}

/// Law: when the levels of one queue embed in those of another, both pops
/// hand out the same message (or both nothing) and the embedding stays.
/// Applied to the two-class queue and the heap queue fed only LOW and HIGH,
/// the two give the same answers.
pub proof fn lemma_embeds_pop(small: Seq<Seq<Msg>>, big: Seq<Seq<Msg>>)
    requires
        embeds(small, big),
    ensures
        level_pop(big).0 == level_pop(small).0,
        embeds(level_pop(small).1, level_pop(big).1),
{
    let ns = small.len() as int;
    let nb = big.len() as int;
    lemma_top_below(small, ns);
    lemma_top_below(big, nb);
    let ts = top_level(small);
    let tb = top_level(big);
    if tb > ts {
        if tb < ns {
            assert(small[tb].len() == big[tb].len());
        } else {
            assert(big[tb].len() == 0);
        }
    }
    if tb < ts {
        assert(big[ts] == small[ts]);
    }
    assert(tb == ts);
    if ts >= 0 {
        assert(big[ts] == small[ts]);
        assert(level_pop(small).1.len() == ns);
        assert(forall|c: int| 0 <= c < ns ==> #[trigger] level_pop(big).1[c] == level_pop(small).1[c]);
        assert(forall|c: int| ns <= c < nb ==> #[trigger] level_pop(big).1[c] == big[c]);
    }
}

/// Law: a push at a level both queues have keeps the embedding.
pub proof fn lemma_embeds_push(small: Seq<Seq<Msg>>, big: Seq<Seq<Msg>>, p: int, m: Msg)
    requires
        embeds(small, big),
        0 <= p < small.len(),
    ensures
        embeds(level_push(small, p, m), level_push(big, p, m)),
{
}

/// Law: a pop takes the front message of a level that holds messages and has
/// only empty levels above it, and leaves every other level as it was; it
/// takes nothing exactly when every level is empty.
pub proof fn lemma_level_pop_highest(ls: Seq<Seq<Msg>>)
    ensures
        level_pop(ls).0 is None ==> level_pop(ls).1 == ls && forall|c: int|
            0 <= c < ls.len() ==> #[trigger] ls[c].len() == 0,
        level_pop(ls).0 matches Some(m) ==> exists|t: int|
            0 <= t < ls.len() && #[trigger] ls[t].len() > 0 && m == ls[t][0] && (forall|c: int|
                t < c < ls.len() ==> #[trigger] ls[c].len() == 0) && level_pop(ls).1 == ls.update(
                t,
                ls[t].drop_first(),
            ),
{
    lemma_top_below(ls, ls.len() as int);
    let t = top_level(ls);
    if t >= 0 {
        assert(ls[t].len() > 0);
    }
}

/// Law: a push appends its message at the back of its own level and leaves
/// every other level as it was.
pub proof fn lemma_level_push_back(ls: Seq<Seq<Msg>>, p: int, m: Msg)
    requires
        0 <= p < ls.len(),
    ensures
        level_push(ls, p, m).len() == ls.len(),
        level_push(ls, p, m)[p] =~= ls[p] + seq![m],
        forall|c: int| 0 <= c < ls.len() && c != p ==> #[trigger] level_push(ls, p, m)[c] == ls[c],
{
}

} // verus!
