//! The crossbeam collections that back the lock-free queue disciplines, with
//! the contracts this library relies on. Each wrapper is called with exclusive
//! access (`&mut`), so no other thread runs an operation on the same
//! collection meanwhile.

use crate::Msg;
use crossbeam::queue::SegQueue;
use crossbeam_skiplist::SkipMap;
use vstd::prelude::*;

verus! {

#[verifier::external_type_specification]
#[verifier::external_body]
#[verifier::reject_recursive_types(T)]
pub struct ExSegQueue<T>(SegQueue<T>);

#[verifier::external_type_specification]
#[verifier::external_body]
#[verifier::reject_recursive_types(K)]
#[verifier::reject_recursive_types(V)]
pub struct ExSkipMap<K, V>(SkipMap<K, V>);

/// What a segmented queue of messages holds, front first.
pub uninterp spec fn seg_items(q: SegQueue<Msg>) -> Seq<Msg>;

/// What a skip map from (level, rank) keys to messages holds.
pub uninterp spec fn skip_entries(m: SkipMap<(u8, u64), Msg>) -> Map<(u8, u64), Msg>;

/// Tuple order on skip-map keys as std defines it for tuples: first
/// component, then second.
pub open spec fn key_le(a: (u8, u64), b: (u8, u64)) -> bool {
    a.0 < b.0 || (a.0 == b.0 && a.1 <= b.1)
}

/// `SegQueue::new`: the new queue holds nothing.
#[verifier::external_body]
pub fn seg_new() -> (q: SegQueue<Msg>)
    ensures
        seg_items(q) == Seq::<Msg>::empty(),
{
    SegQueue::new()
}

/// `SegQueue::push`: the message is appended at the back.
#[verifier::external_body]
pub fn seg_push(q: &mut SegQueue<Msg>, m: Msg)
    ensures
        seg_items(*final(q)) == seg_items(*old(q)).push(m),
{
    q.push(m)
}

/// `SegQueue::pop`: takes the front message, or returns `None` and leaves the
/// queue as it was when it holds nothing.
#[verifier::external_body]
pub fn seg_pop(q: &mut SegQueue<Msg>) -> (r: Option<Msg>)
    ensures
        seg_items(*old(q)).len() == 0 ==> r is None && seg_items(*final(q)) == seg_items(*old(q)),
        seg_items(*old(q)).len() > 0 ==> r == Some(seg_items(*old(q))[0]) && seg_items(*final(q))
            == seg_items(*old(q)).drop_first(),
{
    q.pop()
}

/// `SkipMap::new`: the new map holds nothing.
#[verifier::external_body]
pub fn skip_new() -> (m: SkipMap<(u8, u64), Msg>)
    ensures
        skip_entries(m).dom().is_empty(),
{
    SkipMap::new()
}

/// `SkipMap::insert`: maps `k` to `v`, replacing an entry with the same key.
#[verifier::external_body]
pub fn skip_insert(m: &mut SkipMap<(u8, u64), Msg>, k: (u8, u64), v: Msg)
    ensures
        skip_entries(*final(m)) == skip_entries(*old(m)).insert(k, v),
{
    m.insert(k, v);
}

/// `SkipMap::iter` then `next_back`: the entry with the greatest key, as a
/// (key, value) pair, or `None` when the map holds nothing.
#[verifier::external_body]
pub fn skip_last(m: &SkipMap<(u8, u64), Msg>) -> (r: Option<((u8, u64), Msg)>)
    ensures
        r is None <==> skip_entries(*m).dom().is_empty(),
        r matches Some(e) ==> {
            &&& skip_entries(*m).dom().contains(e.0)
            &&& skip_entries(*m)[e.0] == e.1
            &&& forall|k: (u8, u64)| #[trigger]
                skip_entries(*m).dom().contains(k) ==> key_le(k, e.0)
        },
{
    m.iter().next_back().map(|e| (*e.key(), *e.value()))
}

/// `SkipMap::remove`: drops the entry with key `k`, if there is one.
#[verifier::external_body]
pub fn skip_remove(m: &mut SkipMap<(u8, u64), Msg>, k: &(u8, u64))
    ensures
        skip_entries(*final(m)) == skip_entries(*old(m)).remove(*k),
{
    m.remove(k);
}

} // verus!
