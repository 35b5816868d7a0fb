//! The engine's store-level laws, each proved over the views that the
//! operations' contracts speak of: `set` ensures the view gains the pair,
//! `delete` ensures the view loses the key, `get` returns the view's value.
use vstd::prelude::*;

use crate::engine::MiniBitcask;
use crate::format::{encode_record, replay};

verus! {

/// Round trip: after a set of key `k` to value `v`, a get of `k` yields `v`.
pub proof fn lemma_set_then_get(pre: MiniBitcask, post: MiniBitcask, k: Seq<u8>, v: Seq<u8>)
    requires
        post@ == pre@.insert(k, v),
    ensures
        post@.contains_key(k),
        post@[k] == v,
{
}

/// Delete then miss: after a set of `k` and then a delete of `k`, a get of
/// `k` finds nothing.
pub proof fn lemma_set_delete_then_miss(
    pre: MiniBitcask,
    mid: MiniBitcask,
    post: MiniBitcask,
    k: Seq<u8>,
    v: Seq<u8>,
)
    requires
        mid@ == pre@.insert(k, v),
        post@ == mid@.remove(k),
    ensures
        !post@.contains_key(k),
{
}

/// Idempotent delete: a delete of a never-written key leaves it absent; that
/// the delete nevertheless succeeds and appends a tombstone is what `delete`'s
/// own contract ensures for every key.
pub proof fn lemma_delete_absent(pre: MiniBitcask, post: MiniBitcask, k: Seq<u8>)
    requires
        !pre@.contains_key(k),
        post@ == pre@.remove(k),
    ensures
        !post@.contains_key(k),
{
}

/// Overwrite visibility: after two sets of `k`, a get of `k` yields the
/// second value, while the log retains both records untouched: the first
/// record's bytes and the second's both stand in the final log.
pub proof fn lemma_overwrite(
    pre: MiniBitcask,
    mid: MiniBitcask,
    post: MiniBitcask,
    k: Seq<u8>,
    v1: Seq<u8>,
    v2: Seq<u8>,
)
    requires
        mid@ == pre@.insert(k, v1),
        post@ == mid@.insert(k, v2),
        mid.log@ == pre.log@ + encode_record(k, Some(v1)),
        post.log@ == mid.log@ + encode_record(k, Some(v2)),
    ensures
        post@.contains_key(k),
        post@[k] == v2,
        post.log@.subrange(
            pre.log@.len() as int,
            pre.log@.len() + encode_record(k, Some(v1)).len() as int,
        ) == encode_record(k, Some(v1)),
        post.log@.subrange(
            mid.log@.len() as int,
            mid.log@.len() + encode_record(k, Some(v2)).len() as int,
        ) == encode_record(k, Some(v2)),
{
    let r1 = encode_record(k, Some(v1));
    let r2 = encode_record(k, Some(v2));
    assert(post.log@.subrange(pre.log@.len() as int, pre.log@.len() + r1.len() as int) =~= r1);
    assert(post.log@.subrange(mid.log@.len() as int, mid.log@.len() + r2.len() as int) =~= r2);
}

/// Reopen persistence: the index is a deterministic function of the log's
/// bytes, so two well-formed engines over the same bytes hold the same index
/// and observe the same store.
pub proof fn lemma_reopen_deterministic(e1: MiniBitcask, e2: MiniBitcask)
    requires
        e1.wf(),
        e2.wf(),
        e1.log@ == e2.log@,
    ensures
        e1.keydir@ == e2.keydir@,
        e1@ == e2@,
{
    assert(replay(e1.log@) == replay(e2.log@));
    assert(e1@ =~= e2@);
}

} // verus!
