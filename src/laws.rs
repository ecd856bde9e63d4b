use vstd::prelude::*;
use crate::bucket::BucketContainerReq;
use crate::bucket_separate_chain::{BucketSeperateChainHashMap, ceil_div, resized_bucket_count};
use crate::key::BucketKeyReq;
use crate::ratio::Ratio;

verus! {

/// Inserting a key twice, the second time with another value, leaves the
/// entry count as it was after the first insert, and the key then maps to
/// the second value.
pub proof fn law_idempotent_overwrite<K: BucketKeyReq, V, B: BucketContainerReq<K, V>>(
    m: BucketSeperateChainHashMap<K, V, B>,
    k: K,
    v1: V,
    v2: V,
)
    requires
        m.wf(),
    ensures
        m@.insert(k, v1).insert(k, v2).len() == m@.insert(k, v1).len(),
        m@.insert(k, v1).insert(k, v2).contains_key(k),
        m@.insert(k, v1).insert(k, v2)[k] == v2,
{
    assert(m@.insert(k, v1).insert(k, v2).dom() =~= m@.insert(k, v1).dom());
}

/// Removing a key right after inserting it (when it was absent) hands back
/// the inserted value, leaves the key absent, and restores the entry count
/// and the contents.
pub proof fn law_remove_inverts_insert<K: BucketKeyReq, V, B: BucketContainerReq<K, V>>(
    m: BucketSeperateChainHashMap<K, V, B>,
    k: K,
    v: V,
)
    requires
        m.wf(),
        !m@.contains_key(k),
    ensures
        m@.insert(k, v).contains_key(k),
        m@.insert(k, v)[k] == v,
        !m@.insert(k, v).remove(k).contains_key(k),
        m@.insert(k, v).remove(k).len() == m@.len(),
        m@.insert(k, v).remove(k) == m@,
{
    assert(m@.insert(k, v).remove(k) =~= m@);
}

/// After a resize for `entries` entries, the load factor
/// `entries / buckets` is at most `entries / ceil(entries / resize)`, as long
/// as that bucket count fits in a `usize`.
pub proof fn law_rehash_load_factor(entries: nat, resize: Ratio)
    requires
        resize.is_positive(),
        ceil_div(entries * resize.den as nat, resize.num as nat) <= usize::MAX,
    ensures
        resized_bucket_count(entries, resize) > 0,
        entries * ceil_div(entries * resize.den as nat, resize.num as nat) <= entries
            * resized_bucket_count(entries, resize),
{
    let c = ceil_div(entries * resize.den as nat, resize.num as nat);
    let r = resized_bucket_count(entries, resize);
    assert(c <= r);
    assert(entries * c <= entries * r) by (nonlinear_arith)
        requires
            c <= r,
    ;
}

} // verus!
