use vstd::prelude::*;
use crate::bucket::{BucketContainerReq, BucketInterface, InlineBucket};
use crate::key::BucketKeyReq;
use crate::ratio::Ratio;

verus! {

/// Default ratio of entries to buckets at which the table grows: 1/1.
pub const DEFAULT_LOAD_FACTOR_MAX_NUM: u64 = 1;
pub const DEFAULT_LOAD_FACTOR_MAX_DEN: u64 = 1;

/// Default ratio of entries to buckets right after a resize: 1/2.
pub const DEFAULT_RESIZE_LOAD_FACTOR_NUM: u64 = 1;
pub const DEFAULT_RESIZE_LOAD_FACTOR_DEN: u64 = 2;

/// The bucket that key `k` belongs to in a table of `n` buckets.
pub open spec fn bucket_index_of<K: BucketKeyReq>(k: K, n: nat) -> int {
    (k.spec_digest() as nat % n) as int
}

/// Whether some entry of `s` has key `k`.
pub open spec fn has_key<K, V>(s: Seq<(K, V)>, k: K) -> bool {
    exists|j: int| 0 <= j < s.len() && (#[trigger] s[j]).0 == k
}

/// The chains `bs` store exactly the map `m`: every entry sits in the bucket
/// its key hashes to and agrees with `m`, no chain holds a key twice, and
/// every key of `m` is found in its chain.
pub open spec fn chains_store<K: BucketKeyReq, V>(bs: Seq<Seq<(K, V)>>, m: Map<K, V>) -> bool {
    &&& forall|i: int, j: int|
        0 <= i < bs.len() && 0 <= j < bs[i].len() ==> {
            let e = #[trigger] bs[i][j];
            &&& bucket_index_of(e.0, bs.len()) == i
            &&& m.contains_key(e.0)
            &&& m[e.0] == e.1
        }
    &&& forall|i: int, j1: int, j2: int|
        0 <= i < bs.len() && 0 <= j1 < bs[i].len() && 0 <= j2 < bs[i].len() && (#[trigger] bs[i][j1]).0
            == (#[trigger] bs[i][j2]).0 ==> j1 == j2
    &&& forall|k: K| #[trigger] m.contains_key(k) ==> has_key(bs[bucket_index_of(k, bs.len())], k)
}

/// Every bucket's storage invariant holds.
pub open spec fn buckets_inv<K, V, B: BucketInterface<K, V>>(bs: Seq<B>) -> bool {
    forall|i: int| 0 <= i < bs.len() ==> (#[trigger] bs[i]).inv()
}

/// A chain holds no more entries than the map it stores.
proof fn lemma_chain_len_bounded<K: BucketKeyReq, V>(bs: Seq<Seq<(K, V)>>, m: Map<K, V>, i: int)
    requires
        chains_store(bs, m),
        m.dom().finite(),
        0 <= i < bs.len(),
    ensures
        bs[i].len() <= m.len(),
{
    let ks = bs[i].map_values(|e: (K, V)| e.0);
    assert(ks.no_duplicates()) by {
        assert forall|a: int, b: int| 0 <= a < ks.len() && 0 <= b < ks.len() && a != b implies ks[a]
            != ks[b] by {
            let x = bs[i][a];
            let y = bs[i][b];
        }
    }
    ks.unique_seq_to_set();
    assert(ks.to_set().subset_of(m.dom())) by {
        assert forall|k: K| ks.to_set().contains(k) implies m.dom().contains(k) by {
            let j = choose|j: int| 0 <= j < ks.len() && ks[j] == k;
            let e = bs[i][j];
        }
    }
    vstd::set_lib::lemma_len_subset(ks.to_set(), m.dom());
}

/// Whether a table of `buckets` buckets holding `target` entries is due for
/// a resize under the threshold `max`: `target / buckets >= max`.
pub open spec fn needs_resize(target: nat, buckets: nat, max: Ratio) -> bool {
    target * max.den >= max.num * buckets
}

/// `ceil(a / b)` for `b > 0`.
pub open spec fn ceil_div(a: nat, b: nat) -> nat {
    ((a + b - 1) / b as int) as nat
}

/// The bucket count a resize for `target` entries picks:
/// `ceil(target / resize)`, at least one, and at most `usize::MAX`.
pub open spec fn resized_bucket_count(target: nat, resize: Ratio) -> nat {
    let c = ceil_div(target * resize.den as nat, resize.num as nat);
    if c == 0 {
        1
    } else if c > usize::MAX {
        usize::MAX as nat
    } else {
        c
    }
}

/// The bucket count after the resize policy has been consulted for `target`.
pub open spec fn bucket_count_after(target: nat, buckets: nat, max: Ratio, resize: Ratio) -> nat {
    if needs_resize(target, buckets, max) {
        resized_bucket_count(target, resize)
    } else {
        buckets
    }
}

/// The position of the entry with key `key` in bucket `b`, if there is one.
fn bucket_position<K: BucketKeyReq, V, B: BucketInterface<K, V>>(b: &B, key: &K) -> (r: Option<
    usize,
>)
    requires
        b.inv(),
    ensures
        match r {
            Some(j) => j < b.entries().len() && b.entries()[j as int].0 == *key,
            None => !has_key(b.entries(), *key),
        },
{
    let n = b.len();
    let mut j: usize = 0;
    while j < n
        invariant
            b.inv(),
            n == b.entries().len(),
            j <= n,
            forall|t: int| 0 <= t < j ==> (#[trigger] b.entries()[t]).0 != *key,
        decreases n - j,
    {
        let e = b.vec_get(j).unwrap();
        if e.0.key_eq(key) {
            return Some(j);
        }
        j = j + 1;
    }
    None
}

/// One mutating operation on a map.
pub enum MapOp<K, V> {
    Insert(K, V),
    Remove(K),
}

/// The effect of one operation on a mathematical map.
pub open spec fn reference_step<K, V>(m: Map<K, V>, op: MapOp<K, V>) -> Map<K, V> {
    match op {
        MapOp::Insert(k, v) => m.insert(k, v),
        MapOp::Remove(k) => m.remove(k),
    }
}

/// The mathematical map reached from `m` by applying `ops` in order.
pub open spec fn reference_apply<K, V>(m: Map<K, V>, ops: Seq<MapOp<K, V>>) -> Map<K, V>
    decreases ops.len(),
{
    if ops.len() == 0 {
        m
    } else {
        reference_step(reference_apply(m, ops.drop_last()), ops.last())
    }
}

/// A hash map with separate chaining over a pluggable bucket type.
#[verifier::reject_recursive_types(K)]
pub struct BucketSeperateChainHashMap<K: BucketKeyReq, V, BucketType: BucketContainerReq<K, V>> {
    entries: usize,
    load_factor_max: Ratio,
    resize_load_factor: Ratio,
    buckets: Vec<BucketType>,
    model: Ghost<Map<K, V>>,
}

/// The map with plain growable vectors as buckets.
pub type HashmapChainVec<K, V> = BucketSeperateChainHashMap<K, V, Vec<(K, V)>>;

/// The map with inline-then-spill buckets.
pub type HashmapChainSmallVec<K, V> = BucketSeperateChainHashMap<K, V, InlineBucket<K, V>>;

/// The default map: plain vector buckets.
pub type BucketHashmap<K, V> = HashmapChainVec<K, V>;

impl<K: BucketKeyReq, V, BucketType: BucketContainerReq<K, V>> View for BucketSeperateChainHashMap<
    K,
    V,
    BucketType,
> {
    type V = Map<K, V>;

    closed spec fn view(&self) -> Map<K, V> {
        self.model@
    }
}

impl<K: BucketKeyReq, V, BucketType: BucketContainerReq<K, V>> BucketSeperateChainHashMap<
    K,
    V,
    BucketType,
> {
    /// The chains, one entry sequence per bucket.
    pub closed spec fn chains(&self) -> Seq<Seq<(K, V)>> {
        self.buckets@.map_values(|b: BucketType| b.entries())
    }

    pub closed spec fn spec_bucket_count(&self) -> nat {
        self.buckets@.len()
    }

    pub closed spec fn spec_load_factor_max(&self) -> Ratio {
        self.load_factor_max
    }

    pub closed spec fn spec_resize_load_factor(&self) -> Ratio {
        self.resize_load_factor
    }

    /// The table's invariant.
    pub closed spec fn wf(&self) -> bool {
        &&& self.buckets@.len() > 0
        &&& buckets_inv(self.buckets@)
        &&& self.load_factor_max.is_positive()
        &&& self.resize_load_factor.is_positive()
        &&& self.model@.dom().finite()
        &&& self.entries as nat == self.model@.len()
        &&& chains_store(self.chains(), self.model@)
    }

    /// An empty table of `count` buckets with the default thresholds.
    fn with_bucket_count(count: usize) -> (r: Self)
        requires
            count > 0,
        ensures
            r.wf(),
            r@ == Map::<K, V>::empty(),
            r.spec_bucket_count() == count,
            r.spec_load_factor_max() == Ratio::new_spec(
                DEFAULT_LOAD_FACTOR_MAX_NUM,
                DEFAULT_LOAD_FACTOR_MAX_DEN,
            ),
            r.spec_resize_load_factor() == Ratio::new_spec(
                DEFAULT_RESIZE_LOAD_FACTOR_NUM,
                DEFAULT_RESIZE_LOAD_FACTOR_DEN,
            ),
    {
        let mut buckets: Vec<BucketType> = Vec::with_capacity(count);
        let mut i: usize = 0;
        while i < count
            invariant
                i <= count,
                buckets@.len() == i,
                forall|t: int| 0 <= t < i ==> (#[trigger] buckets@[t]).entries().len() == 0,
                buckets_inv(buckets@),
            decreases count - i,
        {
            buckets.push(BucketType::new_bucket());
            i = i + 1;
        }
        let r = BucketSeperateChainHashMap {
            entries: 0,
            load_factor_max: Ratio::new(DEFAULT_LOAD_FACTOR_MAX_NUM, DEFAULT_LOAD_FACTOR_MAX_DEN),
            resize_load_factor: Ratio::new(
                DEFAULT_RESIZE_LOAD_FACTOR_NUM,
                DEFAULT_RESIZE_LOAD_FACTOR_DEN,
            ),
            buckets,
            model: Ghost(Map::empty()),
        };
        assert(r.wf());
        r
    }

    fn calculate_bucket_index(&self, k: &K) -> (r: usize)
        requires
            self.buckets@.len() > 0,
        ensures
            r as int == bucket_index_of(*k, self.buckets@.len()),
            r < self.buckets@.len(),
    {
        let h = k.digest();
        let n = self.buckets.len() as u64;
        (h % n) as usize
    }

    /// Where `key` is stored: its bucket and, if present, its position there.
    fn locate(&self, key: &K) -> (r: (usize, Option<usize>))
        requires
            self.wf(),
        ensures
            r.0 as int == bucket_index_of(*key, self.buckets@.len()),
            r.0 < self.buckets@.len(),
            match r.1 {
                Some(j) => {
                    &&& j < self.chains()[r.0 as int].len()
                    &&& self.chains()[r.0 as int][j as int].0 == *key
                    &&& self@.contains_key(*key)
                    &&& self@[*key] == self.chains()[r.0 as int][j as int].1
                },
                None => !self@.contains_key(*key),
            },
    {
        let idx = self.calculate_bucket_index(key);
        let pos = bucket_position(&self.buckets[idx], key);
        proof {
            assert(self.chains()[idx as int] == self.buckets@[idx as int].entries());
        }
        (idx, pos)
    }
}

impl<K: BucketKeyReq, V, BucketType: BucketContainerReq<K, V>> Default for BucketSeperateChainHashMap<
    K,
    V,
    BucketType,
> {
    /// An empty map with one bucket and the default thresholds.
    fn default() -> (r: Self)
        ensures
            r.wf(),
            r@ == Map::<K, V>::empty(),
            r.spec_bucket_count() == 1,
            r.spec_load_factor_max() == Ratio::new_spec(
                DEFAULT_LOAD_FACTOR_MAX_NUM,
                DEFAULT_LOAD_FACTOR_MAX_DEN,
            ),
            r.spec_resize_load_factor() == Ratio::new_spec(
                DEFAULT_RESIZE_LOAD_FACTOR_NUM,
                DEFAULT_RESIZE_LOAD_FACTOR_DEN,
            ),
    {
        Self::with_bucket_count(1)
    }
}

impl<K: BucketKeyReq, V, BucketType: BucketContainerReq<K, V>> BucketSeperateChainHashMap<
    K,
    V,
    BucketType,
> {
    /// Creates an empty map: one bucket, load factor maximum 1, resize load
    /// factor 1/2.
    pub fn new() -> (r: Self)
        ensures
            r.wf(),
            r@ == Map::<K, V>::empty(),
            r.spec_bucket_count() == 1,
            r.spec_load_factor_max() == Ratio::new_spec(
                DEFAULT_LOAD_FACTOR_MAX_NUM,
                DEFAULT_LOAD_FACTOR_MAX_DEN,
            ),
            r.spec_resize_load_factor() == Ratio::new_spec(
                DEFAULT_RESIZE_LOAD_FACTOR_NUM,
                DEFAULT_RESIZE_LOAD_FACTOR_DEN,
            ),
    {
        Self::default()
    }

    /// Creates an empty map with `ceil(capacity / 1)` buckets (at least one),
    /// so that `capacity` entries fit under the default load factor maximum.
    pub fn with_capacity(capacity: usize) -> (r: Self)
        ensures
            r.wf(),
            r@ == Map::<K, V>::empty(),
            r.spec_bucket_count() == if capacity == 0 { 1 } else { capacity as nat },
            r.spec_load_factor_max() == Ratio::new_spec(
                DEFAULT_LOAD_FACTOR_MAX_NUM,
                DEFAULT_LOAD_FACTOR_MAX_DEN,
            ),
            r.spec_resize_load_factor() == Ratio::new_spec(
                DEFAULT_RESIZE_LOAD_FACTOR_NUM,
                DEFAULT_RESIZE_LOAD_FACTOR_DEN,
            ),
    {
        let bucket_count = if capacity == 0 {
            1
        } else {
            capacity
        };
        Self::with_bucket_count(bucket_count)
    }

    /// Whether `k` is a key of the map.
    pub fn contains_key(&self, k: &K) -> (r: bool)
        requires
            self.wf(),
        ensures
            r == self@.contains_key(*k),
    {
        let (_, pos) = self.locate(k);
        pos.is_some()
    }

    /// The value stored under `key`, if any.
    pub fn get(&self, key: &K) -> (r: Option<&V>)
        requires
            self.wf(),
        ensures
            r == if self@.contains_key(*key) {
                Some(&self@[*key])
            } else {
                None
            },
    {
        let (idx, pos) = self.locate(key);
        match pos {
            Some(j) => {
                let e = self.buckets[idx].vec_get(j).unwrap();
                Some(&e.1)
            },
            None => None,
        }
    }

    /// The number of entries.
    pub fn len(&self) -> (r: usize)
        requires
            self.wf(),
        ensures
            r == self@.len(),
    {
        self.entries
    }

    /// Whether the map has no entries.
    pub fn is_empty(&self) -> (r: bool)
        requires
            self.wf(),
        ensures
            r == (self@.len() == 0),
    {
        self.entries == 0
    }

    /// The number of buckets.
    pub fn bucket_count(&self) -> (r: usize)
        ensures
            r == self.spec_bucket_count(),
    {
        self.buckets.len()
    }

    /// The number of entries in each bucket, in bucket order.
    pub fn bucket_lens(&self) -> (r: Vec<usize>)
        requires
            self.wf(),
        ensures
            r@.len() == self.spec_bucket_count(),
            forall|i: int| 0 <= i < r@.len() ==> r@[i] == self.chains()[i].len(),
    {
        let mut r: Vec<usize> = Vec::new();
        let mut i: usize = 0;
        while i < self.buckets.len()
            invariant
                self.wf(),
                i <= self.buckets@.len(),
                r@.len() == i,
                forall|t: int| 0 <= t < i ==> r@[t] == self.chains()[t].len(),
            decreases self.buckets@.len() - i,
        {
            r.push(self.buckets[i].len());
            i = i + 1;
        }
        r
    }

    /// The current load factor: entries over buckets.
    pub fn load_factor(&self) -> (r: Ratio)
        requires
            self.wf(),
        ensures
            r.num == self@.len(),
            r.den == self.spec_bucket_count(),
    {
        Ratio::new(self.entries as u64, self.buckets.len() as u64)
    }

    /// The ratio of entries to buckets at which the table grows.
    pub fn load_factor_max(&self) -> (r: Ratio)
        ensures
            r == self.spec_load_factor_max(),
    {
        self.load_factor_max
    }

    /// The ratio of entries to buckets a resize aims for.
    pub fn resize_load_factor(&self) -> (r: Ratio)
        ensures
            r == self.spec_resize_load_factor(),
    {
        self.resize_load_factor
    }

    /// Sets the growth threshold; it takes effect at the next resize decision.
    pub fn set_load_factor_max(&mut self, v: Ratio)
        requires
            old(self).wf(),
            v.is_positive(),
        ensures
            final(self).wf(),
            final(self)@ == old(self)@,
            final(self).spec_bucket_count() == old(self).spec_bucket_count(),
            final(self).spec_load_factor_max() == v,
            final(self).spec_resize_load_factor() == old(self).spec_resize_load_factor(),
    {
        self.load_factor_max = v;
    }

    /// Sets the resize target; it takes effect at the next resize.
    pub fn set_resize_load_factor(&mut self, v: Ratio)
        requires
            old(self).wf(),
            v.is_positive(),
        ensures
            final(self).wf(),
            final(self)@ == old(self)@,
            final(self).spec_bucket_count() == old(self).spec_bucket_count(),
            final(self).spec_load_factor_max() == old(self).spec_load_factor_max(),
            final(self).spec_resize_load_factor() == v,
    {
        self.resize_load_factor = v;
    }

    /// Stores `value` under `key` without consulting the resize policy:
    /// overwrites in place when the key is present, else appends to its
    /// bucket. Returns whether an entry was appended.
    fn insert_entry(&mut self, key: K, value: V) -> (appended: bool)
        requires
            old(self).wf(),
            old(self)@.len() < usize::MAX,
        ensures
            final(self).wf(),
            final(self)@ == old(self)@.insert(key, value),
            appended == !old(self)@.contains_key(key),
            final(self).spec_bucket_count() == old(self).spec_bucket_count(),
            final(self).spec_load_factor_max() == old(self).spec_load_factor_max(),
            final(self).spec_resize_load_factor() == old(self).spec_resize_load_factor(),
    {
        let ghost k = key;
        let ghost v = value;
        let ghost m0 = self.model@;
        let ghost bs0 = self.chains();
        let (idx, pos) = self.locate(&key);
        let ghost s0 = bs0[idx as int];
        match pos {
            Some(j) => {
                proof {
                    assert(self.buckets@[idx as int].inv());
                }
                let b = &mut self.buckets[idx];
                let e = b.vec_get_mut(j);
                e.1 = value;
                self.model = Ghost(m0.insert(k, v));
                proof {
                    let s1 = s0.update(j as int, (k, v));
                    assert(self.chains() =~= bs0.update(idx as int, s1));
                    assert(m0.insert(k, v).len() == m0.len()) by {
                        assert(m0.insert(k, v).dom() =~= m0.dom());
                    }
                    Self::lemma_store_after_update(bs0, m0, idx as int, j as int, k, v);
                }
                false
            },
            None => {
                proof {
                    lemma_chain_len_bounded(bs0, m0, idx as int);
                    assert(self.buckets@[idx as int].inv());
                }
                let b = &mut self.buckets[idx];
                b.vec_push((key, value));
                self.entries = self.entries + 1;
                self.model = Ghost(m0.insert(k, v));
                proof {
                    assert(self.chains() =~= bs0.update(idx as int, s0.push((k, v))));
                    Self::lemma_store_after_push(bs0, m0, idx as int, k, v);
                }
                true
            },
        }
    }

    proof fn lemma_store_after_update(
        bs0: Seq<Seq<(K, V)>>,
        m0: Map<K, V>,
        idx: int,
        j: int,
        k: K,
        v: V,
    )
        requires
            chains_store(bs0, m0),
            0 <= idx < bs0.len(),
            0 <= j < bs0[idx].len(),
            bs0[idx][j].0 == k,
        ensures
            chains_store(bs0.update(idx, bs0[idx].update(j, (k, v))), m0.insert(k, v)),
    {
        let bs1 = bs0.update(idx, bs0[idx].update(j, (k, v)));
        let m1 = m0.insert(k, v);
        assert forall|i: int, t: int| 0 <= i < bs1.len() && 0 <= t < bs1[i].len() implies {
            let e = #[trigger] bs1[i][t];
            &&& bucket_index_of(e.0, bs1.len()) == i
            &&& m1.contains_key(e.0)
            &&& m1[e.0] == e.1
        } by {
            if i == idx && t != j {
                assert(bs0[idx][t].0 != bs0[idx][j].0);
            }
            let e0 = bs0[i][t];
        }
        assert forall|i: int, j1: int, j2: int|
            0 <= i < bs1.len() && 0 <= j1 < bs1[i].len() && 0 <= j2 < bs1[i].len() && (
            #[trigger] bs1[i][j1]).0 == (#[trigger] bs1[i][j2]).0 implies j1 == j2 by {
            let a = bs0[i][j1];
            let b = bs0[i][j2];
        }
        assert forall|key: K| #[trigger] m1.contains_key(key) implies has_key(
            bs1[bucket_index_of(key, bs1.len())],
            key,
        ) by {
            if key == k {
                assert(bs1[idx][j].0 == k);
            } else {
                assert(m0.contains_key(key));
                let w = choose|w: int|
                    0 <= w < bs0[bucket_index_of(key, bs0.len())].len() && (#[trigger] bs0[bucket_index_of(key, bs0.len())][w]).0
                        == key;
                assert(bs1[bucket_index_of(key, bs1.len())][w].0 == key);
            }
        }
    }

    proof fn lemma_store_after_push(bs0: Seq<Seq<(K, V)>>, m0: Map<K, V>, idx: int, k: K, v: V)
        requires
            chains_store(bs0, m0),
            0 <= idx < bs0.len(),
            idx == bucket_index_of(k, bs0.len()),
            !m0.contains_key(k),
        ensures
            chains_store(bs0.update(idx, bs0[idx].push((k, v))), m0.insert(k, v)),
    {
        let bs1 = bs0.update(idx, bs0[idx].push((k, v)));
        let m1 = m0.insert(k, v);
        let n = bs0[idx].len() as int;
        assert forall|i: int, t: int| 0 <= i < bs1.len() && 0 <= t < bs1[i].len() implies {
            let e = #[trigger] bs1[i][t];
            &&& bucket_index_of(e.0, bs1.len()) == i
            &&& m1.contains_key(e.0)
            &&& m1[e.0] == e.1
        } by {
            if i == idx && t == n {
            } else {
                let e0 = bs0[i][t];
            }
        }
        assert forall|i: int, j1: int, j2: int|
            0 <= i < bs1.len() && 0 <= j1 < bs1[i].len() && 0 <= j2 < bs1[i].len() && (
            #[trigger] bs1[i][j1]).0 == (#[trigger] bs1[i][j2]).0 implies j1 == j2 by {
            if j1 < bs0[i].len() {
                let a = bs0[i][j1];
            }
            if j2 < bs0[i].len() {
                let b = bs0[i][j2];
            }
            if j1 < bs0[i].len() && j2 < bs0[i].len() {
                let a = bs0[i][j1];
                let b = bs0[i][j2];
            }
        }
        assert forall|key: K| #[trigger] m1.contains_key(key) implies has_key(
            bs1[bucket_index_of(key, bs1.len())],
            key,
        ) by {
            if key == k {
                assert(bs1[idx][n].0 == k);
            } else {
                assert(m0.contains_key(key));
                let w = choose|w: int|
                    0 <= w < bs0[bucket_index_of(key, bs0.len())].len() && (#[trigger] bs0[bucket_index_of(key, bs0.len())][w]).0
                        == key;
                assert(bs1[bucket_index_of(key, bs1.len())][w].0 == key);
            }
        }
    }

    /// Removes `key` and returns its value, or returns `None` when absent.
    /// Never resizes.
    pub fn remove(&mut self, key: &K) -> (r: Option<V>)
        requires
            old(self).wf(),
        ensures
            final(self).wf(),
            r == if old(self)@.contains_key(*key) {
                Some(old(self)@[*key])
            } else {
                None
            },
            final(self)@ == old(self)@.remove(*key),
            final(self).spec_bucket_count() == old(self).spec_bucket_count(),
            final(self).spec_load_factor_max() == old(self).spec_load_factor_max(),
            final(self).spec_resize_load_factor() == old(self).spec_resize_load_factor(),
    {
        let ghost m0 = self.model@;
        let ghost bs0 = self.chains();
        let (idx, pos) = self.locate(key);
        match pos {
            Some(j) => {
                proof {
                    assert(self.buckets@[idx as int].inv());
                }
                let b = &mut self.buckets[idx];
                let e = b.vec_swap_remove(j);
                self.entries = self.entries - 1;
                self.model = Ghost(m0.remove(*key));
                proof {
                    let s0 = bs0[idx as int];
                    assert(self.chains() =~= bs0.update(
                        idx as int,
                        s0.update(j as int, s0.last()).drop_last(),
                    ));
                    Self::lemma_store_after_swap_remove(bs0, m0, idx as int, j as int);
                }
                Some(e.1)
            },
            None => {
                proof {
                    assert(m0.remove(*key) =~= m0);
                }
                None
            },
        }
    }

    proof fn lemma_store_after_swap_remove(bs0: Seq<Seq<(K, V)>>, m0: Map<K, V>, idx: int, j: int)
        requires
            chains_store(bs0, m0),
            0 <= idx < bs0.len(),
            0 <= j < bs0[idx].len(),
        ensures
            chains_store(
                bs0.update(idx, bs0[idx].update(j, bs0[idx].last()).drop_last()),
                m0.remove(bs0[idx][j].0),
            ),
    {
        let s0 = bs0[idx];
        let k = s0[j].0;
        let last = s0.len() - 1;
        let bs1 = bs0.update(idx, s0.update(j, s0.last()).drop_last());
        let m1 = m0.remove(k);
        // Position `t` of the shrunk bucket holds the entry that sat at `t`, or,
        // for `t == j`, the entry that sat last.
        assert forall|i: int, t: int| 0 <= i < bs1.len() && 0 <= t < bs1[i].len() implies {
            let e = #[trigger] bs1[i][t];
            &&& bucket_index_of(e.0, bs1.len()) == i
            &&& m1.contains_key(e.0)
            &&& m1[e.0] == e.1
        } by {
            if i == idx {
                let src = if t == j {
                    last
                } else {
                    t
                };
                assert(bs1[i][t] == s0[src]);
                let a = bs0[i][src];
                let b = bs0[i][j];
            } else {
                let e0 = bs0[i][t];
            }
        }
        assert forall|i: int, j1: int, j2: int|
            0 <= i < bs1.len() && 0 <= j1 < bs1[i].len() && 0 <= j2 < bs1[i].len() && (
            #[trigger] bs1[i][j1]).0 == (#[trigger] bs1[i][j2]).0 implies j1 == j2 by {
            if i == idx {
                let src1 = if j1 == j {
                    last
                } else {
                    j1
                };
                let src2 = if j2 == j {
                    last
                } else {
                    j2
                };
                let a = bs0[i][src1];
                let b = bs0[i][src2];
            } else {
                let a = bs0[i][j1];
                let b = bs0[i][j2];
            }
        }
        assert forall|key: K| #[trigger] m1.contains_key(key) implies has_key(
            bs1[bucket_index_of(key, bs1.len())],
            key,
        ) by {
            assert(m0.contains_key(key));
            let bi = bucket_index_of(key, bs0.len());
            let w = choose|w: int| 0 <= w < bs0[bi].len() && (#[trigger] bs0[bi][w]).0 == key;
            if bi == idx {
                assert(w != j);
                if w == last {
                    assert(bs1[bi][j].0 == key);
                } else {
                    assert(bs1[bi][w].0 == key);
                }
            } else {
                assert(bs1[bi][w].0 == key);
            }
        }
    }

    /// The resize policy, consulted with a target entry count: when
    /// `target / buckets >= load_factor_max`, rebuilds the table with
    /// `ceil(target / resize_load_factor)` buckets (at least one) and
    /// reinserts every entry; otherwise leaves the table as it is.
    fn resize_to(&mut self, new_entries: usize)
        requires
            old(self).wf(),
        ensures
            final(self).wf(),
            final(self)@ == old(self)@,
            final(self).spec_bucket_count() == bucket_count_after(
                new_entries as nat,
                old(self).spec_bucket_count(),
                old(self).spec_load_factor_max(),
                old(self).spec_resize_load_factor(),
            ),
            final(self).spec_load_factor_max() == old(self).spec_load_factor_max(),
            final(self).spec_resize_load_factor() == old(self).spec_resize_load_factor(),
    {
        let nb = self.buckets.len();
        let max = self.load_factor_max;
        let resize = self.resize_load_factor;
        proof {
            lemma_u64_product_fits(new_entries as u64, max.den);
            lemma_u64_product_fits(max.num, nb as u64);
        }
        if (new_entries as u128) * (max.den as u128) < (max.num as u128) * (nb as u128) {
            return;
        }
        proof {
            lemma_u64_product_fits(new_entries as u64, resize.den);
        }
        let scaled: u128 = (new_entries as u128) * (resize.den as u128);
        let c: u128 = (scaled + (resize.num as u128 - 1)) / (resize.num as u128);
        let new_size: usize = if c == 0 {
            1
        } else if c > usize::MAX as u128 {
            usize::MAX
        } else {
            c as usize
        };
        let mut new_map = Self::with_bucket_count(new_size);
        new_map.load_factor_max = max;
        new_map.resize_load_factor = resize;

        // Drain every bucket into the new table.
        let ghost m0 = self.model@;
        let ghost mut rest = m0;
        let mut i: usize = 0;
        while i < nb
            invariant
                self.buckets@.len() == nb,
                nb > 0,
                i <= nb,
                m0.dom().finite(),
                m0.len() <= usize::MAX,
                rest.dom().finite(),
                chains_store(self.chains(), rest),
                buckets_inv(self.buckets@),
                forall|t: int| 0 <= t < i ==> (#[trigger] self.chains()[t]).len() == 0,
                new_map.wf(),
                new_map.spec_bucket_count() == new_size,
                new_map.spec_load_factor_max() == max,
                new_map.spec_resize_load_factor() == resize,
                new_map@.dom().disjoint(rest.dom()),
                new_map@.union_prefer_right(rest) == m0,
                new_map@.len() + rest.len() == m0.len(),
            decreases nb - i,
        {
            let mut n = self.buckets[i].len();
            while n > 0
                invariant
                    self.buckets@.len() == nb,
                    i < nb,
                    n == self.chains()[i as int].len(),
                    m0.dom().finite(),
                    m0.len() <= usize::MAX,
                    rest.dom().finite(),
                    chains_store(self.chains(), rest),
                    buckets_inv(self.buckets@),
                    forall|t: int| 0 <= t < i ==> (#[trigger] self.chains()[t]).len() == 0,
                    new_map.wf(),
                    new_map.spec_bucket_count() == new_size,
                    new_map.spec_load_factor_max() == max,
                    new_map.spec_resize_load_factor() == resize,
                    new_map@.dom().disjoint(rest.dom()),
                    new_map@.union_prefer_right(rest) == m0,
                    new_map@.len() + rest.len() == m0.len(),
                decreases n,
            {
                let ghost bs = self.chains();
                let ghost rest0 = rest;
                let ghost new0 = new_map@;
                proof {
                    assert(self.buckets@[i as int].inv());
                }
                let b = &mut self.buckets[i];
                let e = b.vec_swap_remove(n - 1);
                n = n - 1;
                proof {
                    let s0 = bs[i as int];
                    assert(self.chains() =~= bs.update(
                        i as int,
                        s0.update(n as int, s0.last()).drop_last(),
                    ));
                    Self::lemma_store_after_swap_remove(bs, rest0, i as int, n as int);
                    assert(bs[i as int][n as int] == e);
                    rest = rest0.remove(e.0);
                    assert(rest0.contains_key(e.0));
                    assert(rest0.len() == rest.len() + 1);
                    assert forall|t: int| 0 <= t < i implies (#[trigger] self.chains()[t]).len()
                        == 0 by {
                        assert(self.chains()[t] == bs[t]);
                    }
                }
                new_map.insert_entry(e.0, e.1);
                proof {
                    assert(new_map@.union_prefer_right(rest) =~= new0.union_prefer_right(rest0));
                    assert(new_map@.dom().disjoint(rest.dom()));
                }
            }
            i = i + 1;
        }
        proof {
            assert(rest.dom() =~= Set::<K>::empty()) by {
                assert forall|k: K| !rest.contains_key(k) by {
                    if rest.contains_key(k) {
                        let bi = bucket_index_of(k, nb as nat);
                        let w = choose|w: int|
                            0 <= w < self.chains()[bi].len() && (#[trigger] self.chains()[bi][w]).0
                                == k;
                        assert(self.chains()[bi].len() == 0);
                    }
                }
            }
            assert(new_map@ =~= m0);
        }
        *self = new_map;
    }

    /// Stores `value` under `key`. A present key has its value overwritten in
    /// place and the entry count is unchanged; a new key is appended to its
    /// bucket, after which the resize policy is consulted with the new count.
    pub fn insert(&mut self, key: K, value: V)
        requires
            old(self).wf(),
            old(self)@.len() < usize::MAX,
        ensures
            final(self).wf(),
            final(self)@ == old(self)@.insert(key, value),
            final(self).spec_bucket_count() == if old(self)@.contains_key(key) {
                old(self).spec_bucket_count()
            } else {
                bucket_count_after(
                    old(self)@.len() + 1,
                    old(self).spec_bucket_count(),
                    old(self).spec_load_factor_max(),
                    old(self).spec_resize_load_factor(),
                )
            },
            final(self).spec_load_factor_max() == old(self).spec_load_factor_max(),
            final(self).spec_resize_load_factor() == old(self).spec_resize_load_factor(),
    {
        let appended = self.insert_entry(key, value);
        if appended {
            self.resize_to(self.entries);
        }
    }

    /// Applies `ops` in order, as `insert` and `remove` calls. The result
    /// is the reference map obtained by applying the same operations to the
    /// starting contents.
    pub fn apply_ops(&mut self, ops: Vec<MapOp<K, V>>)
        requires
            old(self).wf(),
            old(self)@.len() + ops@.len() <= usize::MAX,
        ensures
            final(self).wf(),
            final(self)@ == reference_apply(old(self)@, ops@),
    {
        let ghost m0 = self@;
        let ghost s = ops@;
        for op in it: ops
            invariant
                self.wf(),
                it.seq() == s,
                self@ == reference_apply(m0, s.take(it.index() as int)),
                self@.len() <= m0.len() + it.index(),
                m0.len() + s.len() <= usize::MAX,
        {
            proof {
                let t = s.take(it.index() as int + 1);
                assert(t.drop_last() =~= s.take(it.index() as int));
                assert(t.last() == op);
            }
            match op {
                MapOp::Insert(k, v) => {
                    self.insert(k, v);
                },
                MapOp::Remove(k) => {
                    self.remove(&k);
                },
            }
        }
        proof {
            assert(s.take(s.len() as int) =~= s);
        }
    }

    /// Consults the resize policy as if `additional` more entries were
    /// present, growing ahead of need.
    pub fn reserve(&mut self, additional: usize)
        requires
            old(self).wf(),
            old(self)@.len() + additional <= usize::MAX,
        ensures
            final(self).wf(),
            final(self)@ == old(self)@,
            final(self).spec_bucket_count() == bucket_count_after(
                old(self)@.len() + additional as nat,
                old(self).spec_bucket_count(),
                old(self).spec_load_factor_max(),
                old(self).spec_resize_load_factor(),
            ),
            final(self).spec_load_factor_max() == old(self).spec_load_factor_max(),
            final(self).spec_resize_load_factor() == old(self).spec_resize_load_factor(),
    {
        self.resize_to(self.entries + additional);
    }

    /// Consults the resize policy with `max(len, min_capacity)`. The policy
    /// only ever grows the table, so this shrinks nothing: it rebuilds only
    /// when that target already reaches the load factor maximum.
    pub fn shrink_to(&mut self, min_capacity: usize)
        requires
            old(self).wf(),
        ensures
            final(self).wf(),
            final(self)@ == old(self)@,
            final(self).spec_bucket_count() == bucket_count_after(
                if old(self)@.len() >= min_capacity {
                    old(self)@.len()
                } else {
                    min_capacity as nat
                },
                old(self).spec_bucket_count(),
                old(self).spec_load_factor_max(),
                old(self).spec_resize_load_factor(),
            ),
            final(self).spec_load_factor_max() == old(self).spec_load_factor_max(),
            final(self).spec_resize_load_factor() == old(self).spec_resize_load_factor(),
    {
        let at_least = if self.entries >= min_capacity {
            self.entries
        } else {
            min_capacity
        };
        self.resize_to(at_least);
    }

    /// Consults the resize policy with the current entry count; like
    /// `shrink_to`, this never makes the table smaller.
    pub fn shrink_to_fit(&mut self)
        requires
            old(self).wf(),
        ensures
            final(self).wf(),
            final(self)@ == old(self)@,
            final(self).spec_bucket_count() == bucket_count_after(
                old(self)@.len(),
                old(self).spec_bucket_count(),
                old(self).spec_load_factor_max(),
                old(self).spec_resize_load_factor(),
            ),
            final(self).spec_load_factor_max() == old(self).spec_load_factor_max(),
            final(self).spec_resize_load_factor() == old(self).spec_resize_load_factor(),
    {
        self.resize_to(self.entries);
    }
}

/// The value stored under `k` in chains `bs`, read at the first position of
/// its bucket that holds `k`.
spec fn chain_value<K: BucketKeyReq, V>(bs: Seq<Seq<(K, V)>>, k: K) -> V {
    let s = bs[bucket_index_of(k, bs.len())];
    s[choose|j: int| 0 <= j < s.len() && (#[trigger] s[j]).0 == k].1
}

impl<K: BucketKeyReq + Copy, V: Clone, BucketType: BucketContainerReq<K, V>> Clone for BucketSeperateChainHashMap<
    K,
    V,
    BucketType,
> {
    /// A deep copy: the same bucket layout and keys, each value cloned.
    fn clone(&self) -> (r: Self)
        ensures
            self.wf() ==> {
                &&& r.wf()
                &&& r@.dom() == self@.dom()
                &&& forall|k: K| #[trigger] self@.contains_key(k) ==> cloned::<V>(self@[k], r@[k])
                &&& r.spec_bucket_count() == self.spec_bucket_count()
                &&& r.spec_load_factor_max() == self.spec_load_factor_max()
                &&& r.spec_resize_load_factor() == self.spec_resize_load_factor()
            },
    {
        let nb = self.buckets.len();
        let mut buckets: Vec<BucketType> = Vec::with_capacity(nb);
        let mut i: usize = 0;
        while i < nb
            invariant
                nb == self.buckets@.len(),
                i <= nb,
                buckets@.len() == i,
                self.wf() ==> buckets_inv(buckets@),
                forall|t: int, j: int|
                    self.wf() && 0 <= t < i && 0 <= j < self.chains()[t].len() ==> (#[trigger] buckets@[t].entries()[j]).0
                        == self.chains()[t][j].0 && cloned::<V>(
                        self.chains()[t][j].1,
                        buckets@[t].entries()[j].1,
                    ),
                forall|t: int|
                    self.wf() && 0 <= t < i ==> (#[trigger] buckets@[t]).entries().len()
                        == self.chains()[t].len(),
            decreases nb - i,
        {
            let b = self.buckets[i].clone_bucket();
            buckets.push(b);
            i = i + 1;
        }
        let ghost m = self.model@;
        let ghost cs = buckets@.map_values(|b: BucketType| b.entries());
        let ghost m1 = Map::new(|k: K| m.contains_key(k), |k: K| chain_value(cs, k));
        let r = BucketSeperateChainHashMap {
            entries: self.entries,
            load_factor_max: self.load_factor_max,
            resize_load_factor: self.resize_load_factor,
            buckets,
            model: Ghost(m1),
        };
        proof {
            if self.wf() {
                let bs = self.chains();
                assert(r.chains() =~= cs);
                assert(m1.dom() =~= m.dom());
                assert forall|i: int, j: int| 0 <= i < cs.len() && 0 <= j < cs[i].len() implies {
                    let e = #[trigger] cs[i][j];
                    &&& bucket_index_of(e.0, cs.len()) == i
                    &&& m1.contains_key(e.0)
                    &&& m1[e.0] == e.1
                } by {
                    let e0 = bs[i][j];
                    let e = cs[i][j];
                    let w = choose|w: int| 0 <= w < cs[i].len() && (#[trigger] cs[i][w]).0 == e.0;
                    let e1 = bs[i][w];
                }
                assert forall|i: int, j1: int, j2: int|
                    0 <= i < cs.len() && 0 <= j1 < cs[i].len() && 0 <= j2 < cs[i].len() && (
                    #[trigger] cs[i][j1]).0 == (#[trigger] cs[i][j2]).0 implies j1 == j2 by {
                    let a = bs[i][j1];
                    let b = bs[i][j2];
                }
                assert forall|k: K| #[trigger] m1.contains_key(k) implies has_key(
                    cs[bucket_index_of(k, cs.len())],
                    k,
                ) by {
                    let bi = bucket_index_of(k, bs.len());
                    let w = choose|w: int| 0 <= w < bs[bi].len() && (#[trigger] bs[bi][w]).0 == k;
                    assert(cs[bi][w].0 == k);
                }
                assert forall|k: K| #[trigger] m.contains_key(k) implies cloned::<V>(m[k], m1[k]) by {
                    let bi = bucket_index_of(k, bs.len());
                    let w = choose|w: int| 0 <= w < bs[bi].len() && (#[trigger] bs[bi][w]).0 == k;
                    assert(cs[bi][w].0 == k);
                    assert(m1[k] == cs[bi][w].1);
                }
            }
        }
        r
    }
}

proof fn lemma_u64_product_fits(a: u64, b: u64)
    ensures
        (a as int) * (b as int) + u64::MAX <= u128::MAX,
{
    assert((a as int) * (b as int) <= (u64::MAX as int) * (u64::MAX as int)) by (nonlinear_arith)
        requires
            a <= u64::MAX,
            b <= u64::MAX,
    ;
}

} // verus!
