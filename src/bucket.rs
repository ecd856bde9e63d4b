use vstd::prelude::*;

verus! {

/// The capability set of a bucket: an unordered sequence of key/value
/// entries that can be measured, read and written by position, appended to,
/// and shrunk by swap-removal.
pub trait BucketInterface<K, V>: Sized {
    /// The entries, in storage order.
    spec fn entries(&self) -> Seq<(K, V)>;

    /// The representation invariant of the storage.
    spec fn inv(&self) -> bool;

    fn len(&self) -> (r: usize)
        requires
            self.inv(),
        ensures
            r == self.entries().len(),
    ;

    fn vec_get(&self, index: usize) -> (r: Option<&(K, V)>)
        requires
            self.inv(),
        ensures
            index < self.entries().len() ==> r == Some(&self.entries()[index as int]),
            index >= self.entries().len() ==> r is None,
    ;

    /// Mutable access to the entry at `index`.
    fn vec_get_mut(&mut self, index: usize) -> (r: &mut (K, V))
        requires
            old(self).inv(),
            index < old(self).entries().len(),
        ensures
            *r == old(self).entries()[index as int],
            final(self).inv(),
            final(self).entries() == old(self).entries().update(index as int, *final(r)),
    ;

    fn vec_push(&mut self, value: (K, V))
        requires
            old(self).inv(),
            old(self).entries().len() < usize::MAX,
        ensures
            final(self).inv(),
            final(self).entries() == old(self).entries().push(value),
    ;

    /// Removes the entry at `position`; the last entry takes its place.
    fn vec_swap_remove(&mut self, position: usize) -> (r: (K, V))
        requires
            old(self).inv(),
            position < old(self).entries().len(),
        ensures
            r == old(self).entries()[position as int],
            final(self).inv(),
            final(self).entries() == old(self).entries().update(
                position as int,
                old(self).entries().last(),
            ).drop_last(),
    ;
}

/// A bucket type the map can create: the capability set plus an empty
/// constructor.
pub trait BucketContainerReq<K, V>: BucketInterface<K, V> {
    fn new_bucket() -> (r: Self)
        ensures
            r.inv(),
            r.entries() == Seq::<(K, V)>::empty(),
    ;

    /// A copy with the same keys at the same positions and each value
    /// cloned; meaningful for storage whose invariant holds.
    fn clone_bucket(&self) -> (r: Self) where K: Copy, V: Clone
        ensures
            self.inv() ==> {
                &&& r.inv()
                &&& r.entries().len() == self.entries().len()
                &&& forall|j: int|
                    0 <= j < self.entries().len() ==> (#[trigger] r.entries()[j]).0
                        == self.entries()[j].0 && cloned::<V>(self.entries()[j].1, r.entries()[j].1)
            },
    ;
}

impl<K, V> BucketInterface<K, V> for Vec<(K, V)> {
    open spec fn entries(&self) -> Seq<(K, V)> {
        self@
    }

    open spec fn inv(&self) -> bool {
        true
    }

    fn len(&self) -> (r: usize) {
        Vec::len(self)
    }

    fn vec_get(&self, index: usize) -> (r: Option<&(K, V)>) {
        if index < Vec::len(self) {
            Some(&self[index])
        } else {
            None
        }
    }

    fn vec_get_mut(&mut self, index: usize) -> (r: &mut (K, V)) {
        &mut self[index]
    }

    fn vec_push(&mut self, value: (K, V)) {
        self.push(value);
    }

    fn vec_swap_remove(&mut self, position: usize) -> (r: (K, V)) {
        self.swap_remove(position)
    }
}

impl<K, V> BucketContainerReq<K, V> for Vec<(K, V)> {
    fn new_bucket() -> (r: Self) {
        Vec::new()
    }

    fn clone_bucket(&self) -> (r: Self) where K: Copy, V: Clone {
        clone_entries(self)
    }
}

/// Copies `v` entry by entry, cloning each value.
fn clone_entries<K: Copy, V: Clone>(v: &Vec<(K, V)>) -> (r: Vec<(K, V)>)
    ensures
        r@.len() == v@.len(),
        forall|j: int|
            0 <= j < v@.len() ==> (#[trigger] r@[j]).0 == v@[j].0 && cloned::<V>(v@[j].1, r@[j].1),
{
    let mut r: Vec<(K, V)> = Vec::with_capacity(v.len());
    let mut j: usize = 0;
    while j < v.len()
        invariant
            j <= v@.len(),
            r@.len() == j,
            forall|t: int|
                0 <= t < j ==> (#[trigger] r@[t]).0 == v@[t].0 && cloned::<V>(v@[t].1, r@[t].1),
        decreases v@.len() - j,
    {
        let e = &v[j];
        r.push((e.0, e.1.clone()));
        j = j + 1;
    }
    r
}

/// Copies an inline slot, cloning the value it holds.
fn clone_slot<K: Copy, V: Clone>(slot: &Option<(K, V)>) -> (r: Option<(K, V)>)
    ensures
        r is Some <==> slot is Some,
        slot is Some ==> r->Some_0.0 == slot->Some_0.0 && cloned::<V>(slot->Some_0.1, r->Some_0.1),
{
    match slot {
        Some(e) => Some((e.0, e.1.clone())),
        None => None,
    }
}

/// How many entries an `InlineBucket` holds without allocating.
pub const INLINE_CAPACITY: usize = 2;

/// A bucket that keeps its first `INLINE_CAPACITY` entries inline and only
/// allocates once more arrive.
pub struct InlineBucket<K, V> {
    inline: [Option<(K, V)>; INLINE_CAPACITY],
    inline_len: usize,
    spill: Vec<(K, V)>,
}

impl<K, V> InlineBucket<K, V> {
    /// The occupied inline slots, in order.
    closed spec fn inline_entries(&self) -> Seq<(K, V)> {
        Seq::new(self.inline_len as nat, |i: int| self.inline@[i]->Some_0)
    }
}

impl<K, V> BucketInterface<K, V> for InlineBucket<K, V> {
    closed spec fn entries(&self) -> Seq<(K, V)> {
        self.inline_entries() + self.spill@
    }

    /// The first `inline_len` slots are occupied and the rest empty; the
    /// spill vector is used only once the inline slots are full.
    closed spec fn inv(&self) -> bool {
        &&& self.inline_len <= INLINE_CAPACITY
        &&& forall|i: int| 0 <= i < INLINE_CAPACITY ==> (#[trigger] self.inline@[i] is Some <==> i
            < self.inline_len)
        &&& self.spill@.len() > 0 ==> self.inline_len == INLINE_CAPACITY
        &&& self.inline_len + self.spill@.len() <= usize::MAX
    }

    fn len(&self) -> (r: usize) {
        self.inline_len + self.spill.len()
    }

    fn vec_get(&self, index: usize) -> (r: Option<&(K, V)>) {
        if index < self.inline_len {
            self.inline[index].as_ref()
        } else if index - self.inline_len < self.spill.len() {
            Some(&self.spill[index - self.inline_len])
        } else {
            None
        }
    }

    fn vec_get_mut(&mut self, index: usize) -> (r: &mut (K, V)) {
        if index < self.inline_len {
            self.inline[index].as_mut().unwrap()
        } else {
            &mut self.spill[index - self.inline_len]
        }
    }

    fn vec_push(&mut self, value: (K, V)) {
        if self.inline_len < INLINE_CAPACITY {
            self.inline[self.inline_len] = Some(value);
            self.inline_len = self.inline_len + 1;
        } else {
            self.spill.push(value);
        }
    }

    fn vec_swap_remove(&mut self, position: usize) -> (r: (K, V)) {
        if position >= self.inline_len {
            self.spill.swap_remove(position - self.inline_len)
        } else if self.spill.len() > 0 {
            let last = self.spill.pop();
            let out = self.inline[position].take();
            self.inline[position] = last;
            out.unwrap()
        } else {
            let last_index = self.inline_len - 1;
            let last = self.inline[last_index].take();
            self.inline_len = last_index;
            if position == last_index {
                last.unwrap()
            } else {
                let out = self.inline[position].take();
                self.inline[position] = last;
                out.unwrap()
            }
        }
    }
}

impl<K, V> BucketContainerReq<K, V> for InlineBucket<K, V> {
    fn new_bucket() -> (r: Self) {
        let r = InlineBucket { inline: [None, None], inline_len: 0, spill: Vec::new() };
        assert(r.entries() =~= Seq::<(K, V)>::empty());
        r
    }

    fn clone_bucket(&self) -> (r: Self) where K: Copy, V: Clone {
        let first = clone_slot(&self.inline[0]);
        let second = clone_slot(&self.inline[1]);
        let r = InlineBucket {
            inline: [first, second],
            inline_len: self.inline_len,
            spill: clone_entries(&self.spill),
        };
        proof {
            if self.inv() {
                assert forall|j: int| 0 <= j < self.entries().len() implies (#[trigger] r.entries()[j]).0
                    == self.entries()[j].0 && cloned::<V>(
                    self.entries()[j].1,
                    r.entries()[j].1,
                ) by {
                    if j >= self.inline_len {
                        let t = j - self.inline_len;
                        assert(r.entries()[j] == r.spill@[t]);
                        assert(self.entries()[j] == self.spill@[t]);
                    }
                }
            }
        }
        r
    }
}

} // verus!
