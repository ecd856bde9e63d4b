use std::hash::Hasher;
use std::collections::hash_map::DefaultHasher;
use vstd::prelude::*;
use vstd::bytes::{spec_u32_to_le_bytes, spec_u64_to_le_bytes, u32_to_le_bytes, u64_to_le_bytes};
use vstd::std_specs::hash::DefaultHasherAdditionalSpecFns;

verus! {

/// What a key of the map must offer: a deterministic 64-bit digest and an
/// equality test that agrees with mathematical equality.
pub trait BucketKeyReq: Sized {
    /// The digest of the key; a function of the key alone.
    spec fn spec_digest(&self) -> u64;

    fn digest(&self) -> (r: u64)
        ensures
            r == self.spec_digest(),
    ;

    fn key_eq(&self, other: &Self) -> (r: bool)
        ensures
            r <==> *self == *other,
    ;
}

/// std's `DefaultHasher` (fixed keys) fed with the given bytes in one write.
pub open spec fn default_digest(bytes: Seq<u8>) -> u64 {
    DefaultHasher::spec_finish(seq![bytes])
}

fn digest_bytes(bytes: &Vec<u8>) -> (r: u64)
    ensures
        r == default_digest(bytes@),
{
    let mut hasher = DefaultHasher::new();
    hasher.write(bytes.as_slice());
    hasher.finish()
}

impl BucketKeyReq for u64 {
    open spec fn spec_digest(&self) -> u64 {
        default_digest(spec_u64_to_le_bytes(*self))
    }

    fn digest(&self) -> (r: u64) {
        let bytes = u64_to_le_bytes(*self);
        digest_bytes(&bytes)
    }

    fn key_eq(&self, other: &Self) -> (r: bool) {
        *self == *other
    }
}

impl BucketKeyReq for u32 {
    open spec fn spec_digest(&self) -> u64 {
        default_digest(spec_u32_to_le_bytes(*self))
    }

    fn digest(&self) -> (r: u64) {
        let bytes = u32_to_le_bytes(*self);
        digest_bytes(&bytes)
    }

    fn key_eq(&self, other: &Self) -> (r: bool) {
        *self == *other
    }
}

/// A `usize` is digested as the eight bytes of its `u64` value.
impl BucketKeyReq for usize {
    open spec fn spec_digest(&self) -> u64 {
        default_digest(spec_u64_to_le_bytes(*self as u64))
    }

    fn digest(&self) -> (r: u64) {
        let bytes = u64_to_le_bytes(*self as u64);
        digest_bytes(&bytes)
    }

    fn key_eq(&self, other: &Self) -> (r: bool) {
        *self == *other
    }
}

} // verus!
