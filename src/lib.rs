//! A separate-chaining hash map whose bucket storage is pluggable, verified
//! against a mathematical map model.

mod bucket;
mod bucket_separate_chain;
mod key;
mod laws;
mod ratio;

pub use bucket::{BucketContainerReq, BucketInterface, InlineBucket, INLINE_CAPACITY};
pub use bucket_separate_chain::{
    BucketHashmap, BucketSeperateChainHashMap, HashmapChainSmallVec, HashmapChainVec, MapOp,
};
pub use key::BucketKeyReq;
pub use laws::{law_idempotent_overwrite, law_rehash_load_factor, law_remove_inverts_insert};
pub use ratio::Ratio;
