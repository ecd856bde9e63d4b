use hashmap_from_scratch::{
    BucketContainerReq, BucketInterface, BucketKeyReq, HashmapChainSmallVec, HashmapChainVec,
    InlineBucket, MapOp, Ratio,
};
use rand::Rng;

#[test]
fn overwrite_keeps_len_and_takes_second_value() {
    let mut h = HashmapChainVec::<u64, u64>::new();
    h.insert(7, 1);
    assert_eq!(h.len(), 1);
    h.insert(7, 2);
    assert_eq!(h.len(), 1);
    assert_eq!(h.get(&7), Some(&2));
}

#[test]
fn remove_right_after_insert_restores() {
    let mut h = HashmapChainVec::<u64, u64>::new();
    for i in 0..10 {
        h.insert(i, i * 10);
    }
    let before = h.len();
    h.insert(99, 5);
    assert_eq!(h.remove(&99), Some(5));
    assert!(!h.contains_key(&99));
    assert_eq!(h.len(), before);
}

#[test]
fn missing_key_gives_empty_results() {
    let mut h = HashmapChainVec::<u64, u64>::new();
    assert!(h.is_empty());
    assert_eq!(h.get(&1), None);
    assert!(!h.contains_key(&1));
    assert_eq!(h.remove(&1), None);
    assert_eq!(h.len(), 0);
}

#[test]
fn defaults_and_first_resize() {
    let mut h = HashmapChainVec::<u64, u64>::new();
    assert_eq!(h.bucket_count(), 1);
    assert_eq!(h.load_factor_max(), Ratio::new(1, 1));
    assert_eq!(h.resize_load_factor(), Ratio::new(1, 2));
    h.insert(1, 1);
    // 1 entry over 1 bucket reaches the maximum: ceil(1 / (1/2)) = 2 buckets.
    assert_eq!(h.bucket_count(), 2);
    assert_eq!(h.load_factor(), Ratio::new(1, 2));
    h.insert(2, 2);
    // 2 / 2 reaches the maximum again: ceil(2 / (1/2)) = 4 buckets.
    assert_eq!(h.bucket_count(), 4);
    h.insert(3, 3);
    assert_eq!(h.bucket_count(), 4);
}

#[test]
fn rehash_preserves_entries_and_load_bound() {
    let mut h = HashmapChainVec::<u64, u64>::new();
    let mut resizes = 0;
    for i in 0..200u64 {
        let before = h.bucket_count();
        h.insert(i, i + 1000);
        if h.bucket_count() != before {
            resizes += 1;
            let entries = h.len() as u64;
            let r = h.resize_load_factor();
            let ceil = (entries * r.den + r.num - 1) / r.num;
            assert_eq!(h.bucket_count() as u64, ceil);
            let lf = h.load_factor();
            assert!(lf.num * ceil <= entries * lf.den);
            for j in 0..=i {
                assert_eq!(h.get(&j), Some(&(j + 1000)));
            }
        }
    }
    assert!(resizes > 0);
}

#[test]
fn scenario_new_then_34_keys() {
    let mut h = HashmapChainVec::<u64, u64>::new();
    for i in 0..=33u64 {
        h.insert(i, i);
    }
    assert_eq!(h.len(), 34);
    for i in 0..=33u64 {
        assert!(h.contains_key(&i));
    }
    assert!(h.bucket_count() > 1);
}

#[test]
fn scenario_with_capacity_1000() {
    let mut h = HashmapChainVec::<u64, u64>::with_capacity(1000);
    assert_eq!(h.bucket_count(), 1000);
    for i in 0..999u64 {
        h.insert(i, i);
    }
    assert_eq!(h.bucket_count(), 1000);
    h.insert(999, 999);
    assert_eq!(h.len(), 1000);
    let lf = h.load_factor();
    assert!(lf.num <= lf.den);
    assert!((lf.num as f64) / (lf.den as f64) <= 1.0);
    for i in 0..1000u64 {
        assert_eq!(h.remove(&i), Some(i));
    }
    assert!(h.is_empty());
}

#[test]
fn with_capacity_zero_has_one_bucket() {
    let mut h = HashmapChainVec::<u64, u64>::with_capacity(0);
    assert_eq!(h.bucket_count(), 1);
    h.insert(5, 6);
    assert_eq!(h.get(&5), Some(&6));
}

#[test]
fn reserve_grows_ahead_of_need() {
    let mut h = HashmapChainVec::<u64, u64>::with_capacity(10);
    h.reserve(9);
    assert_eq!(h.bucket_count(), 10);
    h.reserve(10);
    assert_eq!(h.bucket_count(), 20);
    assert!(h.is_empty());
}

#[test]
fn shrink_is_a_no_op_below_the_threshold() {
    let mut h = HashmapChainVec::<u64, u64>::with_capacity(100);
    h.insert(1, 1);
    h.shrink_to_fit();
    assert_eq!(h.bucket_count(), 100);
    h.shrink_to(5);
    assert_eq!(h.bucket_count(), 100);
    // A target at the threshold does rebuild: ceil(100 / (1/2)) = 200.
    h.shrink_to(100);
    assert_eq!(h.bucket_count(), 200);
    assert_eq!(h.get(&1), Some(&1));
}

#[test]
fn custom_thresholds_take_effect_at_next_decision() {
    let mut h = HashmapChainVec::<u64, u64>::with_capacity(4);
    h.set_load_factor_max(Ratio::new(3, 4));
    assert_eq!(h.bucket_count(), 4);
    h.insert(1, 1);
    h.insert(2, 2);
    assert_eq!(h.bucket_count(), 4);
    h.insert(3, 3);
    // 3 / 4 reaches 3/4: ceil(3 / (1/2)) = 6.
    assert_eq!(h.bucket_count(), 6);

    let mut g = HashmapChainVec::<u64, u64>::new();
    g.set_resize_load_factor(Ratio::new(1, 4));
    g.insert(1, 1);
    assert_eq!(g.bucket_count(), 4);
    assert_eq!(g.resize_load_factor(), Ratio::new(1, 4));
    assert_eq!(g.load_factor_max(), Ratio::new(1, 1));
}

#[test]
fn clone_is_deep() {
    let mut h = HashmapChainSmallVec::<u64, String>::new();
    for i in 0..20u64 {
        h.insert(i, format!("v{}", i));
    }
    let z = h.clone();
    h.insert(3, String::from("changed"));
    h.remove(&4);
    assert_eq!(z.len(), 20);
    assert_eq!(z.get(&3), Some(&String::from("v3")));
    assert_eq!(z.get(&4), Some(&String::from("v4")));
    assert_eq!(z.bucket_count(), h.bucket_count());
    assert_eq!(h.get(&3), Some(&String::from("changed")));
}

#[test]
fn small_vec_variant_matches_reference() {
    let mut rng = rand::thread_rng();
    let mut h = HashmapChainSmallVec::<u64, u64>::new();
    let mut r = std::collections::HashMap::<u64, u64>::new();
    for _ in 0..10000 {
        let k: u64 = rng.gen_range(0..2000);
        if rng.gen::<bool>() {
            let v: u64 = rng.gen();
            h.insert(k, v);
            r.insert(k, v);
        } else {
            assert_eq!(h.remove(&k), r.remove(&k));
        }
        assert_eq!(h.contains_key(&k), r.contains_key(&k));
        assert_eq!(h.len(), r.len());
    }
    for (k, v) in r.iter() {
        assert_eq!(h.get(k), Some(v));
    }
}

#[test]
fn apply_ops_matches_reference() {
    let mut h = HashmapChainVec::<u32, u32>::new();
    let mut r = std::collections::HashMap::<u32, u32>::new();
    let mut ops = Vec::new();
    for i in 0..300u32 {
        let k = (i * 7) % 50;
        if i % 3 == 2 {
            ops.push(MapOp::Remove(k));
            r.remove(&k);
        } else {
            ops.push(MapOp::Insert(k, i));
            r.insert(k, i);
        }
    }
    h.apply_ops(ops);
    assert_eq!(h.len(), r.len());
    for k in 0..50u32 {
        assert_eq!(h.get(&k), r.get(&k));
        assert_eq!(h.contains_key(&k), r.contains_key(&k));
    }
}

#[test]
fn usize_keys() {
    let mut h = HashmapChainSmallVec::<usize, u8>::new();
    for i in 0..100usize {
        h.insert(i, (i % 256) as u8);
    }
    assert_eq!(h.len(), 100);
    assert_eq!(h.get(&42), Some(&42));
    assert_eq!(h.bucket_lens().iter().sum::<usize>(), 100);
    assert_eq!(h.bucket_lens().len(), h.bucket_count());
}

#[test]
fn digest_is_deterministic_and_spreads() {
    assert_eq!(5u64.digest(), 5u64.digest());
    assert_ne!(5u64.digest(), 6u64.digest());
    assert_ne!(5u64.digest(), 5u64);
    assert_eq!(9u32.digest(), 9u32.digest());
    assert_eq!(9usize.digest(), 9u64.digest());
    assert!(3u64.key_eq(&3));
    assert!(!3u64.key_eq(&4));
}

#[test]
fn inline_bucket_spills_and_swap_removes() {
    let mut b = <InlineBucket<u64, u64> as BucketContainerReq<u64, u64>>::new_bucket();
    for i in 0..5u64 {
        b.vec_push((i, i * 10));
    }
    assert_eq!(BucketInterface::len(&b), 5);
    assert_eq!(b.vec_get(0), Some(&(0, 0)));
    assert_eq!(b.vec_get(4), Some(&(4, 40)));
    assert_eq!(b.vec_get(5), None);
    b.vec_get_mut(1).1 = 11;
    assert_eq!(b.vec_get(1), Some(&(1, 11)));
    // Removing an inline entry pulls the last spilled entry inline.
    assert_eq!(b.vec_swap_remove(0), (0, 0));
    assert_eq!(b.vec_get(0), Some(&(4, 40)));
    assert_eq!(BucketInterface::len(&b), 4);
    assert_eq!(b.vec_swap_remove(3), (3, 30));
    assert_eq!(b.vec_swap_remove(2), (2, 20));
    assert_eq!(b.vec_swap_remove(0), (4, 40));
    assert_eq!(b.vec_get(0), Some(&(1, 11)));
    assert_eq!(b.vec_swap_remove(0), (1, 11));
    assert_eq!(BucketInterface::len(&b), 0);
    assert_eq!(b.vec_get(0), None);
}
