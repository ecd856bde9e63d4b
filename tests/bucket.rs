use hashmap_from_scratch::BucketHashmap;
use rand::Rng;

#[test]
fn test_bucket_insert() {
    let mut h = BucketHashmap::<u64, u64>::new();
    h.insert(300, 3);
    h.insert(500, 8);
    assert!(h.contains_key(&300));
    assert!(h.contains_key(&500));
    assert!(!h.contains_key(&8));
    for i in 0..32 {
        h.insert(i, i);
        println!("h size: {}", h.len());
    }
    assert_eq!(h.len(), 34);
    assert!(h.remove(&300).is_some());
    assert!(h.remove(&300).is_none());
    assert_eq!(h.len(), 33);
    assert!(!h.contains_key(&300));

    let z = h.clone();
    assert!(!z.contains_key(&300));
    assert_eq!(z.len(), 33);

    struct NonClone {}
    let non_clonable = BucketHashmap::<u64, NonClone>::new();
    let _ = non_clonable;
}

#[test]
fn bucket_test_fuzz() {
    let mut rng = rand::thread_rng();
    let mut h = BucketHashmap::<u64, u64>::new();
    let mut r = std::collections::HashMap::<u64, u64>::new();

    // Insert 10000 into both.
    for _ in 0..10000 {
        let k: u64 = rng.gen();
        let v: u64 = rng.gen();
        h.insert(k, v);
        r.insert(k, v);
        assert!(h.contains_key(&k));
        assert!(r.contains_key(&k));
        assert_eq!(r.len(), h.len());
    }

    for _ in 0..10000 {
        let to_add: bool = rng.gen();
        if to_add {
            let k: u64 = rng.gen();
            let v: u64 = rng.gen();
            h.insert(k, v);
            r.insert(k, v);
            assert!(h.contains_key(&k));
            assert!(r.contains_key(&k));
            assert_eq!(r.len(), h.len());
        } else {
            // Find a value from the reference hashmap.
            let i = rng.gen_range(0..r.len());
            let k = *r.keys().skip(i).next().unwrap();
            let r_v = r.remove(&k);
            let h_v = h.remove(&k);
            assert_eq!(r_v, h_v);
            assert!(!h.contains_key(&k));
            assert!(!r.contains_key(&k));
            assert_eq!(r.len(), h.len());
        }
    }

    // Verify that the hashmaps contain equal things.
    for (k, v) in r.iter() {
        if let Some(hv) = h.get(k) {
            assert_eq!(*v, *hv);
        } else {
            assert!(false);
        }
    }
}
