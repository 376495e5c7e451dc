use bloom::dynamic::{DynamicBloom, FilterError};

fn item(a: u32) -> [u8; 4] {
    a.to_le_bytes()
}

#[test]
fn dynamic_insert_and_get() {
    let mut f = DynamicBloom::new(16, 50_000);
    f.add(&item(42));
    assert!(f.get(&item(42)));
}

#[test]
fn expect_resize() {
    let mut f = DynamicBloom::new(16, 50_000);
    assert_eq!(f.len(), 1);
    for i in 0..17 {
        f.add(&item(i));
    }
    assert_eq!(f.len(), 2);
}

#[test]
fn dynamic_insert_and_get_after_resize() {
    let mut f = DynamicBloom::new(16, 50_000);
    for i in 0..17 {
        f.add(&item(i));
    }
    assert!(f.get(&item(16)));
    // the second partition also answers
    f.add(&item(77));
    assert!(f.get(&item(77)));
    assert!(f.partitions()[1].get(&item(77)));
}

#[test]
fn extend() {
    let mut a = DynamicBloom::new(16, 50_000);
    let mut b = DynamicBloom::new(16, 50_000);

    for i in 0..17 {
        a.add(&item(i));
    }
    for i in 17..32 {
        b.add(&item(i));
    }
    assert!(a.get(&item(16)));
    assert!(b.get(&item(18)));
    assert!(a.extend(b).is_ok());
    assert!(a.get(&item(18)));
    assert!(a.get(&item(31)));
}

#[test]
fn extend_whole_union_contained() {
    let mut a = DynamicBloom::new(16, 50_000);
    let mut b = DynamicBloom::new(16, 50_000);
    for i in 0..17 {
        a.add(&item(i));
    }
    for i in 17..32 {
        b.add(&item(i));
    }
    assert!(a.extend(b).is_ok());
    for i in 0..32 {
        assert!(a.get(&item(i)));
    }
}

#[test]
fn extend_mismatch_reports_error() {
    let mut a = DynamicBloom::new(16, 50_000);
    let mut b = DynamicBloom::new(14, 50_000);
    for i in 0..17 {
        a.add(&item(i));
    }
    for i in 17..32 {
        b.add(&item(i));
    }
    let before = a.len();
    let r = a.extend(b);
    assert_eq!(r, Err(FilterError::ExpectedMismatch));
    assert_eq!(a.len(), before);
}

#[test]
fn assert_fp_holds_within_capacity() {
    let mut f = DynamicBloom::new(16, 50_000);
    for i in 0..16 {
        f.add(&item(i));
    }
    assert!(f.assert_fp());
}
