use bloom::age::{AgeBloom, AgeFilter};

fn item(a: u32) -> [u8; 4] {
    a.to_le_bytes()
}

#[test]
fn get_active_idx() {
    let f = AgeBloom::new(16, 50_000);
    // a fresh filter's active window covers the first three slices
    assert!(f.get_active_idx() == [0, 1, 2].to_vec());
}

#[test]
fn age_insert_and_get() {
    let mut f = AgeBloom::new(16, 50_000);
    f.add(&item(42));
    assert!(f.get(&item(42)));
}

#[test]
fn age_insert_and_get_after_resize() {
    let mut f = AgeBloom::new(16, 50_000);
    for i in 0..17 {
        f.add(&item(i));
    }
    assert!(f.get(&item(16)));
    f.add(&item(77));
    assert!(f.get(&item(77)));
}

#[test]
fn test_new() {
    let mut f = AgeFilter::new(2, 4, 16, 0);
    println!("{:?}", f.slices.len());
    f.retire_slices(1);
    println!("{:?}", f.slices.len());
}

#[test]
fn test_add_slice() {
    let mut f = AgeFilter::new(2, 4, 16, 0);
    f.add_slice(16, 1);
    assert_eq!(f.slices.len(), 7);
    assert_eq!(f.num_slices, 7);
}

#[test]
fn test_retire_slices() {
    let mut f = AgeFilter::new(2, 4, 16, 0);
    f.add_slice(16, 1);
    assert_eq!(f.slices.len(), 7);
    assert_eq!(f.num_slices, 7);
    f.add_slice(16, 1);
    f.add_slice(16, 1);
    f.add_slice(16, 1);
    println!("before {:?}", f.slices.len());
    assert_eq!(f.slices.len(), 10);
    assert_eq!(f.num_slices, 10);
    f.retire_slices(2);
    println!("after {:?}", f.slices.len());
    assert_eq!(f.slices.len(), 6);
    assert_eq!(f.num_slices, 6);
}

#[test]
fn retire_shrinks_repeatably() {
    // growth beyond the steady state is transient on every cycle
    let mut f = AgeFilter::new(2, 4, 16, 0);
    for round in 1..4u64 {
        f.add_slice(16, round);
        f.add_slice(16, round);
        assert_eq!(f.slices.len(), 8);
        f.retire_slices(round + 1);
        assert_eq!(f.slices.len(), 6);
        assert_eq!(f.num_slices, 6);
    }
}

#[test]
fn retire_nothing_eligible_is_idempotent() {
    let mut f = AgeFilter::new(2, 4, 16, 5);
    f.add_slice(16, 5);
    assert_eq!(f.slices.len(), 7);
    // nothing is older than the threshold, so nothing retires
    f.retire_slices(5);
    assert_eq!(f.slices.len(), 7);
    f.retire_slices(5);
    assert_eq!(f.slices.len(), 7);
}

#[test]
fn shift_rotates_hash_index() {
    let mut f = AgeFilter::new(3, 2, 16, 0);
    // slices start with hash indices 0,1,2,0,1; the next rotation takes
    // the predecessor of the newest slice's index
    let newest = f.slices.get(f.slices.len() - 1).unwrap().hash_index;
    f.shift(1);
    let len = f.slices.len();
    // the bounded sequence evicted the oldest slice and kept its length
    assert_eq!(len, 5);
    let fresh = f.slices.get(len - 1).unwrap();
    assert_eq!(fresh.hash_index, (newest + 3 - 1) % 3);
    assert_eq!(fresh.timestamp, 1);
}
