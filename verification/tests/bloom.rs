use bloom::BloomFilter;

fn item(a: u32) -> [u8; 4] {
    a.to_le_bytes()
}

#[test]
fn item_in_filter() {
    let it = item(42);
    let mut f = BloomFilter::new(1, 1, 100_000);
    f.add(&it);
    assert!(f.get(&it));
}

#[test]
fn false_negatives() {
    let items = (0..64).map(item).collect::<Vec<[u8; 4]>>();
    let mut f = BloomFilter::new(8, 2, 100_000);
    for i in items.iter() {
        f.add(i);
    }
    for _ in 0..128 {
        let idx = rand::random_range(0..items.len());
        let it = &items[idx];
        assert!(f.get(it));
    }
}

#[test]
fn false_positive() {
    let items = (0..64).map(item).collect::<Vec<[u8; 4]>>();
    let mut f = BloomFilter::with_fp_size(10_000, 64);
    for i in items.iter() {
        f.add(i);
    }
    let false_items = (64..128).map(item).collect::<Vec<[u8; 4]>>();
    let mut positives = 0;
    for _ in 0..128 {
        let idx = rand::random_range(0..false_items.len());
        let it = &false_items[idx];
        if f.get(it) {
            positives += 1;
            assert!(!items.contains(it));
        }
    }
    assert!(positives <= (false_items.len() / 10));
}

#[test]
fn fp_changes_with_inserts() {
    // a filter rated for 16 items at one tenth false-positive rate
    let mut f = BloomFilter::with_fp_size(100_000, 16);
    println!("Current capacity/fp: {}/{}", f.capacity(), f.fp());
    // inserting 32 items drives the estimated rate up
    for i in 0..32 {
        f.add(&item(i));
    }
    // it reaches roughly three tenths
    assert!(f.fp() >= 300_000);
}

#[test]
fn stored_items_changed() {
    let mut f = BloomFilter::with_fp_size(100_000, 16);
    f.add(&item(42));
    assert!(f.stored() == 1);
}

#[test]
fn calc_k() {
    let k = BloomFilter::calculate_k(512, 5000);
    assert_eq!(k, 1);
}

#[test]
fn calculate_capacity_from_fp_size() {
    let capacity = BloomFilter::calculate_capacity_from_fp_size(10_000, 512);
    assert_eq!(capacity, 427);
}

#[test]
fn calculate_fp_from_capacity_size() {
    let fp = BloomFilter::calculate_fp_from_capacity_size(512, 5000);
    assert_eq!(fp, 674_633);
}

#[test]
fn calculate_size_from_fp_capacity() {
    let size = BloomFilter::calculate_size_from_fp_capacity(1000, 5000);
    assert_eq!(size, 8986);
}

#[test]
fn empty_filter_reports_absent() {
    let f = BloomFilter::with_fp_size(10_000, 64);
    for i in 0..64 {
        assert!(!f.get(&item(i)));
    }
}

#[test]
fn membership_depends_on_item_bytes() {
    // if hashing ignored the content, the second lookup would also hit
    let mut f = BloomFilter::with_fp_size(1000, 64);
    f.add(b"abcd");
    assert!(f.get(b"abcd"));
    assert!(!f.get(b"abce"));
}

#[test]
fn bits_match_configured_size() {
    let f = BloomFilter::new(8, 2, 100_000);
    assert_eq!(f.bits(), 64);
    assert_eq!(f.capacity(), 13);
}

#[test]
fn fp_is_configured_rate_until_first_insert() {
    let mut f = BloomFilter::with_fp_size(100_000, 16);
    assert_eq!(f.fp(), 100_000);
    f.add(&item(1));
    assert!(f.fp() < 100_000);
}

#[test]
fn extreme_rates_accepted() {
    // the lowest representable rate
    let tight = BloomFilter::with_fp_size(1, 16);
    assert!(tight.capacity() >= 16);
    // the highest representable rate
    let loose = BloomFilter::with_fp_size(999_999, 16);
    assert!(loose.capacity() >= 16);
}
