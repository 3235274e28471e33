use midomoji_clone::dictionary::bit_cache::BitCache;

#[test]
fn test_set_get() {
    let mut bit_cache = BitCache::new();
    bit_cache.set(0);
    bit_cache.set(100);
    bit_cache.set(100000000);
    // the slots that were set are taken
    assert_eq!(false, bit_cache.get(0) == 0);
    assert_eq!(false, bit_cache.get(100) == 0);
    assert_eq!(false, bit_cache.get(100000000) == 0);
    // a slot that was not set is free
    assert_eq!(true, bit_cache.get(1000000) == 0);
}

#[test]
fn test_find_empty_idx() {
    let mut bit_cache = BitCache::new();
    // the window starts at 256, which is free
    assert_eq!(256, bit_cache.find_empty_idx(0));

    for i in 0..1000 {
        if i % 100 != 0 {
            bit_cache.set(i);
        }
    }
    // window at 256: the first free slot is 300
    assert_eq!(300, bit_cache.find_empty_idx(0));

    // the crowded words are skipped: window at 960, first free slot 1000
    bit_cache.update_start();
    assert_eq!(1000, bit_cache.find_empty_idx(0));

    // window at 960, offset 50: first free slot 1010
    assert_eq!(1010, bit_cache.find_empty_idx(50));

    // window at 960, offset 1000000: first free slot 1000960
    assert_eq!(1000960, bit_cache.find_empty_idx(1000000));

    // past the stored words: offset plus window start
    assert_eq!(10000960, bit_cache.find_empty_idx(10000000));
}

#[test]
fn test_last_index_of_one() {
    let mut bit_cache = BitCache::new();
    assert_eq!(None, bit_cache.last_index_of_one());
    bit_cache.set(0);
    assert_eq!(Some(0), bit_cache.last_index_of_one());
    bit_cache.set(63);
    assert_eq!(Some(63), bit_cache.last_index_of_one());
    bit_cache.set(300);
    assert_eq!(Some(300), bit_cache.last_index_of_one());
}

#[test]
fn bit_cache_get_is_one_or_zero() {
    let mut bit_cache = BitCache::new();
    bit_cache.set(64);
    assert_eq!(1, bit_cache.get(64));
    assert_eq!(0, bit_cache.get(63));
    assert_eq!(0, bit_cache.get(65));
    assert_eq!(0, bit_cache.get(usize::MAX));
}

#[test]
fn bit_cache_grows_past_its_words() {
    let mut bit_cache = BitCache::new();
    let far = 65535 * 64 + 5;
    assert_eq!(0, bit_cache.get(far));
    bit_cache.set(far);
    assert_eq!(1, bit_cache.get(far));
    assert_eq!(Some(far), bit_cache.last_index_of_one());
    assert!(bit_cache.word_count() > 65535);
}

#[test]
fn update_start_stops_at_a_sparse_word() {
    let mut bit_cache = BitCache::new();
    // word 4 holds 59 ones: not crowded enough to skip
    for i in 256..315 {
        bit_cache.set(i);
    }
    bit_cache.update_start();
    assert_eq!(315, bit_cache.find_empty_idx(0));
    // one more makes 60: the window moves on to word 5
    bit_cache.set(315);
    bit_cache.update_start();
    assert_eq!(320, bit_cache.find_empty_idx(0));
}
