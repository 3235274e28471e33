use midomoji_clone::dictionary::bit_cache::BitCache;
use midomoji_clone::dictionary::trie::{Trie, TrieError};

/// Walks `key` through a double array; panics where a transition is missing,
/// and returns the values of the state it ends in, if any.
fn find<'a, T>(key: &str, base_arr: &[u32], check_arr: &[u32], data_arr: &'a [T]) -> Option<&'a [T]> {
    let mut idx = 1;
    let mut base = base_arr[idx] as usize;
    for (i, &byte) in key.as_bytes().iter().enumerate() {
        let next_idx = base + (byte as usize);
        if check_arr[next_idx] as usize == idx {
            idx = next_idx;
            base = base_arr[idx] as usize;
        } else {
            panic!("no transition from {} on byte {} (key={}, i={})", idx, byte, key, i);
        }
    }
    let value_idx = base + 255;
    if check_arr[value_idx] as usize == idx {
        let data_idx = (base_arr[value_idx] >> 8) as usize;
        let data_len = (base_arr[value_idx] & 0b11111111) as usize + 1;
        Some(&data_arr[data_idx..(data_idx + data_len)])
    } else {
        None
    }
}

#[test]
fn test_trie_1() {
    let mut trie: Trie<i32> = Trie::new();
    let s = String::from("abc");
    trie.set(&s, 0).unwrap();
    trie.set(&s, 1).unwrap();
    // the values come back under their key
    assert_eq!(0, trie.get(&s).unwrap()[0]);
    assert_eq!(1, trie.get(&s).unwrap()[1]);
    let s = String::from("cba");
    // a key never inserted has none
    assert_eq!(None, trie.get(&s));
}

#[test]
fn test_trie_2() {
    let mut trie: Trie<u32> = Trie::new();
    let s1 = String::from("abc");
    let s2 = String::from("abd");
    let s3 = String::from("zyx");
    let s4 = String::from("zwx");
    trie.set(&s1, 10).unwrap();
    trie.set(&s2, 11).unwrap();
    trie.set(&s3, 12).unwrap();
    trie.set(&s4, 13).unwrap();
    trie.set(&s1, 14).unwrap();
    assert_eq!(10, trie.get(&s1).unwrap()[0]);
    assert_eq!(14, trie.get(&s1).unwrap()[1]);
    assert_eq!(11, trie.get(&s2).unwrap()[0]);
    assert_eq!(12, trie.get(&s3).unwrap()[0]);
    assert_eq!(13, trie.get(&s4).unwrap()[0]);
}

#[test]
fn test_trie_3() {
    let mut trie: Trie<u32> = Trie::new();
    let s1 = String::from("あいうえお");
    let s2 = String::from("あいえうお");
    let s3 = String::from("漢字");
    let s4 = String::from("平仮名");
    let s5 = String::from("片仮名");
    trie.set(&s1, 10).unwrap();
    trie.set(&s2, 11).unwrap();
    trie.set(&s3, 12).unwrap();
    trie.set(&s4, 13).unwrap();
    trie.set(&s5, 14).unwrap();
    assert_eq!(10, trie.get(&s1).unwrap()[0]);
    assert_eq!(11, trie.get(&s2).unwrap()[0]);
    assert_eq!(12, trie.get(&s3).unwrap()[0]);
    assert_eq!(13, trie.get(&s4).unwrap()[0]);
    assert_eq!(14, trie.get(&s5).unwrap()[0]);
}

#[test]
fn test_find_base_1() {
    let keys: Vec<u8> = vec![2, 5, 255];
    let mut bit_cache = BitCache::new();

    // window at 256, free: base = 256 - first key = 254
    assert_eq!(254, Trie::<u32>::find_base(&keys, &bit_cache));

    (256..400).for_each(|i| bit_cache.set(i));
    (500..1000).for_each(|i| bit_cache.set(i));

    // first fit: slot 1000 for the first key, base 998
    assert_eq!(998, Trie::<u32>::find_base(&keys, &bit_cache));

    (1000..1002).for_each(|i| bit_cache.set(i));
    (1003..1005).for_each(|i| bit_cache.set(i));
    (1006..1255).for_each(|i| bit_cache.set(i));

    // first fit: slot 1002, base 1000
    assert_eq!(1000, Trie::<u32>::find_base(&keys, &bit_cache));

    (400..500).for_each(|i| bit_cache.set(i));

    // window moved to 1216: first fit at slot 1255, base 1253
    bit_cache.update_start();
    assert_eq!(1253, Trie::<u32>::find_base(&keys, &bit_cache));
}

#[test]
fn test_to_double_array_1() {
    let mut trie: Trie<u32> = Trie::new();
    let s1 = String::from("abc");
    let s2 = String::from("ac");
    let s3 = String::from("b");
    let s4 = String::from("bd");
    let s5 = String::from("bdc");
    trie.set(&s1, 1).unwrap();
    trie.set(&s1, 2).unwrap();
    trie.set(&s2, 3).unwrap();
    trie.set(&s3, 4).unwrap();
    trie.set(&s4, 5).unwrap();
    trie.set(&s5, 6).unwrap();
    let (base_arr, check_arr, data_arr) = trie.to_double_array().unwrap();
    assert_eq!([1, 2], find(&s1, &base_arr, &check_arr, &data_arr).unwrap());
    assert_eq!([3], find(&s2, &base_arr, &check_arr, &data_arr).unwrap());
    assert_eq!([4], find(&s3, &base_arr, &check_arr, &data_arr).unwrap());
    assert_eq!([5], find(&s4, &base_arr, &check_arr, &data_arr).unwrap());
    assert_eq!([6], find(&s5, &base_arr, &check_arr, &data_arr).unwrap());
    // a key on the way to others, without values of its own, has none
    assert_eq!(None, find("ab", &base_arr, &check_arr, &data_arr));
}

#[test]
fn test_to_double_array_3() {
    let mut trie: Trie<u32> = Trie::new();
    let s1 = String::from("おすしとビール");
    let s2 = String::from("お寿司とビール");
    let s3 = String::from("🍣🍺");
    trie.set(&s1, 1).unwrap();
    trie.set(&s1, 2).unwrap();
    trie.set(&s2, 3).unwrap();
    trie.set(&s3, 4).unwrap();
    let (base_arr, check_arr, data_arr) = trie.to_double_array().unwrap();
    assert_eq!([1, 2], find(&s1, &base_arr, &check_arr, &data_arr).unwrap());
    assert_eq!([3], find(&s2, &base_arr, &check_arr, &data_arr).unwrap());
    assert_eq!([4], find(&s3, &base_arr, &check_arr, &data_arr).unwrap());
    assert_eq!(None, find("お寿", &base_arr, &check_arr, &data_arr));
}

#[test]
fn trie_holds_256_values_then_refuses() {
    let mut trie: Trie<u32> = Trie::new();
    for v in 0..256u32 {
        assert_eq!(Ok(()), trie.set("x", v));
    }
    assert_eq!(Err(TrieError::CapacityExceeded), trie.set("x", 256));
    let values = trie.get("x").unwrap();
    assert_eq!(256, values.len());
    assert_eq!(255, values[255]);
    let (base_arr, check_arr, data_arr) = trie.to_double_array().unwrap();
    let back = find("x", &base_arr, &check_arr, &data_arr).unwrap();
    assert_eq!((0..256u32).collect::<Vec<u32>>(), back.to_vec());
}

#[test]
fn trie_refused_insert_leaves_values() {
    let mut trie: Trie<u32> = Trie::new();
    for v in 0..256u32 {
        trie.set("key", v).unwrap();
    }
    trie.set("other", 7).unwrap();
    assert!(trie.set("key", 999).is_err());
    assert_eq!(256, trie.get("key").unwrap().len());
    assert_eq!([7], trie.get("other").unwrap());
}

#[test]
fn trie_empty_key_and_prefixes() {
    let mut trie: Trie<u32> = Trie::new();
    assert_eq!(None, trie.get(""));
    trie.set("abcdefghij", 1).unwrap();
    assert_eq!(None, trie.get("abcde"));
    assert_eq!(None, trie.get("abcdefghijk"));
    trie.set("", 9).unwrap();
    assert_eq!([9], trie.get("").unwrap());
}

#[test]
fn double_array_of_empty_trie_has_nothing() {
    let trie: Trie<u32> = Trie::new();
    let (base_arr, check_arr, data_arr) = trie.to_double_array().unwrap();
    // the two reserved slots are the last taken: the arrays end 256 past slot 1
    assert_eq!(257, base_arr.len());
    assert_eq!(257, check_arr.len());
    assert!(data_arr.is_empty());
    // slot 1 has base 0: every transition lands below 256, checked to no one
    assert_eq!(0, base_arr[1]);
    assert!(check_arr.iter().all(|&c| c == 0));
}

#[test]
fn double_array_single_byte_key() {
    let mut trie: Trie<u32> = Trie::new();
    trie.set("a", 42).unwrap();
    let (base_arr, check_arr, data_arr) = trie.to_double_array().unwrap();
    assert_eq!([42], find("a", &base_arr, &check_arr, &data_arr).unwrap());
    assert_eq!(1, data_arr.len());
}

#[test]
fn double_array_long_shared_prefix() {
    let mut trie: Trie<u32> = Trie::new();
    let shared = "the quick brown fox jumps over the lazy dog";
    let k1 = format!("{}1", shared);
    let k2 = format!("{}2", shared);
    trie.set(&k1, 1).unwrap();
    trie.set(&k2, 2).unwrap();
    let (base_arr, check_arr, data_arr) = trie.to_double_array().unwrap();
    assert_eq!([1], find(&k1, &base_arr, &check_arr, &data_arr).unwrap());
    assert_eq!([2], find(&k2, &base_arr, &check_arr, &data_arr).unwrap());
    assert_eq!(None, find(shared, &base_arr, &check_arr, &data_arr));
}

#[test]
fn double_array_full_utf8_range() {
    let mut trie: Trie<u32> = Trie::new();
    let key = "a\u{7f}\u{80}\u{7ff}\u{800}\u{ffff}\u{10000}🍣\u{10ffff}";
    trie.set(key, 3).unwrap();
    trie.set("🍣", 4).unwrap();
    let (base_arr, check_arr, data_arr) = trie.to_double_array().unwrap();
    assert_eq!([3], find(key, &base_arr, &check_arr, &data_arr).unwrap());
    assert_eq!([4], find("🍣", &base_arr, &check_arr, &data_arr).unwrap());
}

#[test]
fn double_array_is_deterministic() {
    let build = || {
        let mut trie: Trie<u32> = Trie::new();
        for (i, w) in ["b", "abc", "ab", "bcd", "ca"].iter().enumerate() {
            trie.set(w, i as u32).unwrap();
        }
        trie.to_double_array().unwrap()
    };
    assert_eq!(build(), build());
}

#[test]
fn reserved_byte_in_a_key_is_refused() {
    let mut trie: Trie<u32> = Trie::new();
    trie.set("a", 1).unwrap();
    trie.set_bytes(&[b'a', 0xff], 2).unwrap();
    assert_eq!(Err(TrieError::ReservedByte), trie.to_double_array());
}

#[test]
fn trie_from_entries_keeps_order() {
    let entries: Vec<(Vec<u8>, u32)> = vec![
        (b"ab".to_vec(), 1),
        (b"a".to_vec(), 2),
        (b"ab".to_vec(), 3),
    ];
    let trie = Trie::from_entries(&entries).unwrap();
    assert_eq!([1, 3], trie.get("ab").unwrap());
    assert_eq!([2], trie.get("a").unwrap());
    assert_eq!(None, trie.get("b"));
}

#[test]
fn trie_from_entries_names_the_overflowing_entry() {
    let mut entries: Vec<(Vec<u8>, u32)> = (0..256u32).map(|v| (b"k".to_vec(), v)).collect();
    entries.insert(3, (b"other".to_vec(), 9));
    entries.push((b"k".to_vec(), 999));
    assert_eq!(Err(257), Trie::from_entries(&entries).map(|_| ()));
}
