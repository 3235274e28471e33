use midomoji_clone::dictionary::matrix_builder::MatrixBuilder;
use midomoji_clone::dictionary::trie::Trie;
use midomoji_clone::dictionary::DictionarySet;
use midomoji_clone::token::Token;

fn push_u64(bytes: &mut Vec<u8>, x: usize) {
    bytes.extend_from_slice(&(x as u64).to_le_bytes());
}

fn build_dictionary<T: Copy + midomoji_clone::dictionary::record::Record>(
    words: &[(&str, T)],
    matrix: &MatrixBuilder,
) -> Vec<u8> {
    let mut trie: Trie<T> = Trie::new();
    for (w, v) in words {
        trie.set(w, *v).unwrap();
    }
    let (base_arr, check_arr, data_arr) = trie.to_double_array().unwrap();
    DictionarySet::<T>::serialize(&base_arr, &check_arr, &data_arr, matrix)
}

#[test]
fn test_dictionary_set_new() {
    let base_arr: Vec<u32> = vec![1, 2, 3, 4, 5];
    let check_arr: Vec<u32> = vec![10, 20, 30, 40, 50];
    let data_arr: Vec<u32> = vec![100, 200, 300, 400, 500];
    let matrix: Vec<u16> = vec![1000, 2000, 3000, 4000];

    let base_bytes: Vec<u8> = base_arr.iter().flat_map(|x| x.to_le_bytes()).collect();
    let check_bytes: Vec<u8> = check_arr.iter().flat_map(|x| x.to_le_bytes()).collect();
    let data_bytes: Vec<u8> = data_arr.iter().flat_map(|x| x.to_le_bytes()).collect();
    let matrix_bytes: Vec<u8> = matrix.iter().flat_map(|x| x.to_le_bytes()).collect();

    let header_size: usize = 80;
    let mut bytes: Vec<u8> = vec![];
    push_u64(&mut bytes, header_size);
    push_u64(&mut bytes, header_size + base_bytes.len());
    push_u64(&mut bytes, header_size + base_bytes.len() + check_bytes.len());
    push_u64(&mut bytes, header_size + base_bytes.len() + check_bytes.len() + data_bytes.len());
    push_u64(&mut bytes, base_arr.len());
    push_u64(&mut bytes, check_arr.len());
    push_u64(&mut bytes, data_arr.len());
    push_u64(&mut bytes, matrix.len());
    push_u64(&mut bytes, 1);
    push_u64(&mut bytes, 2);
    bytes.extend_from_slice(&base_bytes);
    bytes.extend_from_slice(&check_bytes);
    bytes.extend_from_slice(&data_bytes);
    bytes.extend_from_slice(&matrix_bytes);
    let dict_set: DictionarySet<u32> = DictionarySet::new(&bytes).unwrap();
    assert_eq!([1, 2, 3, 4, 5], &dict_set.base_arr[..]);
    assert_eq!([10, 20, 30, 40, 50], &dict_set.check_arr[..]);
    assert_eq!([100, 200, 300, 400, 500], &dict_set.data_arr[..]);
    assert_eq!([1000, 2000, 3000, 4000], &dict_set.matrix[..]);
    assert_eq!(1, dict_set.header.matrix_left_max);
    assert_eq!(2, dict_set.header.matrix_right_max);
}

#[test]
fn dictionary_refuses_short_or_overlong_blocks() {
    let bytes = vec![0u8; 79];
    assert!(DictionarySet::<u32>::new(&bytes).is_none());
    let matrix = MatrixBuilder::new(1, 1);
    let mut bytes = build_dictionary::<u32>(&[("a", 1)], &matrix);
    assert!(DictionarySet::<u32>::new(&bytes).is_some());
    bytes.pop();
    assert!(DictionarySet::<u32>::new(&bytes).is_none());
}

#[test]
fn serialized_layout_matches_header() {
    let mut matrix = MatrixBuilder::new(2, 3);
    matrix.set(1, 2, -7);
    let bytes = build_dictionary::<Token>(&[("a", Token { left_id: 1, right_id: 2, cost: -3 })], &matrix);
    let dict: DictionarySet<Token> = DictionarySet::new(&bytes).unwrap();
    let h = dict.header;
    assert_eq!(80, h.base_idx);
    assert_eq!(80 + 4 * h.base_len, h.check_idx);
    assert_eq!(h.check_idx + 4 * h.check_len, h.data_idx);
    assert_eq!(h.data_idx + 6 * h.data_len, h.matrix_idx);
    assert_eq!(h.matrix_idx + 2 * h.matrix_len, bytes.len());
    assert_eq!(1, h.data_len);
    assert_eq!(6, h.matrix_len);
    assert_eq!(-7, dict.get_matrix(1, 2));
    assert_eq!([Token { left_id: 1, right_id: 2, cost: -3 }], dict.get_trie("a").unwrap());
}

#[test]
fn seeded_lexicon_lookups() {
    let matrix = MatrixBuilder::new(1, 1);
    let bytes = build_dictionary::<u32>(
        &[("abc", 1), ("abc", 2), ("ac", 3), ("b", 4), ("bd", 5), ("bdc", 6)],
        &matrix,
    );
    let dict: DictionarySet<u32> = DictionarySet::new(&bytes).unwrap();
    assert_eq!([1, 2], dict.get_trie("abc").unwrap());
    assert_eq!(None, dict.get_trie("ab"));
    let found = dict.prefix_search("bdcx");
    assert_eq!(3, found.len());
    assert_eq!((1, &[4u32][..]), (found[0].0, found[0].1));
    assert_eq!((2, &[5u32][..]), (found[1].0, found[1].1));
    assert_eq!((3, &[6u32][..]), (found[2].0, found[2].1));
    assert_eq!("bdc", &"bdcx"[..found[2].0]);
}

#[test]
fn empty_dictionary_finds_nothing() {
    let matrix = MatrixBuilder::new(1, 1);
    let bytes = build_dictionary::<u32>(&[], &matrix);
    let dict: DictionarySet<u32> = DictionarySet::new(&bytes).unwrap();
    assert_eq!(None, dict.get_trie("a"));
    assert!(dict.prefix_search("a").is_empty());
}

#[test]
fn matrix_round_trip_and_unknown_ids() {
    let mut matrix = MatrixBuilder::new(100, 100);
    for l in 0..100 {
        for r in 0..100 {
            matrix.set(l, r, (l as i16) * 100 + (r as i16));
        }
    }
    let bytes = build_dictionary::<u32>(&[("a", 1)], &matrix);
    let dict: DictionarySet<u32> = DictionarySet::new(&bytes).unwrap();
    for l in 0..100 {
        for r in 0..100 {
            assert_eq!((l as i16) * 100 + (r as i16), dict.get_matrix(l, r));
        }
    }
    assert_eq!(0, dict.get_matrix(0, 0));
    assert_eq!(9999, dict.get_matrix(99, 99));
    assert_eq!(i16::MAX, dict.get_matrix(u16::MAX as usize, 0));
    assert_eq!(i16::MAX, dict.get_matrix(0, u16::MAX as usize));
    // ids past the matrix cost as much as the unknown id
    assert_eq!(i16::MAX, dict.get_matrix(100, 0));
}

#[test]
fn multibyte_keys_after_reopening() {
    let matrix = MatrixBuilder::new(1, 1);
    let bytes = build_dictionary::<u32>(
        &[("おすしビール", 5), ("お寿司ビール", 6), ("🍣🍺", 7)],
        &matrix,
    );
    let dict: DictionarySet<u32> = DictionarySet::new(&bytes).unwrap();
    assert_eq!([5], dict.get_trie("おすしビール").unwrap());
    assert_eq!([6], dict.get_trie("お寿司ビール").unwrap());
    assert_eq!([7], dict.get_trie("🍣🍺").unwrap());
    assert_eq!(None, dict.get_trie("お寿"));
}

#[test]
fn test_build_load_dictionary() {
    let mut matrix = MatrixBuilder::new(100, 100);
    for l in 0..100 {
        for r in 0..100 {
            matrix.set(l, r, (l as i16) * 100 + (r as i16));
        }
    }
    let words = ["abc", "abc", "abd", "ac", "acd", "おすしビール", "お寿司ビール", "🍣🍺"];
    let pairs: Vec<(&str, u64)> = words.iter().enumerate().map(|(i, w)| (*w, i as u64)).collect();
    let bytes = build_dictionary::<u64>(&pairs, &matrix);
    let dict: DictionarySet<u64> = DictionarySet::new(&bytes).unwrap();
    assert_eq!([0, 1], dict.get_trie("abc").unwrap());
    assert_eq!([2], dict.get_trie("abd").unwrap());
    assert_eq!([3], dict.get_trie("ac").unwrap());
    assert_eq!([4], dict.get_trie("acd").unwrap());
    assert_eq!([5], dict.get_trie("おすしビール").unwrap());
    assert_eq!([6], dict.get_trie("お寿司ビール").unwrap());
    assert_eq!([7], dict.get_trie("🍣🍺").unwrap());
    assert_eq!(None, dict.get_trie("ahoge"));
    assert_eq!(None, dict.get_trie("お寿"));
    for l in 0..100 {
        for r in 0..100 {
            assert_eq!((l as i16) * 100 + (r as i16), dict.get_matrix(l, r));
        }
    }
}

#[test]
fn full_value_list_survives_serialization() {
    let matrix = MatrixBuilder::new(1, 1);
    let pairs: Vec<(&str, u32)> = (0..256u32).map(|v| ("x", v)).collect();
    let bytes = build_dictionary::<u32>(&pairs, &matrix);
    let dict: DictionarySet<u32> = DictionarySet::new(&bytes).unwrap();
    let values = dict.get_trie("x").unwrap();
    assert_eq!(256, values.len());
    assert_eq!((0..256u32).collect::<Vec<u32>>(), values.to_vec());
}
