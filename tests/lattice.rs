use midomoji_clone::dictionary::matrix_builder::MatrixBuilder;
use midomoji_clone::dictionary::trie::Trie;
use midomoji_clone::dictionary::DictionarySet;
use midomoji_clone::lattice::{tokenize, Lattice, LatticeNode};
use midomoji_clone::token::Token;

fn dictionary(words: &[(&str, Token)], left_max: usize, right_max: usize) -> DictionarySet<Token> {
    let matrix = MatrixBuilder::new(left_max, right_max);
    let mut trie: Trie<Token> = Trie::new();
    for (w, t) in words {
        trie.set(w, *t).unwrap();
    }
    let (base_arr, check_arr, data_arr) = trie.to_double_array().unwrap();
    let bytes = DictionarySet::<Token>::serialize(&base_arr, &check_arr, &data_arr, &matrix);
    DictionarySet::new(&bytes).unwrap()
}

fn surfaces(nodes: &[LatticeNode], input: &[u8]) -> Vec<String> {
    nodes
        .iter()
        .map(|n| String::from_utf8(n.surface(input).to_vec()).unwrap())
        .collect()
}

#[test]
fn analysis_prefers_dictionary_words() {
    let t = Token { left_id: 1, right_id: 1, cost: 10 };
    let dict = dictionary(&[("ab", t), ("d", t)], 2, 2);
    let input = "abd".as_bytes();
    let mut lattice = Lattice::build(&dict, input);
    lattice.analyze(&dict);
    let result = lattice.get_result();
    assert_eq!(vec!["ab".to_string(), "d".to_string()], surfaces(&result, input));
    assert_eq!(Some(20), lattice.best_cost());
    assert_eq!(t, result[0].token);
}

#[test]
fn analysis_of_empty_input() {
    let dict = dictionary(&[("a", Token { left_id: 0, right_id: 0, cost: 1 })], 1, 1);
    let input: &[u8] = b"";
    let mut lattice = Lattice::build(&dict, input);
    lattice.analyze(&dict);
    assert!(lattice.get_result().is_empty());
    assert_eq!(Some(dict.get_matrix(0, 0) as i64), lattice.best_cost());
    assert_eq!(Some(0), lattice.best_cost());
}

#[test]
fn empty_dictionary_gives_unknown_node() {
    let dict = dictionary(&[], 1, 1);
    let input = "a".as_bytes();
    let mut lattice = Lattice::build(&dict, input);
    lattice.analyze(&dict);
    let result = lattice.get_result();
    assert_eq!(1, result.len());
    assert_eq!(Token::unknown(), result[0].token);
    assert_eq!((0, 1), (result[0].begin, result[0].end));
}

#[test]
fn unknown_nodes_follow_utf8_lead_bytes() {
    let dict = dictionary(&[], 1, 1);
    let input = "aé漢🍣".as_bytes();
    let mut lattice = Lattice::build(&dict, input);
    lattice.analyze(&dict);
    let result = lattice.get_result();
    assert_eq!(
        vec!["a".to_string(), "é".to_string(), "漢".to_string(), "🍣".to_string()],
        surfaces(&result, input)
    );
}

#[test]
fn truncated_character_is_cut_at_the_end() {
    let dict = dictionary(&[], 1, 1);
    let input: &[u8] = &[b'a', 0xe6, 0xbc];
    let mut lattice = Lattice::build(&dict, input);
    lattice.analyze(&dict);
    let result = lattice.get_result();
    assert_eq!(2, result.len());
    assert_eq!((1, 3), (result[1].begin, result[1].end));
}

#[test]
fn stray_continuation_byte_leaves_no_path() {
    let dict = dictionary(&[], 1, 1);
    let input: &[u8] = &[0x80];
    let mut lattice = Lattice::build(&dict, input);
    lattice.analyze(&dict);
    assert!(lattice.get_result().is_empty());
    assert_eq!(None, lattice.best_cost());
}

#[test]
fn result_covers_input_once() {
    let t = Token { left_id: 0, right_id: 0, cost: 5 };
    let dict = dictionary(&[("すし", t), ("し", t), ("ビール", t), ("ビ", t)], 1, 1);
    let input = "おすしとビール".as_bytes();
    let mut lattice = Lattice::build(&dict, input);
    lattice.analyze(&dict);
    let result = lattice.get_result();
    let joined: Vec<u8> = result.iter().flat_map(|n| n.surface(input).to_vec()).collect();
    assert_eq!(input.to_vec(), joined);
    for w in result.windows(2) {
        assert_eq!(w[0].end, w[1].begin);
    }
    assert_eq!(
        vec!["お".to_string(), "すし".to_string(), "と".to_string(), "ビール".to_string()],
        surfaces(&result, input)
    );
}

#[test]
fn analysis_is_deterministic() {
    let t = Token { left_id: 0, right_id: 0, cost: 3 };
    let dict = dictionary(&[("ab", t), ("a", t), ("b", t), ("bc", t)], 1, 1);
    let input = "abcabc".as_bytes();
    let run = || {
        let mut lattice = Lattice::build(&dict, input);
        lattice.analyze(&dict);
        let r = lattice.get_result();
        (surfaces(&r, input), lattice.best_cost())
    };
    assert_eq!(run(), run());
}

#[test]
fn lattice_node_new_is_unreached() {
    let n = LatticeNode::new(2, 5, Token::eos_bos());
    assert_eq!(midomoji_clone::lattice::UNREACHED, n.total_cost);
    assert!(n.prev.is_none());
    assert_eq!((2, 5), (n.begin, n.end));
}

#[test]
fn tokens_have_fixed_sentinels() {
    assert_eq!(Token { left_id: 0, right_id: 0, cost: 0 }, Token::eos_bos());
    assert_eq!(Token { left_id: u16::MAX, right_id: u16::MAX, cost: i16::MAX }, Token::unknown());
}

#[test]
fn tokenize_covers_the_input() {
    let t = Token { left_id: 1, right_id: 1, cost: 10 };
    let dict = dictionary(&[("ab", t), ("d", t)], 2, 2);
    let input = "abdxé".as_bytes();
    let result = tokenize(&dict, input);
    assert_eq!(
        vec!["ab".to_string(), "d".to_string(), "x".to_string(), "é".to_string()],
        surfaces(&result, input)
    );
    assert!(tokenize(&dict, b"").is_empty());
    assert!(tokenize(&dict, &[0x80, b'a']).is_empty());
}
