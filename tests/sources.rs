use midomoji_clone::lexicon::{lexicon_entries, parse_decimal, parse_lexicon, LexiconError};
use midomoji_clone::matrix_source::{parse_matrix, MatrixError};
use midomoji_clone::token::Token;

#[test]
fn decimal_fields_parse_with_sign() {
    assert_eq!(Some(123), parse_decimal(b"123", 0, 0xffff));
    assert_eq!(Some(7), parse_decimal(b"+7", 0, 0xffff));
    assert_eq!(Some(-32768), parse_decimal(b"-32768", -0x8000, 0x7fff));
    assert_eq!(Some(0), parse_decimal(b"-0", -0x8000, 0x7fff));
    assert_eq!(None, parse_decimal(b"", 0, 0xffff));
    assert_eq!(None, parse_decimal(b"-", -0x8000, 0x7fff));
    assert_eq!(None, parse_decimal(b"12a", 0, 0xffff));
    assert_eq!(None, parse_decimal(b" 1", 0, 0xffff));
    assert_eq!(None, parse_decimal(b"65536", 0, 0xffff));
    assert_eq!(None, parse_decimal(b"-1", 0, 0xffff));
    assert_eq!(None, parse_decimal(b"99999999999999999999", 0, 0xffff));
}

#[test]
fn lexicon_rows_become_tokens() {
    let text = "surface,left,right,cost\nすし,1,2,-300\nabc,65535,0,32767\n";
    let entries = parse_lexicon(text.as_bytes()).unwrap();
    assert_eq!(2, entries.len());
    assert_eq!("すし".as_bytes(), &entries[0].0[..]);
    assert_eq!(Token { left_id: 1, right_id: 2, cost: -300 }, entries[0].1);
    assert_eq!(b"abc", &entries[1].0[..]);
    assert_eq!(Token { left_id: 65535, right_id: 0, cost: 32767 }, entries[1].1);
}

#[test]
fn lexicon_quoted_surface_keeps_its_comma() {
    let text = "surface,left,right,cost\n\"a,b\",3,4,5\n";
    let entries = parse_lexicon(text.as_bytes()).unwrap();
    assert_eq!(b"a,b", &entries[0].0[..]);
    assert_eq!(Token { left_id: 3, right_id: 4, cost: 5 }, entries[0].1);
}

#[test]
fn lexicon_bad_rows_are_named() {
    let text = "s,l,r,c\nok,1,1,1\nbad,1,1,40000\n";
    assert_eq!(Err(LexiconError::BadRow(1)), parse_lexicon(text.as_bytes()));
    let text = "s,l\nshort,1\n";
    assert_eq!(Err(LexiconError::BadRow(0)), parse_lexicon(text.as_bytes()));
    let uneven = "s,l,r,c\na,1,1,1\nb,1,1\n";
    assert_eq!(Err(LexiconError::Malformed), parse_lexicon(uneven.as_bytes()));
}

#[test]
fn lexicon_with_only_a_header_is_empty() {
    assert_eq!(Ok(vec![]), parse_lexicon(b"surface,left,right,cost\n"));
}

#[test]
fn matrix_source_sets_cells() {
    let text = "2 3\n0 0 5\n1 2 -7\n\n1 2 8\r\n";
    let m = parse_matrix(text.as_bytes()).unwrap();
    assert_eq!(2, m.get_left_max());
    assert_eq!(3, m.get_right_max());
    assert_eq!(5, m.get(0, 0));
    assert_eq!(8, m.get(1, 2));
    assert_eq!(0, m.get(0, 1));
}

#[test]
fn matrix_source_errors() {
    assert_eq!(Err(MatrixError::BadHeader), parse_matrix(b"").map(|_| ()));
    assert_eq!(Err(MatrixError::BadHeader), parse_matrix(b"2\n").map(|_| ()));
    assert_eq!(Err(MatrixError::BadHeader), parse_matrix(b"70000 1\n").map(|_| ()));
    assert_eq!(Err(MatrixError::BadLine(2)), parse_matrix(b"2 2\n0 0 1\n2 0 1\n").map(|_| ()));
    assert_eq!(Err(MatrixError::BadLine(1)), parse_matrix(b"2 2\n0 0\n").map(|_| ()));
    assert_eq!(Err(MatrixError::BadLine(1)), parse_matrix(b"2 2\n0 0 40000\n").map(|_| ()));
}

#[test]
fn lexicon_entries_from_given_rows() {
    let rows: Vec<Vec<Vec<u8>>> = vec![
        vec![b"a".to_vec(), b"1".to_vec(), b"2".to_vec(), b"-3".to_vec()],
        vec![b"b".to_vec(), b"4".to_vec(), b"5".to_vec(), b"6".to_vec(), b"extra".to_vec()],
    ];
    let entries = lexicon_entries(&rows).unwrap();
    assert_eq!(Token { left_id: 1, right_id: 2, cost: -3 }, entries[0].1);
    assert_eq!(b"b", &entries[1].0[..]);
    let bad: Vec<Vec<Vec<u8>>> = vec![vec![b"a".to_vec(), b"1".to_vec(), b"x".to_vec(), b"0".to_vec()]];
    assert_eq!(Err(LexiconError::BadRow(0)), lexicon_entries(&bad));
}
