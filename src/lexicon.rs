//! The lexicon source: CSV rows `surface,left_id,right_id,cost` after a
//! header row.
use vstd::prelude::*;

use crate::token::Token;

verus! {

/// The rows after the header row of the CSV text `bytes`, each as the bytes
/// of its fields; `None` when the text is not well-formed CSV.
pub uninterp spec fn csv_rows(bytes: Seq<u8>) -> Option<Seq<Seq<Seq<u8>>>>;

/// Relies on csv::Reader::from_reader and Reader::records (csv 1.4, default
/// settings: a header row, the same number of fields in every row): the
/// records after the header row, read from `bytes` alone, or an error.
#[verifier::external_body]
fn read_csv_rows(bytes: &[u8]) -> (r: Option<Vec<Vec<Vec<u8>>>>)
    ensures
        r is None <==> csv_rows(bytes@) is None,
        r matches Some(rows) ==> {
            let v = csv_rows(bytes@)->0;
            &&& rows@.len() == v.len()
            &&& forall|i: int| 0 <= i < v.len() ==> (#[trigger] rows@[i])@.len() == v[i].len()
            &&& forall|i: int, j: int|
                0 <= i < v.len() && 0 <= j < v[i].len() ==> (#[trigger] rows@[i]@[j])@ == v[i][j]
        },
{
    let mut reader = csv::Reader::from_reader(bytes);
    let mut rows = Vec::new();
    for record in reader.records() {
        let record = record.ok()?;
        rows.push(record.iter().map(|f| f.as_bytes().to_vec()).collect());
    }
    Some(rows)
}

pub open spec fn is_digit(c: u8) -> bool {
    48 <= c <= 57
}

/// The value of the decimal digits `s`.
pub open spec fn digits_value(s: Seq<u8>) -> int
    decreases s.len(),
{
    if s.len() == 0 {
        0
    } else {
        digits_value(s.drop_last()) * 10 + (s.last() - 48)
    }
}

pub open spec fn all_digits(s: Seq<u8>) -> bool {
    s.len() > 0 && forall|i: int| 0 <= i < s.len() ==> is_digit(#[trigger] s[i])
}

/// The integer that `s` writes in decimal digits after an optional `+` or
/// `-` sign.
pub open spec fn decimal(s: Seq<u8>) -> Option<int> {
    if s.len() > 0 && (s[0] == 43 || s[0] == 45) && all_digits(s.drop_first()) {
        if s[0] == 45 {
            Some(-digits_value(s.drop_first()))
        } else {
            Some(digits_value(s.drop_first()))
        }
    } else if all_digits(s) {
        Some(digits_value(s))
    } else {
        None
    }
}

proof fn lemma_digits_grow(s: Seq<u8>, k: int)
    requires
        0 <= k <= s.len(),
        forall|i: int| 0 <= i < s.len() ==> is_digit(#[trigger] s[i]),
    ensures
        0 <= digits_value(s.subrange(0, k)) <= digits_value(s),
    decreases s.len() - k,
{
    if k < s.len() {
        let t = s.drop_last();
        assert(t.subrange(0, k) =~= s.subrange(0, k));
        assert forall|i: int| 0 <= i < t.len() implies is_digit(#[trigger] t[i]) by {
            assert(t[i] == s[i]);
        }
        lemma_digits_grow(t, k);
        lemma_digits_nonneg(t);
        assert(is_digit(s[s.len() - 1]));
    } else {
        assert(s.subrange(0, k) =~= s);
        lemma_digits_nonneg(s);
    }
}

proof fn lemma_digits_nonneg(s: Seq<u8>)
    requires
        forall|i: int| 0 <= i < s.len() ==> is_digit(#[trigger] s[i]),
    ensures
        digits_value(s) >= 0,
    decreases s.len(),
{
    if s.len() > 0 {
        let t = s.drop_last();
        assert forall|i: int| 0 <= i < t.len() implies is_digit(#[trigger] t[i]) by {
            assert(t[i] == s[i]);
        }
        lemma_digits_nonneg(t);
        assert(is_digit(s[s.len() - 1]));
    }
}

/// The integer that `s` writes in decimal, when it lies in `lo..=hi`.
pub fn parse_decimal(s: &[u8], lo: i32, hi: i32) -> (r: Option<i32>)
    requires
        lo <= 0 <= hi,
    ensures
        r matches Some(x) ==> decimal(s@) == Some(x as int) && lo <= x <= hi,
        r is None ==> decimal(s@) is None || !(lo <= decimal(s@)->0 <= hi),
{
    let n = s.len();
    let signed = n > 0 && (s[0] == 43u8 || s[0] == 45u8);
    let negative = n > 0 && s[0] == 45u8;
    let first: usize = if signed {
        1
    } else {
        0
    };
    let ghost ds = s@.subrange(first as int, n as int);
    if first >= n {
        assert(!all_digits(ds));
        proof {
            if signed {
                assert(s@.drop_first() =~= ds);
            } else {
                assert(s@ =~= ds);
            }
        }
        return None;
    }
    let limit: i64 = if negative {
        -(lo as i64)
    } else {
        hi as i64
    };
    let mut value: i64 = 0;
    let mut i: usize = first;
    while i < n
        invariant
            first <= i <= n,
            n == s@.len(),
            first == (if signed { 1usize } else { 0usize }),
            signed == (n > 0 && (s@[0] == 43 || s@[0] == 45)),
            negative == (n > 0 && s@[0] == 45),
            limit == (if negative { -(lo as int) } else { hi as int }),
            lo <= 0 <= hi,
            ds == s@.subrange(first as int, n as int),
            0 <= limit <= 0x8000_0000,
            0 <= value <= limit,
            value == digits_value(s@.subrange(first as int, i as int)),
            forall|k: int| first <= k < i ==> is_digit(#[trigger] s@[k]),
        decreases n - i,
    {
        let c = s[i];
        assert(s@.subrange(first as int, i + 1).drop_last() =~= s@.subrange(first as int, i as int));
        if c < 48u8 || c > 57u8 {
            proof {
                assert(!is_digit(ds[i - first]));
                assert(!all_digits(ds));
                if signed {
                    assert(s@.drop_first() =~= ds);
                } else {
                    assert(s@ =~= ds);
                    assert(!is_digit(s@[i as int]));
                }
            }
            return None;
        }
        let next = value * 10 + (c - 48u8) as i64;
        if next > limit {
            proof {
                if all_digits(ds) {
                    lemma_digits_grow(ds, i + 1 - first);
                    assert(ds.subrange(0, i + 1 - first) =~= s@.subrange(first as int, i + 1));
                }
                if signed {
                    assert(s@.drop_first() =~= ds);
                } else {
                    assert(s@ =~= ds);
                }
            }
            return None;
        }
        value = next;
        i = i + 1;
    }
    proof {
        assert(s@.subrange(first as int, i as int) =~= ds);
        assert(all_digits(ds));
        if signed {
            assert(s@.drop_first() =~= ds);
        } else {
            assert(s@ =~= ds);
        }
    }
    if negative {
        Some((-value) as i32)
    } else {
        Some(value as i32)
    }
}

/// Why a lexicon could not be read.
#[derive(Debug, Clone, Copy, PartialEq, Eq, Structural)]
pub enum LexiconError {
    /// The text is not well-formed CSV.
    Malformed,
    /// The row at this place (0 is the first after the header) lacks a field
    /// or holds an id or a cost out of range.
    BadRow(usize),
}

/// The token that a lexicon row's fields give: left id, right id and cost
/// in fields 1, 2 and 3.
pub open spec fn row_token(row: Seq<Seq<u8>>) -> Option<Token> {
    if row.len() < 4 {
        None
    } else {
        match (decimal(row[1]), decimal(row[2]), decimal(row[3])) {
            (Some(l), Some(r), Some(c)) => if 0 <= l <= 0xffff && 0 <= r <= 0xffff && -0x8000 <= c
                <= 0x7fff {
                Some(Token { left_id: l as u16, right_id: r as u16, cost: c as i16 })
            } else {
                None
            },
            _ => None,
        }
    }
}

/// The entries that lexicon rows give: for each row, its surface (field 0)
/// and its token.
pub fn lexicon_entries(rows: &Vec<Vec<Vec<u8>>>) -> (r: Result<Vec<(Vec<u8>, Token)>, LexiconError>)
    ensures
        r matches Ok(entries) ==> {
            &&& entries@.len() == rows@.len()
            &&& forall|i: int|
                0 <= i < rows@.len() ==> (#[trigger] entries@[i]).0@ == rows@[i]@[0]@ && row_token(
                    row_fields(rows@[i]),
                ) == Some(entries@[i].1)
        },
        r matches Err(e) ==> e matches LexiconError::BadRow(i) && {
            &&& i < rows@.len()
            &&& row_token(row_fields(rows@[i as int])) is None
            &&& forall|k: int| 0 <= k < i ==> (#[trigger] row_token(row_fields(rows@[k]))) is Some
        },
{
    let mut entries: Vec<(Vec<u8>, Token)> = Vec::new();
    let mut i: usize = 0;
    while i < rows.len()
        invariant
            i <= rows@.len(),
            entries@.len() == i,
            forall|k: int|
                0 <= k < i ==> (#[trigger] entries@[k]).0@ == rows@[k]@[0]@ && row_token(row_fields(rows@[k]))
                    == Some(entries@[k].1),
        decreases rows@.len() - i,
    {
        let row = &rows[i];
        let ghost f = row_fields(rows@[i as int]);
        assert forall|k: int| 0 <= k < i implies (#[trigger] row_token(row_fields(rows@[k]))) is Some by {
            assert(row_token(row_fields(rows@[k])) == Some(entries@[k].1));
        }
        if row.len() < 4 {
            return Err(LexiconError::BadRow(i));
        }
        let l = parse_decimal(row[1].as_slice(), 0, 0xffff);
        let r = parse_decimal(row[2].as_slice(), 0, 0xffff);
        let c = parse_decimal(row[3].as_slice(), -0x8000, 0x7fff);
        proof {
            assert(f[1] == row@[1]@);
            assert(f[2] == row@[2]@);
            assert(f[3] == row@[3]@);
        }
        match (l, r, c) {
            (Some(l), Some(r), Some(c)) => {
                let token = Token { left_id: l as u16, right_id: r as u16, cost: c as i16 };
                let surface = row[0].clone();
                assert(surface@ == row@[0]@);
                entries.push((surface, token));
            },
            _ => {
                return Err(LexiconError::BadRow(i));
            },
        }
        i = i + 1;
    }
    Ok(entries)
}

/// The fields of a row as bytes.
pub open spec fn row_fields(row: Vec<Vec<u8>>) -> Seq<Seq<u8>> {
    row@.map(|j: int, f: Vec<u8>| f@)
}

/// The entries of a lexicon: for each row after the header, its surface
/// (field 0) and its token.
pub fn parse_lexicon(bytes: &[u8]) -> (r: Result<Vec<(Vec<u8>, Token)>, LexiconError>)
    ensures
        r == Err::<Vec<(Vec<u8>, Token)>, LexiconError>(LexiconError::Malformed) <==> csv_rows(bytes@) is None,
        r matches Ok(entries) ==> {
            let rows = csv_rows(bytes@)->0;
            &&& entries@.len() == rows.len()
            &&& forall|i: int|
                0 <= i < rows.len() ==> (#[trigger] entries@[i]).0@ == rows[i][0] && row_token(rows[i]) == Some(
                    entries@[i].1,
                )
        },
        r matches Err(LexiconError::BadRow(i)) ==> {
            let rows = csv_rows(bytes@)->0;
            &&& i < rows.len()
            &&& row_token(rows[i as int]) is None
            &&& forall|k: int| 0 <= k < i ==> (#[trigger] row_token(rows[k])) is Some
        },
{
    let rows = match read_csv_rows(bytes) {
        Some(rows) => rows,
        None => {
            return Err(LexiconError::Malformed);
        },
    };
    let ghost v = csv_rows(bytes@)->0;
    assert forall|i: int| 0 <= i < v.len() implies #[trigger] row_fields(rows@[i]) == v[i] by {
        assert(row_fields(rows@[i]) =~= v[i]);
    }
    let r = lexicon_entries(&rows);
    proof {
        if let Err(LexiconError::BadRow(i)) = r {
            assert forall|k: int| 0 <= k < i implies (#[trigger] row_token(v[k])) is Some by {
                assert(row_fields(rows@[k]) == v[k]);
            }
        }
    }
    r
}

} // verus!
