//! The matrix source: whitespace-separated text, `left_max right_max` on
//! the first line, then one `left_id right_id cost` per line.
use vstd::prelude::*;

use crate::dictionary::matrix_builder::{cell_index, lemma_cell_index, MatrixBuilder};
use crate::lexicon::{decimal, parse_decimal};

verus! {

/// ASCII whitespace: space, tab, line feed, vertical tab, form feed, carriage return.
pub open spec fn is_space(c: u8) -> bool {
    c == 32 || (9 <= c <= 13)
}

/// Splits `s` at each byte `sep` (or at runs of whitespace when `sep` is
/// `None`): the pieces finished so far and the piece being read.
pub open spec fn split_acc(s: Seq<u8>, sep: Option<u8>) -> (Seq<Seq<u8>>, Seq<u8>)
    decreases s.len(),
{
    if s.len() == 0 {
        (Seq::empty(), Seq::empty())
    } else {
        let (done, cur) = split_acc(s.drop_last(), sep);
        let c = s.last();
        let at_sep = match sep {
            Some(x) => c == x,
            None => is_space(c),
        };
        if at_sep {
            if sep is Some || cur.len() > 0 {
                (done.push(cur), Seq::empty())
            } else {
                (done, cur)
            }
        } else {
            (done, cur.push(c))
        }
    }
}

/// The lines of `s`, split at each line feed; a last line without one counts
/// when it is not empty.
pub open spec fn lines(s: Seq<u8>) -> Seq<Seq<u8>> {
    let (done, cur) = split_acc(s, Some(10u8));
    if cur.len() > 0 {
        done.push(cur)
    } else {
        done
    }
}

/// The fields of `s`: its maximal runs of bytes other than ASCII whitespace.
pub open spec fn fields(s: Seq<u8>) -> Seq<Seq<u8>> {
    let (done, cur) = split_acc(s, None);
    if cur.len() > 0 {
        done.push(cur)
    } else {
        done
    }
}

/// Splits `s` as `split_acc` does and finishes the last piece.
fn split(s: &[u8], sep: Option<u8>) -> (r: Vec<Vec<u8>>)
    requires
        sep is None || sep == Some(10u8),
    ensures
        sep is Some ==> r@.len() == lines(s@).len() && forall|i: int|
            0 <= i < r@.len() ==> (#[trigger] r@[i])@ == lines(s@)[i],
        sep is None ==> r@.len() == fields(s@).len() && forall|i: int|
            0 <= i < r@.len() ==> (#[trigger] r@[i])@ == fields(s@)[i],
{
    let mut done: Vec<Vec<u8>> = Vec::new();
    let mut cur: Vec<u8> = Vec::new();
    let mut i: usize = 0;
    while i < s.len()
        invariant
            i <= s@.len(),
            done@.len() == split_acc(s@.subrange(0, i as int), sep).0.len(),
            forall|k: int| 0 <= k < done@.len() ==> (#[trigger] done@[k])@ == split_acc(s@.subrange(0, i as int), sep).0[k],
            cur@ == split_acc(s@.subrange(0, i as int), sep).1,
        decreases s@.len() - i,
    {
        let c = s[i];
        assert(s@.subrange(0, i + 1).drop_last() =~= s@.subrange(0, i as int));
        let at_sep = match sep {
            Some(x) => c == x,
            None => c == 32u8 || (9u8 <= c && c <= 13u8),
        };
        if at_sep {
            if sep.is_some() || cur.len() > 0 {
                let piece = cur;
                done.push(piece);
                cur = Vec::new();
            }
        } else {
            cur.push(c);
        }
        i = i + 1;
    }
    assert(s@.subrange(0, i as int) =~= s@);
    if cur.len() > 0 {
        done.push(cur);
    }
    done
}

/// Why a matrix source could not be read.
#[derive(Debug, Clone, Copy, PartialEq, Eq, Structural)]
pub enum MatrixError {
    /// The first line does not hold two sizes.
    BadHeader,
    /// The matrix would not fit in memory.
    TooLarge,
    /// The line at this place (0 is the first) does not hold two ids inside
    /// the matrix and a 16-bit cost.
    BadLine(usize),
}

/// The largest size the source may give: context ids are 16-bit.
pub const MAX_SIZE: i32 = 0x1_0000;

/// The sizes that the first line gives.
pub open spec fn header_sizes(line: Seq<u8>) -> Option<(int, int)> {
    let f = fields(line);
    if f.len() < 2 {
        None
    } else {
        match (decimal(f[0]), decimal(f[1])) {
            (Some(l), Some(r)) => if 0 <= l <= MAX_SIZE && 0 <= r <= MAX_SIZE {
                Some((l, r))
            } else {
                None
            },
            _ => None,
        }
    }
}

/// The cell and cost that an entry line gives, for a matrix of the given
/// sizes.
pub open spec fn entry(line: Seq<u8>, rows: int, cols: int) -> Option<(int, int, i16)> {
    let f = fields(line);
    if f.len() < 3 {
        None
    } else {
        match (decimal(f[0]), decimal(f[1]), decimal(f[2])) {
            (Some(l), Some(r), Some(c)) => if 0 <= l < rows && 0 <= r < cols && -0x8000 <= c <= 0x7fff {
                Some((l, r, c as i16))
            } else {
                None
            },
            _ => None,
        }
    }
}

/// The cells of a `rows` by `cols` matrix after the entry lines `ls` are
/// applied in order to `cells`; blank lines are passed over.
pub open spec fn apply_lines(cells: Seq<i16>, ls: Seq<Seq<u8>>, rows: int, cols: int) -> Seq<i16>
    decreases ls.len(),
{
    if ls.len() == 0 {
        cells
    } else {
        let before = apply_lines(cells, ls.drop_last(), rows, cols);
        match entry(ls.last(), rows, cols) {
            Some((l, r, c)) => before.update(cell_index(l, r, cols), c),
            None => before,
        }
    }
}

/// Reads a matrix source.
pub fn parse_matrix(bytes: &[u8]) -> (r: Result<MatrixBuilder, MatrixError>)
    ensures
        r matches Ok(m) ==> {
            let ls = lines(bytes@);
            let (rows, cols) = header_sizes(ls[0])->0;
            &&& ls.len() >= 1
            &&& header_sizes(ls[0]) is Some
            &&& m.wf()
            &&& m.rows() == rows
            &&& m.cols() == cols
            &&& m.cells() == apply_lines(Seq::new((rows * cols) as nat, |i: int| 0i16), ls.drop_first(), rows, cols)
            &&& forall|i: int| 1 <= i < ls.len() ==> fields(#[trigger] ls[i]).len() == 0 || entry(ls[i], rows, cols) is Some
        },
        r == Err::<MatrixBuilder, MatrixError>(MatrixError::TooLarge) ==> {
            let (rows, cols) = header_sizes(lines(bytes@)[0])->0;
            &&& lines(bytes@).len() >= 1
            &&& header_sizes(lines(bytes@)[0]) is Some
            &&& rows * cols > usize::MAX
        },
        r == Err::<MatrixBuilder, MatrixError>(MatrixError::BadHeader) <==> lines(bytes@).len() == 0 || header_sizes(
            lines(bytes@)[0],
        ) is None,
        r matches Err(MatrixError::BadLine(i)) ==> {
            let ls = lines(bytes@);
            let (rows, cols) = header_sizes(ls[0])->0;
            &&& 1 <= i < ls.len()
            &&& fields(ls[i as int]).len() > 0
            &&& header_sizes(ls[0]) is Some
            &&& entry(ls[i as int], rows, cols) is None
        },
{
    let ls = split(bytes, Some(10u8));
    if ls.len() == 0 {
        return Err(MatrixError::BadHeader);
    }
    let head = split(ls[0].as_slice(), None);
    if head.len() < 2 {
        return Err(MatrixError::BadHeader);
    }
    let rows = parse_decimal(head[0].as_slice(), 0, MAX_SIZE);
    let cols = parse_decimal(head[1].as_slice(), 0, MAX_SIZE);
    let (rows, cols) = match (rows, cols) {
        (Some(rows), Some(cols)) => (rows as usize, cols as usize),
        _ => {
            return Err(MatrixError::BadHeader);
        },
    };
    assert((rows as u64) * (cols as u64) <= 0x1_0000u64 * 0x1_0000u64) by (nonlinear_arith)
        requires
            rows <= 0x1_0000,
            cols <= 0x1_0000,
    ;
    if (rows as u64) * (cols as u64) > usize::MAX as u64 {
        return Err(MatrixError::TooLarge);
    }
    let mut matrix = MatrixBuilder::new(rows, cols);
    let ghost ls_view = lines(bytes@);
    let ghost zero = Seq::new((rows * cols) as nat, |i: int| 0i16);
    assert(matrix.cells() =~= zero);
    let mut i: usize = 1;
    while i < ls.len()
        invariant
            1 <= i <= ls@.len(),
            ls@.len() == ls_view.len(),
            ls_view == lines(bytes@),
            forall|k: int| 0 <= k < ls@.len() ==> (#[trigger] ls@[k])@ == ls_view[k],
            header_sizes(ls_view[0]) == Some((rows as int, cols as int)),
            matrix.wf(),
            matrix.rows() == rows,
            matrix.cols() == cols,
            matrix.cells() == apply_lines(zero, ls_view.subrange(1, i as int), rows as int, cols as int),
            forall|k: int| 1 <= k < i ==> fields(#[trigger] ls_view[k]).len() == 0 || entry(ls_view[k], rows as int, cols as int) is Some,
        decreases ls@.len() - i,
    {
        let f = split(ls[i].as_slice(), None);
        assert(ls_view.subrange(1, i + 1).drop_last() =~= ls_view.subrange(1, i as int));
        if f.len() == 0 {
            proof {
                assert(entry(ls_view[i as int], rows as int, cols as int) is None);
            }
        } else {
            if f.len() < 3 {
                return Err(MatrixError::BadLine(i));
            }
            proof {
                assert(f@[0]@ == fields(ls_view[i as int])[0]);
                assert(f@[1]@ == fields(ls_view[i as int])[1]);
                assert(f@[2]@ == fields(ls_view[i as int])[2]);
            }
            let l = parse_decimal(f[0].as_slice(), 0, MAX_SIZE);
            let r = parse_decimal(f[1].as_slice(), 0, MAX_SIZE);
            let c = parse_decimal(f[2].as_slice(), -0x8000, 0x7fff);
            match (l, r, c) {
                (Some(l), Some(r), Some(c)) => {
                    if l as usize >= rows || r as usize >= cols {
                        return Err(MatrixError::BadLine(i));
                    }
                    matrix.set(l as usize, r as usize, c as i16);
                    proof {
                        assert(f@[0]@ == fields(ls_view[i as int])[0]);
                        assert(f@[1]@ == fields(ls_view[i as int])[1]);
                        assert(f@[2]@ == fields(ls_view[i as int])[2]);
                        assert(entry(ls_view[i as int], rows as int, cols as int) == Some((l as int, r as int, c as i16)));
                    }
                },
                _ => {
                    return Err(MatrixError::BadLine(i));
                },
            }
        }
        i = i + 1;
    }
    assert(ls_view.subrange(1, i as int) =~= ls_view.drop_first());
    Ok(matrix)
}

} // verus!
