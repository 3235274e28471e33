//! The dictionary container: a double array and a connection-cost matrix laid
//! out one after the other behind a fixed header, and the lookups over them.
use vstd::prelude::*;
use vstd::string::StringSliceAdditionalSpecFns;

pub mod bit_cache;
pub mod double_array;
pub mod matrix_builder;
pub mod record;
pub mod trie;

use self::double_array::{entry, lookup, step, values_at, walk, terminal_count, terminal_start, VALUE_BYTE};
use self::matrix_builder::MatrixBuilder;
use self::record::Record;

verus! {

/// The size in bytes of the header: ten 64-bit little-endian words.
pub const HEADER_SIZE: usize = 80;

/// The id that no row or column of the matrix has.
pub const UNKNOWN_CONTEXT: usize = 0xffff;

/// The bytes of the values of `s`, one after another.
pub open spec fn encode_seq<R: Record>(s: Seq<R>) -> Seq<u8>
    decreases s.len(),
{
    if s.len() == 0 {
        Seq::empty()
    } else {
        encode_seq(s.drop_last()) + s.last().to_bytes()
    }
}

/// The `n` values whose bytes start at `off` in `b`.
pub open spec fn decode_seq<R: Record>(b: Seq<u8>, off: int, n: int) -> Seq<R> {
    Seq::new(n as nat, |i: int| R::from_bytes(b.subrange(off + i * R::width(), off + (i + 1) * R::width())))
}

pub proof fn lemma_encode_seq<R: Record>(s: Seq<R>)
    ensures
        encode_seq(s).len() == s.len() * R::width(),
        forall|i: int|
            0 <= i < s.len() ==> #[trigger] encode_seq(s).subrange(i * R::width(), (i + 1) * R::width())
                == s[i].to_bytes(),
    decreases s.len(),
{
    let w = R::width() as int;
    if s.len() == 0 {
        assert(0 * w == 0) by (nonlinear_arith);
    } else {
        let t = s.drop_last();
        lemma_encode_seq(t);
        s.last().lemma_record();
        let n = s.len() as int;
        assert((n - 1) * w + w == n * w) by (nonlinear_arith);
        assert forall|i: int| 0 <= i < s.len() implies #[trigger] encode_seq(s).subrange(i * w, (i + 1) * w)
            == s[i].to_bytes() by {
            if i < n - 1 {
                assert((i + 1) * w <= (n - 1) * w) by (nonlinear_arith)
                    requires
                        i + 1 <= n - 1,
                        0 <= w,
                ;
                assert(0 <= i * w) by (nonlinear_arith)
                    requires
                        0 <= i,
                        0 <= w,
                ;
                assert(i * w + w == (i + 1) * w) by (nonlinear_arith);
                assert(encode_seq(s).subrange(i * w, (i + 1) * w) =~= encode_seq(t).subrange(i * w, (i + 1) * w));
            } else {
                assert(i * w + w == (i + 1) * w) by (nonlinear_arith);
                assert(encode_seq(s).subrange(i * w, (i + 1) * w) =~= s.last().to_bytes());
            }
        }
    }
}

/// Values written one after another read back as they were, wherever the
/// run stands among other bytes.
pub proof fn lemma_decode_encode<R: Record>(before: Seq<u8>, s: Seq<R>, after: Seq<u8>)
    ensures
        decode_seq::<R>(before + encode_seq(s) + after, before.len() as int, s.len() as int) == s,
{
    lemma_encode_seq(s);
    let w = R::width() as int;
    let b = before + encode_seq(s) + after;
    let p = before.len() as int;
    assert forall|i: int| 0 <= i < s.len() implies #[trigger] decode_seq::<R>(b, p, s.len() as int)[i] == s[i] by {
        assert((i + 1) * w <= s.len() * w) by (nonlinear_arith)
            requires
                i + 1 <= s.len(),
                0 <= w,
        ;
        assert(0 <= i * w) by (nonlinear_arith)
            requires
                0 <= i,
                0 <= w,
        ;
        assert(i * w + w == (i + 1) * w) by (nonlinear_arith);
        assert(b.subrange(p + i * w, p + (i + 1) * w) =~= encode_seq(s).subrange(i * w, (i + 1) * w));
        s[i].lemma_record();
    }
    assert(decode_seq::<R>(b, p, s.len() as int) =~= s);
}

/// Where each block of a dictionary file lies: byte offsets from the start,
/// element counts, and the matrix's dimensions.
#[derive(Debug, Clone, Copy, PartialEq, Eq, Structural)]
pub struct DictionaryHeader {
    pub base_idx: usize,
    pub check_idx: usize,
    pub data_idx: usize,
    pub matrix_idx: usize,
    pub base_len: usize,
    pub check_len: usize,
    pub data_len: usize,
    pub matrix_len: usize,
    pub matrix_left_max: usize,
    pub matrix_right_max: usize,
}

/// The header words of a file holding blocks of these lengths, the data
/// values taking `width` bytes each.
pub open spec fn header_words(
    base_len: int,
    check_len: int,
    data_len: int,
    width: int,
    matrix_len: int,
    left_max: int,
    right_max: int,
) -> Seq<u64> {
    let base_idx = HEADER_SIZE as int;
    let check_idx = base_idx + 4 * base_len;
    let data_idx = check_idx + 4 * check_len;
    let matrix_idx = data_idx + width * data_len;
    seq![
        base_idx as u64,
        check_idx as u64,
        data_idx as u64,
        matrix_idx as u64,
        base_len as u64,
        check_len as u64,
        data_len as u64,
        matrix_len as u64,
        left_max as u64,
        right_max as u64,
    ]
}

/// The bytes of a dictionary file: the header, then the base, check, data
/// and matrix blocks back to back.
pub open spec fn dictionary_bytes<T: Record>(
    base: Seq<u32>,
    check: Seq<u32>,
    data: Seq<T>,
    left_max: int,
    right_max: int,
    matrix: Seq<i16>,
) -> Seq<u8> {
    encode_seq(
        header_words(
            base.len() as int,
            check.len() as int,
            data.len() as int,
            T::width() as int,
            matrix.len() as int,
            left_max,
            right_max,
        ),
    ) + encode_seq(base) + encode_seq(check) + encode_seq(data) + encode_seq(matrix)
}

/// Header word `k` of `b`.
pub open spec fn header_word(b: Seq<u8>, k: int) -> int {
    decode_seq::<u64>(b, 0, 10)[k] as int
}

/// Whether the block of `header_word(b, len_word)` values of `width` bytes
/// at offset `header_word(b, off_word)` lies inside `b`.
pub open spec fn block_fits(b: Seq<u8>, off_word: int, len_word: int, width: int) -> bool {
    header_word(b, off_word) + header_word(b, len_word) * width <= b.len()
}

/// Whether `b` holds a header whose words fit in `usize` and whose four
/// blocks lie inside `b`.
pub open spec fn layout_ok<T: Record>(b: Seq<u8>) -> bool {
    &&& b.len() >= HEADER_SIZE
    &&& forall|k: int| 0 <= k < 10 ==> #[trigger] header_word(b, k) <= usize::MAX
    &&& block_fits(b, 0, 4, 4)
    &&& block_fits(b, 1, 5, 4)
    &&& block_fits(b, 2, 6, T::width() as int)
    &&& block_fits(b, 3, 7, 2)
}

/// The cost of connecting a right node with left id `l` after a left node
/// with right id `r`: the unknown id, or an id with no row or column, costs
/// `i16::MAX`.
pub open spec fn matrix_cost(matrix: Seq<i16>, left_max: int, right_max: int, l: int, r: int) -> i16 {
    if l == UNKNOWN_CONTEXT || r == UNKNOWN_CONTEXT || l >= left_max || r >= right_max || l * right_max
        + r >= matrix.len() {
        i16::MAX
    } else {
        matrix[l * right_max + r]
    }
}

/// A dictionary read from its bytes: the double array and the matrix.
pub struct DictionarySet<T> {
    pub header: DictionaryHeader,
    pub base_arr: Vec<u32>,
    pub check_arr: Vec<u32>,
    pub data_arr: Vec<T>,
    pub matrix: Vec<i16>,
}

/// Appends the bytes of each value of `s`.
fn write_seq<R: Record>(s: &[R], out: &mut Vec<u8>)
    ensures
        final(out)@ == old(out)@ + encode_seq(s@),
{
    let mut i: usize = 0;
    while i < s.len()
        invariant
            i <= s@.len(),
            out@ == old(out)@ + encode_seq(s@.subrange(0, i as int)),
        decreases s@.len() - i,
    {
        let ghost before = out@;
        s[i].write(out);
        proof {
            assert(s@.subrange(0, i + 1).drop_last() =~= s@.subrange(0, i as int));
            assert(out@ =~= old(out)@ + encode_seq(s@.subrange(0, i + 1)));
        }
        i = i + 1;
    }
    assert(s@.subrange(0, i as int) =~= s@);
}

/// The `n` values whose bytes start at `off` in `b`.
fn read_seq<R: Record>(b: &[u8], off: usize, n: usize) -> (r: Vec<R>)
    requires
        off + n * R::width() <= b@.len(),
    ensures
        r@ == decode_seq::<R>(b@, off as int, n as int),
{
    let w = R::byte_width();
    let _ = b.len();
    let mut out: Vec<R> = Vec::new();
    let mut i: usize = 0;
    let mut at: usize = off;
    while i < n
        invariant
            w == R::width(),
            b@.len() <= usize::MAX,
            i <= n,
            off + n * w <= b@.len(),
            at == off + i * w,
            out@ == decode_seq::<R>(b@, off as int, n as int).subrange(0, i as int),
        decreases n - i,
    {
        proof {
            assert(off + (i + 1) * w <= off + n * w) by (nonlinear_arith)
                requires
                    i + 1 <= n,
            ;
            assert((i + 1) * w == i * w + w) by (nonlinear_arith);
        }
        out.push(R::read(b, at));
        proof {
            assert(out@ =~= decode_seq::<R>(b@, off as int, n as int).subrange(0, i + 1));
        }
        at = at + w;
        i = i + 1;
    }
    assert(out@ =~= decode_seq::<R>(b@, off as int, n as int));
    out
}

/// Whether `off + len * width` stays within `limit`.
fn block_within(off: u64, len: u64, width: usize, limit: usize) -> (r: bool)
    requires
        width <= 8,
    ensures
        r == (off + len * width <= limit),
{
    assert((len as u128) * (width as u128) <= 0xffff_ffff_ffff_ffffu128 * 8) by (nonlinear_arith)
        requires
            width <= 8,
            len <= 0xffff_ffff_ffff_ffffu64,
    ;
    (off as u128) + (len as u128) * (width as u128) <= limit as u128
}

impl<T: Record> DictionarySet<T> {
    /// Lays out a double array and a matrix as the bytes of a dictionary file.
    pub fn serialize(base_arr: &[u32], check_arr: &[u32], data_arr: &[T], matrix: &MatrixBuilder) -> (r: Vec<u8>)
        requires
            HEADER_SIZE + 4 * base_arr@.len() + 4 * check_arr@.len() + T::width() * data_arr@.len() + 2
                * matrix.cells().len() <= usize::MAX,
        ensures
            r@ == dictionary_bytes(
                base_arr@,
                check_arr@,
                data_arr@,
                matrix.rows(),
                matrix.cols(),
                matrix.cells(),
            ),
    {
        let w = T::byte_width();
        let cells = matrix.get_matrix();
        let base_idx = HEADER_SIZE;
        let check_idx = base_idx + 4 * base_arr.len();
        let data_idx = check_idx + 4 * check_arr.len();
        let matrix_idx = data_idx + w * data_arr.len();
        let words: Vec<u64> = vec![
            base_idx as u64,
            check_idx as u64,
            data_idx as u64,
            matrix_idx as u64,
            base_arr.len() as u64,
            check_arr.len() as u64,
            data_arr.len() as u64,
            cells.len() as u64,
            matrix.get_left_max() as u64,
            matrix.get_right_max() as u64,
        ];
        let mut out: Vec<u8> = Vec::new();
        write_seq(words.as_slice(), &mut out);
        write_seq(base_arr, &mut out);
        write_seq(check_arr, &mut out);
        write_seq(data_arr, &mut out);
        write_seq(cells, &mut out);
        proof {
            let hw = header_words(
                base_arr@.len() as int,
                check_arr@.len() as int,
                data_arr@.len() as int,
                T::width() as int,
                matrix.cells().len() as int,
                matrix.rows(),
                matrix.cols(),
            );
            assert(words@ =~= hw);
            assert(out@ =~= dictionary_bytes(
                base_arr@,
                check_arr@,
                data_arr@,
                matrix.rows(),
                matrix.cols(),
                matrix.cells(),
            ));
        }
        out
    }

    /// Reads a dictionary from its bytes; `None` when the bytes hold no
    /// header or a block reaches past their end.
    #[verifier::spinoff_prover]
    #[verifier::rlimit(60)]
    pub fn new(bytes: &[u8]) -> (r: Option<DictionarySet<T>>)
        ensures
            r is Some <==> layout_ok::<T>(bytes@),
            r matches Some(d) ==> {
                &&& d.header.base_idx == header_word(bytes@, 0)
                &&& d.header.check_idx == header_word(bytes@, 1)
                &&& d.header.data_idx == header_word(bytes@, 2)
                &&& d.header.matrix_idx == header_word(bytes@, 3)
                &&& d.header.base_len == header_word(bytes@, 4)
                &&& d.header.check_len == header_word(bytes@, 5)
                &&& d.header.data_len == header_word(bytes@, 6)
                &&& d.header.matrix_len == header_word(bytes@, 7)
                &&& d.header.matrix_left_max == header_word(bytes@, 8)
                &&& d.header.matrix_right_max == header_word(bytes@, 9)
                &&& d.base_arr@ == decode_seq::<u32>(bytes@, header_word(bytes@, 0), header_word(bytes@, 4))
                &&& d.check_arr@ == decode_seq::<u32>(bytes@, header_word(bytes@, 1), header_word(bytes@, 5))
                &&& d.data_arr@ == decode_seq::<T>(bytes@, header_word(bytes@, 2), header_word(bytes@, 6))
                &&& d.matrix@ == decode_seq::<i16>(bytes@, header_word(bytes@, 3), header_word(bytes@, 7))
            },
    {
        if bytes.len() < HEADER_SIZE {
            return None;
        }
        let words: Vec<u64> = read_seq(bytes, 0, 10);
        assert(words@ == decode_seq::<u64>(bytes@, 0, 10));
        let mut k: usize = 0;
        while k < 10
            invariant
                k <= 10,
                bytes@.len() >= HEADER_SIZE,
                words@ == decode_seq::<u64>(bytes@, 0, 10),
                forall|j: int| 0 <= j < k ==> #[trigger] header_word(bytes@, j) <= usize::MAX,
            decreases 10 - k,
        {
            if words[k] > usize::MAX as u64 {
                assert(header_word(bytes@, k as int) > usize::MAX);
                return None;
            }
            k = k + 1;
        }
        let w = T::byte_width();
        let fits_base = block_within(words[0], words[4], 4, bytes.len());
        let fits_check = block_within(words[1], words[5], 4, bytes.len());
        let fits_data = block_within(words[2], words[6], w, bytes.len());
        let fits_matrix = block_within(words[3], words[7], 2, bytes.len());
        if !fits_base || !fits_check || !fits_data || !fits_matrix {
            return None;
        }
        proof {
            assert forall|j: int| 0 <= j < 10 implies words@[j] as int == #[trigger] header_word(bytes@, j)
                && words@[j] <= usize::MAX by {
                assert(words@ == decode_seq::<u64>(bytes@, 0, 10));
                assert(header_word(bytes@, j) <= usize::MAX);
            }
        }
        let header = DictionaryHeader {
            base_idx: words[0] as usize,
            check_idx: words[1] as usize,
            data_idx: words[2] as usize,
            matrix_idx: words[3] as usize,
            base_len: words[4] as usize,
            check_len: words[5] as usize,
            data_len: words[6] as usize,
            matrix_len: words[7] as usize,
            matrix_left_max: words[8] as usize,
            matrix_right_max: words[9] as usize,
        };
        assert(header.base_idx + header.base_len * 4 <= bytes@.len());
        assert(header.check_idx + header.check_len * 4 <= bytes@.len());
        assert(header.data_idx + header.data_len * T::width() <= bytes@.len());
        assert(header.matrix_idx + header.matrix_len * 2 <= bytes@.len());
        let base_arr: Vec<u32> = read_seq(bytes, header.base_idx, header.base_len);
        let check_arr: Vec<u32> = read_seq(bytes, header.check_idx, header.check_len);
        let data_arr: Vec<T> = read_seq(bytes, header.data_idx, header.data_len);
        let matrix: Vec<i16> = read_seq(bytes, header.matrix_idx, header.matrix_len);
        Some(DictionarySet { header, base_arr, check_arr, data_arr, matrix })
    }
}

/// A walk that fails on a prefix fails on the whole key.
pub proof fn lemma_walk_prefix(base: Seq<u32>, check: Seq<u32>, key: Seq<u8>, i: int)
    requires
        0 <= i <= key.len(),
        walk(base, check, key.subrange(0, i)) is None,
    ensures
        walk(base, check, key) is None,
    decreases key.len() - i,
{
    if i == key.len() {
        assert(key.subrange(0, i) =~= key);
    } else {
        let k2 = key.drop_last();
        assert(k2.subrange(0, i) =~= key.subrange(0, i));
        lemma_walk_prefix(base, check, k2, i);
    }
}

/// Entry `i` of `a`, or 0 when `i` lies outside it.
fn entry_at(a: &Vec<u32>, i: u64) -> (r: u64)
    ensures
        r == entry(a@, i as int),
{
    if i < a.len() as u64 {
        a[i as usize] as u64
    } else {
        0
    }
}

impl<T: Record> DictionarySet<T> {
    /// The state reached from state `s` on byte `b`.
    pub(crate) fn next_state(&self, s: usize, b: u8) -> (r: Option<usize>)
        ensures
            r matches Some(n) ==> step(self.base_arr@, self.check_arr@, s as int, b) == Some(n as int),
            r is None ==> step(self.base_arr@, self.check_arr@, s as int, b) is None,
    {
        let n = entry_at(&self.base_arr, s as u64) + b as u64;
        if n < self.check_arr.len() as u64 && self.check_arr[n as usize] as u64 == s as u64 {
            Some(n as usize)
        } else {
            None
        }
    }

    /// The values that state `s` holds.
    pub(crate) fn values_of_state(&self, s: usize) -> (r: Option<&[T]>)
        ensures
            r matches Some(v) ==> values_at(self.base_arr@, self.check_arr@, self.data_arr@, s as int) == Some(
                v@,
            ),
            r is None ==> values_at(self.base_arr@, self.check_arr@, self.data_arr@, s as int) is None,
    {
        let v = entry_at(&self.base_arr, s as u64) + VALUE_BYTE as u64;
        if v < self.check_arr.len() as u64 && self.check_arr[v as usize] as u64 == s as u64 {
            let w = entry_at(&self.base_arr, v) as u32;
            assert((w & 0xffu32) <= 255) by (bit_vector);
            let lo = (w >> 8u32) as usize;
            let count = ((w & 0xffu32) + 1) as usize;
            assert(lo == terminal_start(w) && count == terminal_count(w));
            if lo <= self.data_arr.len() && count <= self.data_arr.len() - lo {
                Some(vstd::slice::slice_subrange(self.data_arr.as_slice(), lo, lo + count))
            } else {
                None
            }
        } else {
            None
        }
    }

    /// The values stored under `key`, or `None` when the walk along its bytes
    /// fails or ends in a state without values.
    pub fn get_trie(&self, key: &str) -> (r: Option<&[T]>)
        ensures
            r matches Some(v) ==> lookup(self.base_arr@, self.check_arr@, self.data_arr@, key.spec_bytes())
                == Some(v@),
            r is None ==> lookup(self.base_arr@, self.check_arr@, self.data_arr@, key.spec_bytes()) is None,
    {
        let bytes = key.as_bytes();
        let mut idx: usize = 1;
        let mut i: usize = 0;
        while i < bytes.len()
            invariant
                i <= bytes@.len(),
                bytes@ == key.spec_bytes(),
                walk(self.base_arr@, self.check_arr@, bytes@.subrange(0, i as int)) == Some(idx as int),
            decreases bytes@.len() - i,
        {
            assert(bytes@.subrange(0, i + 1).drop_last() =~= bytes@.subrange(0, i as int));
            match self.next_state(idx, bytes[i]) {
                Some(n) => {
                    idx = n;
                },
                None => {
                    proof {
                        lemma_walk_prefix(self.base_arr@, self.check_arr@, bytes@, i + 1);
                    }
                    return None;
                },
            }
            i = i + 1;
        }
        assert(bytes@.subrange(0, i as int) =~= bytes@);
        self.values_of_state(idx)
    }

    /// Every prefix of `key` that holds values, shortest first, as its length
    /// in bytes and its values.
    pub fn prefix_search(&self, key: &str) -> (r: Vec<(usize, &[T])>)
        ensures
            forall|k: int|
                0 <= k < r@.len() ==> {
                    let (p, v) = #[trigger] r@[k];
                    &&& 1 <= p <= key.spec_bytes().len()
                    &&& lookup(
                        self.base_arr@,
                        self.check_arr@,
                        self.data_arr@,
                        key.spec_bytes().subrange(0, p as int),
                    ) == Some(v@)
                },
            forall|a: int, b: int| 0 <= a < b < r@.len() ==> (#[trigger] r@[a]).0 < (#[trigger] r@[b]).0,
            forall|p: int|
                1 <= p <= key.spec_bytes().len() && (#[trigger] lookup(
                    self.base_arr@,
                    self.check_arr@,
                    self.data_arr@,
                    key.spec_bytes().subrange(0, p),
                )) is Some ==> exists|k: int| 0 <= k < r@.len() && (#[trigger] r@[k]).0 == p,
    {
        let bytes = key.as_bytes();
        let ghost kb = key.spec_bytes();
        let mut ret: Vec<(usize, &[T])> = Vec::new();
        let mut idx: usize = 1;
        let mut i: usize = 0;
        while i < bytes.len()
            invariant
                i <= bytes@.len(),
                bytes@ == kb,
                kb == key.spec_bytes(),
                walk(self.base_arr@, self.check_arr@, kb.subrange(0, i as int)) == Some(idx as int),
                forall|k: int|
                    0 <= k < ret@.len() ==> {
                        let (p, v) = #[trigger] ret@[k];
                        &&& 1 <= p <= i
                        &&& lookup(self.base_arr@, self.check_arr@, self.data_arr@, kb.subrange(0, p as int))
                            == Some(v@)
                    },
                forall|a: int, b: int| 0 <= a < b < ret@.len() ==> (#[trigger] ret@[a]).0 < (#[trigger] ret@[b]).0,
                forall|p: int|
                    1 <= p <= i && (#[trigger] lookup(
                        self.base_arr@,
                        self.check_arr@,
                        self.data_arr@,
                        kb.subrange(0, p),
                    )) is Some ==> exists|k: int| 0 <= k < ret@.len() && (#[trigger] ret@[k]).0 == p,
            decreases bytes@.len() - i,
        {
            assert(kb.subrange(0, i + 1).drop_last() =~= kb.subrange(0, i as int));
            match self.next_state(idx, bytes[i]) {
                Some(n) => {
                    idx = n;
                },
                None => {
                    proof {
                        assert forall|p: int|
                            i + 1 <= p <= kb.len() implies #[trigger] lookup(
                                self.base_arr@,
                                self.check_arr@,
                                self.data_arr@,
                                kb.subrange(0, p),
                            ) is None by {
                            assert(kb.subrange(0, p).subrange(0, i + 1) =~= kb.subrange(0, i + 1));
                            lemma_walk_prefix(self.base_arr@, self.check_arr@, kb.subrange(0, p), i + 1);
                        }
                    }
                    return ret;
                },
            }
            let ghost before = ret@;
            match self.values_of_state(idx) {
                Some(v) => {
                    ret.push((i + 1, v));
                    proof {
                        assert(ret@[ret@.len() - 1].0 == i + 1 && ret@[ret@.len() - 1].1@ == v@);
                        assert forall|k: int| 0 <= k < before.len() implies ret@[k] == before[k] by {}
                    }
                },
                None => {},
            }
            i = i + 1;
        }
        ret
    }

    /// The cost of connecting a right node with left id `left_id` after a
    /// left node with right id `right_id`.
    pub fn get_matrix(&self, left_id: usize, right_id: usize) -> (r: i16)
        ensures
            r == matrix_cost(
                self.matrix@,
                self.header.matrix_left_max as int,
                self.header.matrix_right_max as int,
                left_id as int,
                right_id as int,
            ),
    {
        if left_id == UNKNOWN_CONTEXT || right_id == UNKNOWN_CONTEXT || left_id >= self.header.matrix_left_max
            || right_id >= self.header.matrix_right_max {
            return i16::MAX;
        }
        let l = left_id as u128;
        let cols = self.header.matrix_right_max as u128;
        assert(l * cols <= 0xffff_ffff_ffff_fffe_0000_0000_0000_0001u128) by (nonlinear_arith)
            requires
                l <= 0xffff_ffff_ffff_ffffu128,
                cols <= 0xffff_ffff_ffff_ffffu128,
        ;
        let at = l * cols + right_id as u128;
        if at >= self.matrix.len() as u128 {
            return i16::MAX;
        }
        self.matrix[at as usize]
    }
}

/// The bytes of a dictionary file are its header followed by its blocks.
#[verifier::spinoff_prover]
#[verifier::rlimit(100)]
proof fn lemma_dictionary_parts<T: Record>(
    base: Seq<u32>,
    check: Seq<u32>,
    data: Seq<T>,
    left_max: int,
    right_max: int,
    matrix: Seq<i16>,
)
    ensures
        ({
            let words = header_words(
                base.len() as int,
                check.len() as int,
                data.len() as int,
                T::width() as int,
                matrix.len() as int,
                left_max,
                right_max,
            );
            let b = dictionary_bytes(base, check, data, left_max, right_max, matrix);
            &&& encode_seq(words).len() == HEADER_SIZE
            &&& encode_seq(base).len() == 4 * base.len()
            &&& encode_seq(check).len() == 4 * check.len()
            &&& encode_seq(data).len() == T::width() * data.len()
            &&& encode_seq(matrix).len() == 2 * matrix.len()
            &&& decode_seq::<u64>(b, 0, 10) == words
            &&& decode_seq::<u32>(b, HEADER_SIZE as int, base.len() as int) == base
            &&& decode_seq::<u32>(b, HEADER_SIZE + encode_seq(base).len(), check.len() as int) == check
            &&& decode_seq::<T>(
                b,
                HEADER_SIZE + encode_seq(base).len() + encode_seq(check).len(),
                data.len() as int,
            ) == data
            &&& decode_seq::<i16>(
                b,
                HEADER_SIZE + encode_seq(base).len() + encode_seq(check).len() + encode_seq(data).len(),
                matrix.len() as int,
            ) == matrix
        }),
{
    let words = header_words(
        base.len() as int,
        check.len() as int,
        data.len() as int,
        T::width() as int,
        matrix.len() as int,
        left_max,
        right_max,
    );
    let eh = encode_seq(words);
    let eb = encode_seq(base);
    let ec = encode_seq(check);
    let ed = encode_seq(data);
    let em = encode_seq(matrix);
    lemma_encode_seq(words);
    lemma_encode_seq(base);
    lemma_encode_seq(check);
    lemma_encode_seq(data);
    lemma_encode_seq(matrix);
    let b = eh + eb + ec + ed + em;
    lemma_decode_encode::<u64>(Seq::empty(), words, eb + ec + ed + em);
    assert(Seq::<u8>::empty() + eh + (eb + ec + ed + em) =~= b);
    lemma_decode_encode::<u32>(eh, base, ec + ed + em);
    assert(eh + eb + (ec + ed + em) =~= b);
    lemma_decode_encode::<u32>(eh + eb, check, ed + em);
    assert(eh + eb + ec + (ed + em) =~= b);
    lemma_decode_encode::<T>(eh + eb + ec, data, em);
    lemma_decode_encode::<i16>(eh + eb + ec + ed, matrix, Seq::empty());
    assert(eh + eb + ec + ed + em + Seq::<u8>::empty() =~= b);
}

/// A dictionary file read back holds the header, arrays and matrix it was
/// written from.
#[verifier::rlimit(60)]
pub proof fn lemma_dictionary_round_trip<T: Record>(
    base: Seq<u32>,
    check: Seq<u32>,
    data: Seq<T>,
    left_max: int,
    right_max: int,
    matrix: Seq<i16>,
)
    requires
        HEADER_SIZE + 4 * base.len() + 4 * check.len() + T::width() * data.len() + 2 * matrix.len()
            <= usize::MAX,
        0 <= left_max <= usize::MAX,
        0 <= right_max <= usize::MAX,
    ensures
        ({
            let b = dictionary_bytes(base, check, data, left_max, right_max, matrix);
            &&& layout_ok::<T>(b)
            &&& header_word(b, 4) == base.len()
            &&& header_word(b, 5) == check.len()
            &&& header_word(b, 6) == data.len()
            &&& header_word(b, 7) == matrix.len()
            &&& header_word(b, 8) == left_max
            &&& header_word(b, 9) == right_max
            &&& decode_seq::<u32>(b, header_word(b, 0), header_word(b, 4)) == base
            &&& decode_seq::<u32>(b, header_word(b, 1), header_word(b, 5)) == check
            &&& decode_seq::<T>(b, header_word(b, 2), header_word(b, 6)) == data
            &&& decode_seq::<i16>(b, header_word(b, 3), header_word(b, 7)) == matrix
        }),
{
    lemma_dictionary_parts(base, check, data, left_max, right_max, matrix);
    T::lemma_width();
    let w = T::width() as int;
    assert(data.len() <= w * data.len()) by (nonlinear_arith)
        requires
            1 <= w,
    ;
    let words = header_words(
        base.len() as int,
        check.len() as int,
        data.len() as int,
        w,
        matrix.len() as int,
        left_max,
        right_max,
    );
    let b = dictionary_bytes(base, check, data, left_max, right_max, matrix);
    let lb = 4 * base.len();
    let lc = 4 * check.len();
    let ld = w * data.len();
    let lm = 2 * matrix.len();
    assert(b.len() == HEADER_SIZE + lb + lc + ld + lm);
    assert(header_word(b, 0) == words[0] as int);
    assert(words[0] as int == HEADER_SIZE);
    assert(header_word(b, 1) == HEADER_SIZE + lb);
    assert(header_word(b, 2) == HEADER_SIZE + lb + lc);
    assert(header_word(b, 3) == HEADER_SIZE + lb + lc + ld);
    assert(header_word(b, 4) == base.len());
    assert(header_word(b, 5) == check.len());
    assert(header_word(b, 6) == data.len());
    assert(header_word(b, 7) == matrix.len());
    assert(header_word(b, 8) == left_max);
    assert(header_word(b, 9) == right_max);
    assert(forall|k: int| 0 <= k < 10 ==> #[trigger] header_word(b, k) <= usize::MAX);
    assert(block_fits(b, 2, 6, w)) by {
        assert(data.len() * w == ld) by (nonlinear_arith)
            requires
                ld == w * data.len(),
        ;
    }
}

/// Every key inserted into a trie, once the trie is converted into a double
/// array, written to a dictionary file and read back, finds its values in
/// insertion order; a key that holds none finds nothing. Keys avoid the byte
/// 255, which no UTF-8 text holds.
pub proof fn lemma_trie_round_trip<T: Record>(
    t: self::trie::Trie<T>,
    base: Seq<u32>,
    check: Seq<u32>,
    data: Seq<T>,
    left_max: int,
    right_max: int,
    matrix: Seq<i16>,
    key: Seq<u8>,
)
    requires
        t.encoded_by(base, check, data),
        HEADER_SIZE + 4 * base.len() + 4 * check.len() + T::width() * data.len() + 2 * matrix.len()
            <= usize::MAX,
        0 <= left_max <= usize::MAX,
        0 <= right_max <= usize::MAX,
        !key.contains(VALUE_BYTE),
    ensures
        ({
            let b = dictionary_bytes(base, check, data, left_max, right_max, matrix);
            &&& layout_ok::<T>(b)
            &&& lookup(
                decode_seq::<u32>(b, header_word(b, 0), header_word(b, 4)),
                decode_seq::<u32>(b, header_word(b, 1), header_word(b, 5)),
                decode_seq::<T>(b, header_word(b, 2), header_word(b, 6)),
                key,
            ) == t.expected(key)
        }),
{
    lemma_dictionary_round_trip(base, check, data, left_max, right_max, matrix);
    assert(lookup(base, check, data, key) == t.expected(key));
}

/// A matrix written to a dictionary file and read back gives, for every
/// pair of ids inside it other than the unknown id, the cost it was built
/// with.
pub proof fn lemma_matrix_round_trip(m: MatrixBuilder, l: int, r: int)
    requires
        m.wf(),
        0 <= l < m.rows(),
        0 <= r < m.cols(),
        l != UNKNOWN_CONTEXT,
        r != UNKNOWN_CONTEXT,
    ensures
        matrix_cost(m.cells(), m.rows(), m.cols(), l, r) == m.cost(l, r),
{
    self::matrix_builder::lemma_cell_index(l, r, 0, 0, m.rows(), m.cols());
}

/// A connection with the unknown id on either side costs `i16::MAX`.
pub proof fn lemma_unknown_id(matrix: Seq<i16>, left_max: int, right_max: int, id: int)
    ensures
        matrix_cost(matrix, left_max, right_max, UNKNOWN_CONTEXT as int, id) == i16::MAX,
        matrix_cost(matrix, left_max, right_max, id, UNKNOWN_CONTEXT as int) == i16::MAX,
{
}

} // verus!
