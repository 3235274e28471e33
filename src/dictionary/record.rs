use vstd::prelude::*;

use crate::token::Token;

verus! {

/// The two little-endian bytes of `x`.
pub open spec fn u16_bytes(x: u16) -> Seq<u8> {
    seq![(x % 256) as u8, (x / 256) as u8]
}

/// The value of two little-endian bytes.
pub open spec fn u16_of(b: Seq<u8>) -> u16 {
    (b[0] as int + 256 * b[1] as int) as u16
}

pub open spec fn u32_bytes(x: u32) -> Seq<u8> {
    u16_bytes((x % 0x1_0000) as u16) + u16_bytes((x / 0x1_0000) as u16)
}

pub open spec fn u32_of(b: Seq<u8>) -> u32 {
    (u16_of(b.subrange(0, 2)) as int + 0x1_0000 * u16_of(b.subrange(2, 4)) as int) as u32
}

pub open spec fn u64_bytes(x: u64) -> Seq<u8> {
    u32_bytes((x % 0x1_0000_0000) as u32) + u32_bytes((x / 0x1_0000_0000) as u32)
}

pub open spec fn u64_of(b: Seq<u8>) -> u64 {
    (u32_of(b.subrange(0, 4)) as int + 0x1_0000_0000 * u32_of(b.subrange(4, 8)) as int) as u64
}

pub proof fn lemma_u16(x: u16)
    ensures
        u16_bytes(x).len() == 2,
        u16_of(u16_bytes(x)) == x,
{
}

pub proof fn lemma_u32(x: u32)
    ensures
        u32_bytes(x).len() == 4,
        u32_of(u32_bytes(x)) == x,
{
    let b = u32_bytes(x);
    lemma_u16((x % 0x1_0000) as u16);
    lemma_u16((x / 0x1_0000) as u16);
    assert(b.subrange(0, 2) =~= u16_bytes((x % 0x1_0000) as u16));
    assert(b.subrange(2, 4) =~= u16_bytes((x / 0x1_0000) as u16));
}

pub proof fn lemma_u64(x: u64)
    ensures
        u64_bytes(x).len() == 8,
        u64_of(u64_bytes(x)) == x,
{
    let b = u64_bytes(x);
    lemma_u32((x % 0x1_0000_0000) as u32);
    lemma_u32((x / 0x1_0000_0000) as u32);
    assert(b.subrange(0, 4) =~= u32_bytes((x % 0x1_0000_0000) as u32));
    assert(b.subrange(4, 8) =~= u32_bytes((x / 0x1_0000_0000) as u32));
}

/// A fixed-width value stored as little-endian bytes.
pub trait Record: Copy + Sized {
    /// How many bytes one value takes.
    spec fn width() -> nat;

    /// The bytes of a value.
    spec fn to_bytes(&self) -> Seq<u8>;

    /// The value that `width()` bytes encode.
    spec fn from_bytes(b: Seq<u8>) -> Self;

    proof fn lemma_record(&self)
        ensures
            self.to_bytes().len() == Self::width(),
            Self::from_bytes(self.to_bytes()) == *self,
    ;

    proof fn lemma_width()
        ensures
            1 <= Self::width() <= 8,
    ;

    fn byte_width() -> (r: usize)
        ensures
            r == Self::width(),
            1 <= r <= 8,
    ;

    /// The value whose bytes start at `at`.
    fn read(b: &[u8], at: usize) -> (r: Self)
        requires
            at + Self::width() <= b@.len(),
        ensures
            r == Self::from_bytes(b@.subrange(at as int, at + Self::width())),
    ;

    /// Appends the bytes of the value.
    fn write(&self, out: &mut Vec<u8>)
        ensures
            final(out)@ == old(out)@ + self.to_bytes(),
    ;
}

fn read_u16(b: &[u8], at: usize) -> (r: u16)
    requires
        at + 2 <= b@.len(),
    ensures
        r == u16_of(b@.subrange(at as int, at + 2)),
{
    b[at] as u16 + (b[at + 1] as u16) * 256
}

fn write_u16(x: u16, out: &mut Vec<u8>)
    ensures
        final(out)@ == old(out)@ + u16_bytes(x),
{
    out.push((x % 256) as u8);
    out.push((x / 256) as u8);
    assert(out@ =~= old(out)@ + u16_bytes(x));
}

fn read_u32(b: &[u8], at: usize) -> (r: u32)
    requires
        at + 4 <= b@.len(),
    ensures
        r == u32_of(b@.subrange(at as int, at + 4)),
{
    let _ = b.len();
    let lo = read_u16(b, at);
    let hi = read_u16(b, at + 2);
    assert(b@.subrange(at as int, at + 4).subrange(0, 2) =~= b@.subrange(at as int, at + 2));
    assert(b@.subrange(at as int, at + 4).subrange(2, 4) =~= b@.subrange(at + 2, at + 4));
    lo as u32 + (hi as u32) * 0x1_0000
}

fn write_u32(x: u32, out: &mut Vec<u8>)
    ensures
        final(out)@ == old(out)@ + u32_bytes(x),
{
    write_u16((x % 0x1_0000) as u16, out);
    write_u16((x / 0x1_0000) as u16, out);
    assert(out@ =~= old(out)@ + u32_bytes(x));
}

fn read_u64(b: &[u8], at: usize) -> (r: u64)
    requires
        at + 8 <= b@.len(),
    ensures
        r == u64_of(b@.subrange(at as int, at + 8)),
{
    let _ = b.len();
    let lo = read_u32(b, at);
    let hi = read_u32(b, at + 4);
    assert(b@.subrange(at as int, at + 8).subrange(0, 4) =~= b@.subrange(at as int, at + 4));
    assert(b@.subrange(at as int, at + 8).subrange(4, 8) =~= b@.subrange(at + 4, at + 8));
    lo as u64 + (hi as u64) * 0x1_0000_0000
}

fn write_u64(x: u64, out: &mut Vec<u8>)
    ensures
        final(out)@ == old(out)@ + u64_bytes(x),
{
    write_u32((x % 0x1_0000_0000) as u32, out);
    write_u32((x / 0x1_0000_0000) as u32, out);
    assert(out@ =~= old(out)@ + u64_bytes(x));
}

impl Record for u32 {
    open spec fn width() -> nat {
        4
    }

    open spec fn to_bytes(&self) -> Seq<u8> {
        u32_bytes(*self)
    }

    open spec fn from_bytes(b: Seq<u8>) -> u32 {
        u32_of(b)
    }

    proof fn lemma_record(&self) {
        lemma_u32(*self);
    }

    proof fn lemma_width() {
    }

    fn byte_width() -> (r: usize) {
        4
    }

    fn read(b: &[u8], at: usize) -> (r: u32) {
        read_u32(b, at)
    }

    fn write(&self, out: &mut Vec<u8>) {
        write_u32(*self, out);
    }
}

impl Record for u64 {
    open spec fn width() -> nat {
        8
    }

    open spec fn to_bytes(&self) -> Seq<u8> {
        u64_bytes(*self)
    }

    open spec fn from_bytes(b: Seq<u8>) -> u64 {
        u64_of(b)
    }

    proof fn lemma_record(&self) {
        lemma_u64(*self);
    }

    proof fn lemma_width() {
    }

    fn byte_width() -> (r: usize) {
        8
    }

    fn read(b: &[u8], at: usize) -> (r: u64) {
        read_u64(b, at)
    }

    fn write(&self, out: &mut Vec<u8>) {
        write_u64(*self, out);
    }
}

impl Record for i16 {
    open spec fn width() -> nat {
        2
    }

    open spec fn to_bytes(&self) -> Seq<u8> {
        u16_bytes(*self as u16)
    }

    open spec fn from_bytes(b: Seq<u8>) -> i16 {
        u16_of(b) as i16
    }

    proof fn lemma_record(&self) {
        let x = *self;
        lemma_u16(x as u16);
        assert((x as u16) as i16 == x) by (bit_vector);
    }

    proof fn lemma_width() {
    }

    fn byte_width() -> (r: usize) {
        2
    }

    fn read(b: &[u8], at: usize) -> (r: i16) {
        read_u16(b, at) as i16
    }

    fn write(&self, out: &mut Vec<u8>) {
        write_u16(*self as u16, out);
    }
}

impl Record for Token {
    open spec fn width() -> nat {
        6
    }

    open spec fn to_bytes(&self) -> Seq<u8> {
        u16_bytes(self.left_id) + u16_bytes(self.right_id) + u16_bytes(self.cost as u16)
    }

    open spec fn from_bytes(b: Seq<u8>) -> Token {
        Token {
            left_id: u16_of(b.subrange(0, 2)),
            right_id: u16_of(b.subrange(2, 4)),
            cost: u16_of(b.subrange(4, 6)) as i16,
        }
    }

    proof fn lemma_record(&self) {
        let b = self.to_bytes();
        lemma_u16(self.left_id);
        lemma_u16(self.right_id);
        lemma_u16(self.cost as u16);
        let c = self.cost;
        assert((c as u16) as i16 == c) by (bit_vector);
        assert(b.subrange(0, 2) =~= u16_bytes(self.left_id));
        assert(b.subrange(2, 4) =~= u16_bytes(self.right_id));
        assert(b.subrange(4, 6) =~= u16_bytes(self.cost as u16));
    }

    proof fn lemma_width() {
    }

    fn byte_width() -> (r: usize) {
        6
    }

    fn read(b: &[u8], at: usize) -> (r: Token) {
        let _ = b.len();
        let ghost s = b@.subrange(at as int, at + 6);
        let left_id = read_u16(b, at);
        let right_id = read_u16(b, at + 2);
        let cost = read_u16(b, at + 4) as i16;
        assert(s.subrange(0, 2) =~= b@.subrange(at as int, at + 2));
        assert(s.subrange(2, 4) =~= b@.subrange(at + 2, at + 4));
        assert(s.subrange(4, 6) =~= b@.subrange(at + 4, at + 6));
        Token { left_id, right_id, cost }
    }

    fn write(&self, out: &mut Vec<u8>) {
        write_u16(self.left_id, out);
        write_u16(self.right_id, out);
        write_u16(self.cost as u16, out);
        assert(out@ =~= old(out)@ + self.to_bytes());
    }
}

} // verus!
