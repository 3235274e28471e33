use vstd::prelude::*;

verus! {

/// The byte whose slot below a state marks that the state holds values.
pub const VALUE_BYTE: u8 = 255;

/// Entry `i` of `a`, or 0 when `i` lies outside it.
pub open spec fn entry(a: Seq<u32>, i: int) -> int {
    if 0 <= i < a.len() {
        a[i] as int
    } else {
        0
    }
}

/// The state reached from state `s` on byte `b`: `base[s] + b`, provided its
/// check entry names `s`.
pub open spec fn step(base: Seq<u32>, check: Seq<u32>, s: int, b: u8) -> Option<int> {
    let n = entry(base, s) + b as int;
    if 0 <= n < check.len() && check[n] as int == s {
        Some(n)
    } else {
        None
    }
}

/// The state reached from the root state 1 along `key`, if every step exists.
pub open spec fn walk(base: Seq<u32>, check: Seq<u32>, key: Seq<u8>) -> Option<int>
    decreases key.len(),
{
    if key.len() == 0 {
        Some(1)
    } else {
        match walk(base, check, key.drop_last()) {
            Some(s) => step(base, check, s, key.last()),
            None => None,
        }
    }
}

/// The start in the data array of the values that a terminal word points at.
pub open spec fn terminal_start(w: u32) -> int {
    (w >> 8u32) as int
}

/// How many values a terminal word points at: its low byte plus one, so that
/// one to 256 values can be recorded.
pub open spec fn terminal_count(w: u32) -> int {
    (w & 0xffu32) as int + 1
}

/// The values that state `s` holds: present when the slot `base[s] + 255`
/// is checked to `s`, and then read from the data array as its base word says.
pub open spec fn values_at<T>(base: Seq<u32>, check: Seq<u32>, data: Seq<T>, s: int) -> Option<
    Seq<T>,
> {
    let v = entry(base, s) + VALUE_BYTE as int;
    if 0 <= v < check.len() && check[v] as int == s {
        let w = entry(base, v) as u32;
        let lo = terminal_start(w);
        let hi = lo + terminal_count(w);
        if hi <= data.len() {
            Some(data.subrange(lo, hi))
        } else {
            None
        }
    } else {
        None
    }
}

/// The values that the double array holds under `key`.
pub open spec fn lookup<T>(base: Seq<u32>, check: Seq<u32>, data: Seq<T>, key: Seq<u8>) -> Option<
    Seq<T>,
> {
    match walk(base, check, key) {
        Some(s) => values_at(base, check, data, s),
        None => None,
    }
}

/// The terminal word for `count` values that start at `start` in the data
/// array.
pub open spec fn terminal_word(start: int, count: int) -> u32 {
    ((start as u32) << 8u32) | ((count - 1) as u32)
}

pub proof fn lemma_terminal_word(start: u32, count: u32)
    requires
        start < 0x100_0000,
        1 <= count <= 256,
    ensures
        terminal_start(terminal_word(start as int, count as int)) == start,
        terminal_count(terminal_word(start as int, count as int)) == count,
{
    let c = (count - 1) as u32;
    assert((((start << 8u32) | c) >> 8u32) == start && (((start << 8u32) | c) & 0xffu32) == c)
        by (bit_vector)
        requires
            start < 0x100_0000,
            c < 256,
    ;
}

} // verus!
