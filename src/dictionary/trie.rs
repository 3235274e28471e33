use vstd::prelude::*;
use vstd::string::StringSliceAdditionalSpecFns;

use super::bit_cache::{BitCache, INITIAL_WORDS};
use super::double_array::{
    entry, lemma_terminal_word, lookup, step, terminal_word, values_at, walk, VALUE_BYTE,
};

verus! {

/// The most values one key can hold.
pub const MAX_VALUES_PER_KEY: usize = 256;

/// Why an insertion into a [`Trie`] was refused.
#[derive(Debug, Clone, Copy, PartialEq, Eq, Structural)]
pub enum TrieError {
    /// The key already holds the most values a key can hold.
    CapacityExceeded,
    /// A key holds the byte 255, which the double array reserves to mark
    /// the states that hold values.
    ReservedByte,
    /// The double array would need a slot or a data offset beyond what its
    /// 32-bit words can record.
    LayoutOverflow,
}

/// No byte of a UTF-8 encoded character is the reserved byte 255.
proof fn lemma_scalar_no_reserved(v: u32)
    ensures
        !vstd::utf8::encode_scalar(v).contains(VALUE_BYTE),
{
    let e = vstd::utf8::encode_scalar(v);
    assert(((v & 0x7F) as u8) != 255u8) by (bit_vector);
    assert((0xC0u8 | (((v >> 6u32) & 0x1F) as u8)) != 255u8) by (bit_vector);
    assert((0xE0u8 | (((v >> 12u32) & 0x0F) as u8)) != 255u8) by (bit_vector);
    assert((0xF0u8 | (((v >> 18u32) & 0x7) as u8)) != 255u8) by (bit_vector);
    assert((0x80u8 | ((v & 0x3F) as u8)) != 255u8) by (bit_vector);
    assert((0x80u8 | (((v >> 6u32) & 0x3F) as u8)) != 255u8) by (bit_vector);
    assert((0x80u8 | (((v >> 12u32) & 0x3F) as u8)) != 255u8) by (bit_vector);
    assert forall|i: int| 0 <= i < e.len() implies e[i] != VALUE_BYTE by {}
}

/// The UTF-8 encoding of any text avoids the reserved byte 255.
pub proof fn lemma_utf8_no_reserved(chars: Seq<char>)
    ensures
        !vstd::utf8::encode_utf8(chars).contains(VALUE_BYTE),
    decreases chars.len(),
{
    if chars.len() > 0 {
        let first = vstd::utf8::encode_scalar(chars[0] as u32);
        let rest = vstd::utf8::encode_utf8(chars.drop_first());
        lemma_scalar_no_reserved(chars[0] as u32);
        lemma_utf8_no_reserved(chars.drop_first());
        let e = vstd::utf8::encode_utf8(chars);
        assert(e == first + rest);
        assert forall|i: int| 0 <= i < e.len() implies e[i] != VALUE_BYTE by {
            if i < first.len() {
                assert(e[i] == first[i]);
            } else {
                assert(e[i] == rest[i - first.len()]);
            }
        }
    }
}

/// The values that `entries` give the key `k`, in order.
pub open spec fn values_under<T>(entries: Seq<(Vec<u8>, T)>, k: Seq<u8>) -> Seq<T>
    decreases entries.len(),
{
    if entries.len() == 0 {
        Seq::empty()
    } else {
        let rest = values_under(entries.drop_last(), k);
        if entries.last().0@ == k {
            rest.push(entries.last().1)
        } else {
            rest
        }
    }
}

/// The total length of the keys of `entries`.
pub open spec fn key_bytes<T>(entries: Seq<(Vec<u8>, T)>) -> int
    decreases entries.len(),
{
    if entries.len() == 0 {
        0
    } else {
        key_bytes(entries.drop_last()) + entries.last().0@.len()
    }
}

/// Whether `k` is a prefix of `key` no longer than `i` bytes.
pub open spec fn prefix_upto(k: Seq<u8>, key: Seq<u8>, i: int) -> bool {
    k.len() <= i && k.len() <= key.len() && k == key.subrange(0, k.len() as int)
}

/// Whether the bytes of `keys` rise strictly.
pub open spec fn bytes_ascending(keys: Seq<u8>) -> bool {
    forall|i: int, j: int| 0 <= i < j < keys.len() ==> keys[i] < keys[j]
}

/// Whether every slot `c + keys[i]` is free in `cache`.
pub open spec fn fits(cache: BitCache, keys: Seq<u8>, c: int) -> bool {
    forall|i: int| 0 <= i < keys.len() ==> !cache.has(c + #[trigger] keys[i])
}

/// The largest slot a double array can address.
pub const MAX_SLOT: usize = 0xffff_fe00;

/// The most values the data array can hold before an offset no longer fits
/// in the 24 high bits of a terminal word.
pub const MAX_DATA: usize = 0x100_0000;

/// Whether the keys of `nexts` rise strictly.
pub open spec fn keys_ascending(nexts: Seq<(u8, usize)>) -> bool {
    forall|i: int, j: int| 0 <= i < j < nexts.len() ==> (#[trigger] nexts[i]).0 < (#[trigger] nexts[j]).0
}

/// One node of the trie: the values of the key that leads to it and its
/// children, each as its byte and its place among the trie's nodes.
struct Node<T> {
    values: Vec<T>,
    nexts: Vec<(u8, usize)>,
}

/// A byte-keyed trie in which each key holds up to 256 values, kept in the
/// order they were inserted.
pub struct Trie<T> {
    nodes: Vec<Node<T>>,
    len: usize,
    /// The key that leads to each node.
    paths: Ghost<Seq<Seq<u8>>>,
    /// The node each key leads to.
    index: Ghost<Map<Seq<u8>, int>>,
}

/// The arrays of a double array under construction, with the slot given to
/// each trie node so far (0 while a node has none).
struct Builder<T> {
    base: Vec<u32>,
    check: Vec<u32>,
    data: Vec<T>,
    bit_cache: BitCache,
    states: Vec<usize>,
    /// Every taken slot lies below this mark.
    top: Ghost<int>,
}

impl<T: Copy> Trie<T> {
    /// The node whose child node `m` is.
    spec fn parent(&self, m: int) -> int {
        self.index@[self.paths@[m].drop_last()]
    }

    proof fn lemma_parent(&self, m: int)
        requires
            self.wf(),
            0 < m < self.nodes@.len(),
        ensures
            0 <= self.parent(m) < m,
            self.nodes@[self.parent(m)].nexts@.contains((self.paths@[m].last(), m as usize)),
    {
        let p = self.parent(m);
        let c = choose|c: int|
            0 <= c < self.nodes@[p].nexts@.len() && self.nodes@[p].nexts@[c] == (
                self.paths@[m].last(),
                m as usize,
            );
        assert(self.nodes@[p].nexts@[c].1 == m);
    }

    proof fn lemma_kids_distinct(&self, n: int, c1: int, c2: int)
        requires
            self.wf(),
            0 <= n < self.nodes@.len(),
            0 <= c1 < self.nodes@[n].nexts@.len(),
            0 <= c2 < self.nodes@[n].nexts@.len(),
            c1 != c2,
        ensures
            self.nodes@[n].nexts@[c1].1 != self.nodes@[n].nexts@[c2].1,
            self.nodes@[n].nexts@[c1].0 != self.nodes@[n].nexts@[c2].0,
    {
        let kids = self.nodes@[n].nexts@;
        if c1 < c2 {
            assert(kids[c1].0 < kids[c2].0);
        } else {
            assert(kids[c2].0 < kids[c1].0);
        }
        if kids[c1].1 == kids[c2].1 {
            assert(self.paths@[kids[c1].1 as int].last() == kids[c1].0);
            assert(self.paths@[kids[c2].1 as int].last() == kids[c2].0);
        }
    }

    proof fn lemma_child_parent(&self, n: int, c: int)
        requires
            self.wf(),
            0 <= n < self.nodes@.len(),
            0 <= c < self.nodes@[n].nexts@.len(),
        ensures
            self.parent(self.nodes@[n].nexts@[c].1 as int) == n,
    {
        let e = self.nodes@[n].nexts@[c];
        assert(self.paths@[e.1 as int].drop_last() =~= self.paths@[n]);
    }
}

impl<T: Copy> Builder<T> {
    spec fn placed(&self, m: int) -> bool {
        self.states@[m] != 0
    }

    spec fn st(&self, m: int) -> int {
        self.states@[m] as int
    }

    /// Node `m` of `t` is fully placed: its transitions, and nothing else,
    /// lead out of its state, and its values sit behind its terminal slot.
    spec fn node_ok(&self, t: Trie<T>, m: int) -> bool {
        let s = self.st(m);
        let kids = t.nodes@[m].nexts@;
        &&& forall|c: int|
            0 <= c < kids.len() ==> step(self.base@, self.check@, s, (#[trigger] kids[c]).0) == Some(
                self.st(kids[c].1 as int),
            )
        &&& forall|b: u8|
            b != VALUE_BYTE && (#[trigger] step(self.base@, self.check@, s, b)) is Some ==> exists|c: int|
                0 <= c < kids.len() && (#[trigger] kids[c]).0 == b
        &&& values_at(self.base@, self.check@, self.data@, s) == if t.nodes@[m].values@.len() > 0 {
            Some(t.nodes@[m].values@)
        } else {
            None
        }
        &&& t.nodes@[m].values@.len() > 0 ==> self.bit_cache.has(entry(self.base@, s) + 255)
        &&& t.nodes@[m].values@.len() == 0 ==> entry(self.check@, entry(self.base@, s) + 255) != s
        &&& kids.len() == 0 && t.nodes@[m].values@.len() == 0 ==> entry(self.base@, s) == 0
        &&& forall|c: int| 0 <= c < kids.len() ==> (#[trigger] kids[c]).0 != VALUE_BYTE
    }

    /// What holds at every point: sizes, and the slots of the placed nodes.
    spec fn common(&self, t: Trie<T>) -> bool {
        &&& t.wf()
        &&& self.states@.len() == t.nodes@.len()
        &&& self.base@.len() == self.check@.len()
        &&& 256 <= self.check@.len() <= MAX_SLOT + 256
        &&& self.bit_cache.wf()
        &&& self.placed(0) && self.st(0) == 1
        &&& forall|m: int|
            0 <= m < self.states@.len() && #[trigger] self.placed(m) ==> {
                &&& 1 <= self.st(m) < self.check@.len()
                &&& self.st(m) <= MAX_SLOT
                &&& self.bit_cache.has(self.st(m))
            }
        &&& forall|m1: int, m2: int|
            0 <= m1 < self.states@.len() && 0 <= m2 < self.states@.len() && #[trigger] self.placed(m1)
                && #[trigger] self.placed(m2) && self.st(m1) == self.st(m2) ==> m1 == m2
        &&& forall|i: int|
            !#[trigger] self.bit_cache.has(i) ==> entry(self.check@, i) == 0 && entry(self.base@, i) == 0
        &&& forall|i: int| 0 <= i < 256 ==> #[trigger] entry(self.check@, i) == 0
        &&& forall|i: int|
            #[trigger] entry(self.check@, i) == 0 || self.bit_cache.has(entry(self.check@, i))
        &&& forall|i: int| #[trigger] self.bit_cache.has(i) ==> i <= MAX_SLOT
    }

    /// Nodes below `n` are fully placed.
    spec fn done_below(&self, t: Trie<T>, n: int) -> bool {
        &&& forall|m: int| 0 <= m < n ==> #[trigger] self.node_ok(t, m)
        &&& forall|m: int, m2: int|
            0 <= m < n && 0 <= m2 < self.states@.len() && t.nodes@[m].values@.len() > 0
                && #[trigger] self.placed(m2) ==> self.st(m2) != entry(self.base@, #[trigger] self.st(m)) + 255
    }

    /// Placed nodes from `n` on have neither a base nor a slot checked to them.
    spec fn fresh_from(&self, t: Trie<T>, n: int) -> bool {
        &&& forall|m: int|
            n <= m < self.states@.len() && #[trigger] self.placed(m) ==> entry(self.base@, self.st(m)) == 0
        &&& forall|m: int, i: int|
            n <= m < self.states@.len() && #[trigger] self.placed(m) ==> #[trigger] entry(self.check@, i)
                != self.st(m)
    }

    /// The loop invariant between nodes: nodes below `n` are done, and a node
    /// is placed exactly when its parent is done.
    spec fn inv(&self, t: Trie<T>, n: int) -> bool {
        &&& self.common(t)
        &&& 0 <= n <= self.states@.len()
        &&& forall|m: int| 0 < m < self.states@.len() ==> (#[trigger] self.placed(m) <==> t.parent(m) < n)
        &&& self.done_below(t, n)
        &&& self.fresh_from(t, n)
    }

    /// Every taken slot lies below the mark, which is at most `bound`; the
    /// search window and the cache stay close to the mark; and every taken
    /// slot but the two reserved ones is checked to some state.
    spec fn room(&self, bound: int) -> bool {
        &&& 2 <= self.top@ <= bound
        &&& self.bit_cache.has(1)
        &&& forall|i: int| #[trigger] self.bit_cache.has(i) ==> 0 <= i < self.top@
        &&& self.bit_cache.window_start() <= self.top@ + 256
        &&& self.bit_cache.words().len() <= INITIAL_WORDS + self.top@
        &&& forall|i: int| #[trigger] self.bit_cache.has(i) ==> i <= 1 || entry(self.check@, i) != 0
        &&& forall|i: int|
            #[trigger] entry(self.check@, i) != 0 ==> 0 <= i - entry(self.base@, entry(self.check@, i)) <= 255
        &&& forall|i: int| #[trigger] entry(self.check@, i) != 0 ==> self.names_state(entry(self.check@, i))
        &&& forall|i: int| #[trigger] entry(self.base@, i) != 0 ==> i == 1 || entry(self.check@, i) != 0
    }

    /// Whether `s` is the slot of a placed node.
    spec fn names_state(&self, s: int) -> bool {
        exists|m: int| 0 <= m < self.states@.len() && #[trigger] self.placed(m) && self.st(m) == s
    }
}

/// A node that is done stays done while other slots are filled: only free
/// slots change, and the data array only grows.
proof fn lemma_node_ok_frame<T: Copy>(pre: Builder<T>, post: Builder<T>, t: Trie<T>, m: int)
    requires
        pre.node_ok(t, m),
        t.wf(),
        0 <= m < t.nodes@.len(),
        pre.states@.len() == t.nodes@.len(),
        post.states@.len() == t.nodes@.len(),
        pre.placed(m),
        forall|c: int|
            0 <= c < t.nodes@[m].nexts@.len() ==> pre.placed((#[trigger] t.nodes@[m].nexts@[c]).1 as int),
        forall|x: int| 0 <= x < pre.states@.len() && #[trigger] pre.placed(x) ==> post.states@[x] == pre.states@[x],
        entry(post.base@, pre.st(m)) == entry(pre.base@, pre.st(m)),
        t.nodes@[m].values@.len() > 0 ==> entry(post.base@, entry(pre.base@, pre.st(m)) + 255) == entry(
            pre.base@,
            entry(pre.base@, pre.st(m)) + 255,
        ),
        forall|x: int|
            #[trigger] entry(post.check@, x) == entry(pre.check@, x) || (entry(pre.check@, x) == 0
                && entry(post.check@, x) != pre.st(m)),
        forall|x: int| 0 <= x < post.check@.len() ==> #[trigger] post.check@[x] as int == entry(post.check@, x),
        forall|x: int| 0 <= x < pre.check@.len() ==> #[trigger] pre.check@[x] as int == entry(pre.check@, x),
        pre.data@.len() <= post.data@.len(),
        post.data@.subrange(0, pre.data@.len() as int) == pre.data@,
        forall|i: int| #[trigger] pre.bit_cache.has(i) ==> post.bit_cache.has(i),
        pre.st(m) >= 1,
    ensures
        post.node_ok(t, m),
{
    let s = pre.st(m);
    let kids = t.nodes@[m].nexts@;
    assert(post.st(m) == s);
    assert forall|c: int| 0 <= c < kids.len() implies step(post.base@, post.check@, s, (#[trigger] kids[c]).0) == Some(
        post.st(kids[c].1 as int),
    ) by {
        let x = entry(pre.base@, s) + kids[c].0 as int;
        assert(step(pre.base@, pre.check@, s, kids[c].0) == Some(pre.st(kids[c].1 as int)));
        assert(entry(pre.check@, x) == s);
        assert(entry(post.check@, x) == s);
        assert(0 <= x < post.check@.len());
        assert(pre.placed(kids[c].1 as int));
    }
    assert forall|b: u8|
        b != VALUE_BYTE && (#[trigger] step(post.base@, post.check@, s, b)) is Some implies exists|c: int|
            0 <= c < kids.len() && (#[trigger] kids[c]).0 == b by {
        let x = entry(pre.base@, s) + b as int;
        assert(entry(post.check@, x) == s);
        assert(entry(pre.check@, x) == s);
        assert(step(pre.base@, pre.check@, s, b) is Some);
    }
    let v = entry(pre.base@, s) + 255;
    assert(post.bit_cache.has(entry(post.base@, s) + 255) || t.nodes@[m].values@.len() == 0);
    if t.nodes@[m].values@.len() > 0 {
        assert(entry(pre.check@, v) == s);
        assert(entry(post.check@, v) == s);
        let w = entry(pre.base@, v) as u32;
        let lo = crate::dictionary::double_array::terminal_start(w);
        let hi = lo + crate::dictionary::double_array::terminal_count(w);
        assert(post.data@.subrange(lo, hi) =~= pre.data@.subrange(lo, hi));
        assert(values_at(post.base@, post.check@, post.data@, s) == values_at(pre.base@, pre.check@, pre.data@, s));
    } else {
        if 0 <= v < post.check@.len() && post.check@[v] as int == s {
            assert(entry(post.check@, v) == s);
            assert(entry(pre.check@, v) == s);
        }
        assert(values_at(post.base@, post.check@, post.data@, s) is None);
    }
}

/// Giving node `n` its base, in a free place, keeps every other node as it
/// was and starts the placement of its children.
#[verifier::spinoff_prover]
#[verifier::rlimit(100)]
proof fn lemma_start_node<T: Copy>(o: Builder<T>, post: Builder<T>, t: Trie<T>, n: int, bv: int)
    requires
        o.inv(t, n),
        0 <= n < o.states@.len(),
        o.placed(n),
        post.states@ == o.states@,
        post.bit_cache.wf(),
        forall|x: int| #[trigger] post.bit_cache.has(x) == o.bit_cache.has(x),
        forall|x: int| #[trigger] entry(post.check@, x) == entry(o.check@, x),
        post.check@.len() == post.base@.len(),
        o.check@.len() <= post.check@.len() <= MAX_SLOT + 256,
        forall|x: int| x != o.st(n) ==> #[trigger] entry(post.base@, x) == entry(o.base@, x),
        entry(post.base@, o.st(n)) == bv,
        post.data@ == o.data@,
        0 <= bv,
        bv + 256 <= post.check@.len(),
        bv + 255 <= MAX_SLOT,
        forall|c: int|
            0 <= c < t.nodes@[n].nexts@.len() ==> !o.bit_cache.has(bv + (#[trigger] t.nodes@[n].nexts@[c]).0),
        forall|c: int|
            0 <= c < t.nodes@[n].nexts@.len() ==> (#[trigger] t.nodes@[n].nexts@[c]).0 < VALUE_BYTE && bv
                + t.nodes@[n].nexts@[c].0 >= 256,
        t.nodes@[n].values@.len() > 0 ==> !o.bit_cache.has(bv + 255) && bv + 255 >= 256,
    ensures
        post.mid(t, n, bv, 0),
{
    let s = o.st(n);
    let kids = t.nodes@[n].nexts@;
    assert forall|m: int| 0 <= m < post.states@.len() && #[trigger] post.placed(m) implies {
        &&& 1 <= post.st(m) < post.check@.len()
        &&& post.st(m) <= MAX_SLOT
        &&& post.bit_cache.has(post.st(m))
    } by {
        assert(o.placed(m));
    }
    assert forall|m1: int, m2: int|
        0 <= m1 < post.states@.len() && 0 <= m2 < post.states@.len() && #[trigger] post.placed(m1)
            && #[trigger] post.placed(m2) && post.st(m1) == post.st(m2) implies m1 == m2 by {
        assert(o.placed(m1));
        assert(o.placed(m2));
    }
    assert forall|m: int|
        0 < m < post.states@.len() && t.parent(m) != n implies (#[trigger] post.placed(m) <==> t.parent(m) < n) by {
        assert(o.placed(m) <==> t.parent(m) < n);
    }
    assert(post.data@.subrange(0, o.data@.len() as int) =~= o.data@);
    assert forall|x: int| 0 <= x < post.check@.len() implies #[trigger] post.check@[x] as int == entry(post.check@, x) by {}
    assert forall|x: int| 0 <= x < o.check@.len() implies #[trigger] o.check@[x] as int == entry(o.check@, x) by {}
    assert forall|m: int| 0 <= m < n implies #[trigger] post.node_ok(t, m) by {
        assert(o.node_ok(t, m));
        assert(o.placed(m));
        assert forall|c: int| 0 <= c < t.nodes@[m].nexts@.len() implies o.placed((#[trigger] t.nodes@[m].nexts@[c]).1 as int) by {
            t.lemma_child_parent(m, c);
        }
        assert(o.st(m) != s);
        if t.nodes@[m].values@.len() > 0 {
            assert(o.st(n) != entry(o.base@, o.st(m)) + 255);
        }
        lemma_node_ok_frame(o, post, t, m);
    }
    assert forall|m: int, m2: int|
        0 <= m < n && 0 <= m2 < post.states@.len() && t.nodes@[m].values@.len() > 0
            && #[trigger] post.placed(m2) implies post.st(m2) != entry(post.base@, #[trigger] post.st(m)) + 255 by {
        assert(o.placed(m));
        assert(o.placed(m2));
        assert(o.st(m) != s);
        assert(o.st(m2) != entry(o.base@, o.st(m)) + 255);
    }
    assert forall|c: int| 0 <= c < kids.len() implies !(#[trigger] post.placed(kids[c].1 as int)) by {
        t.lemma_child_parent(n, c);
        assert(!o.placed(kids[c].1 as int));
    }
    assert forall|i: int| #[trigger] entry(post.check@, i) != s by {
        assert(entry(o.check@, i) != o.st(n));
    }
    assert forall|m: int|
        n + 1 <= m < post.states@.len() && #[trigger] post.placed(m) implies entry(post.base@, post.st(m)) == 0 by {
        assert(o.placed(m));
        assert(o.placed(n));
    }
    assert forall|m: int, i: int|
        n + 1 <= m < post.states@.len() && #[trigger] post.placed(m) implies #[trigger] entry(post.check@, i)
            != post.st(m) by {
        assert(o.placed(m));
    }
}

impl<T: Copy> Builder<T> {
    /// Node `n` has base `bv` and its first `j` children are placed.
    spec fn mid(&self, t: Trie<T>, n: int, bv: int, j: int) -> bool {
        let kids = t.nodes@[n].nexts@;
        let vals = t.nodes@[n].values@;
        let s = self.st(n);
        &&& self.common(t)
        &&& 0 <= n < self.states@.len()
        &&& self.placed(n)
        &&& 0 <= j <= kids.len()
        &&& 0 <= bv
        &&& bv + 256 <= self.check@.len()
        &&& bv + 255 <= MAX_SLOT
        &&& forall|c: int|
            0 <= c < kids.len() ==> (#[trigger] kids[c]).0 < VALUE_BYTE && bv + kids[c].0 >= 256
        &&& vals.len() > 0 ==> bv + 255 >= 256
        &&& forall|m: int|
            0 < m < self.states@.len() && t.parent(m) != n ==> (#[trigger] self.placed(m) <==> t.parent(m)
                < n)
        &&& forall|c: int| 0 <= c < kids.len() ==> (#[trigger] self.placed(kids[c].1 as int) <==> c < j)
        &&& forall|c: int| 0 <= c < j ==> #[trigger] self.st(kids[c].1 as int) == bv + kids[c].0
        &&& forall|c: int| 0 <= c < j ==> #[trigger] entry(self.check@, bv + kids[c].0) == s
        &&& forall|c: int| j <= c < kids.len() ==> !#[trigger] self.bit_cache.has(bv + kids[c].0)
        &&& vals.len() > 0 ==> !self.bit_cache.has(bv + 255)
        &&& forall|i: int|
            #[trigger] entry(self.check@, i) == s ==> exists|c: int|
                0 <= c < j && i == bv + (#[trigger] kids[c]).0
        &&& entry(self.base@, s) == bv
        &&& self.done_below(t, n)
        &&& self.fresh_from(t, n + 1)
    }

    /// Gives node `n` its base: the first one at which its children and its
    /// terminal slot are all free.
    #[verifier::rlimit(100)]
    #[verifier::spinoff_prover]
    fn start_node(&mut self, t: &Trie<T>, n: usize, keys: &Vec<u8>) -> (r: Result<usize, TrieError>)
        requires
            old(self).inv(*t, n as int),
            n < old(self).states@.len(),
            keys@.len() == t.nodes@[n as int].nexts@.len() + if t.nodes@[n as int].values@.len() > 0 {
                1int
            } else {
                0int
            },
            keys@.len() >= 1,
            forall|c: int|
                0 <= c < t.nodes@[n as int].nexts@.len() ==> #[trigger] keys@[c] == t.nodes@[n as int].nexts@[c].0,
            forall|c: int|
                0 <= c < t.nodes@[n as int].nexts@.len() ==> (#[trigger] t.nodes@[n as int].nexts@[c]).0 < VALUE_BYTE,
            t.nodes@[n as int].values@.len() > 0 ==> keys@[keys@.len() - 1] == VALUE_BYTE,
            bytes_ascending(keys@),
            old(self).room(2 + 512 * n),
        ensures
            r matches Ok(bv) ==> final(self).mid(*t, n as int, bv as int, 0),
            r matches Ok(bv) ==> final(self).room(2 + 512 * (n + 1)) && bv + 256 <= final(self).top@,
            final(self).data@ == old(self).data@,
            r is Err ==> r == Err::<usize, TrieError>(TrieError::LayoutOverflow),
            t.within_limits() ==> r is Ok,
    {
        let ghost kids = t.nodes@[n as int].nexts@;
        let ghost vals = t.nodes@[n as int].values@;
        proof {
            if n > 0 {
                t.lemma_parent(n as int);
            }
            assert(self.placed(n as int));
        }
        let s: usize = self.states[n];
        let ghost top = self.top@;
        self.bit_cache.update_start();
        proof {
            assert(n + 1 <= t.nodes@.len());
            assert(self.bit_cache.window_start() <= top + 256);
            if t.within_limits() {
                assert(self.bit_cache.words().len() <= INITIAL_WORDS + 2 + 512 * t.node_count());
            }
        }
        if self.bit_cache.word_count() > (usize::MAX - 512) / 256 {
            return Err(TrieError::LayoutOverflow);
        }
        let bv = Trie::<T>::find_base(keys.as_slice(), &self.bit_cache);
        proof {
            let lo = self.bit_cache.window_start();
            let k0 = keys@[0] as int;
            let c = (if lo >= top { lo } else { top }) - k0;
            if bv + k0 > c + k0 {
                assert(fits(self.bit_cache, keys@, c)) by {
                    assert forall|i: int| 0 <= i < keys@.len() implies !self.bit_cache.has(c + #[trigger] keys@[i]) by {
                        if i > 0 {
                            assert(keys@[0] < keys@[i]);
                        }
                    }
                }
            }
            assert(bv <= top + 256);
        }
        if bv > MAX_SLOT - 255 {
            return Err(TrieError::LayoutOverflow);
        }
        proof {
            assert forall|c: int| 0 <= c < kids.len() implies !self.bit_cache.has(bv + (#[trigger] kids[c]).0) by {
                assert(keys@[c] == kids[c].0);
            }
            assert forall|c: int| 0 <= c < keys@.len() implies bv + (#[trigger] keys@[c]) >= 256 by {
                if c > 0 {
                    assert(keys@[0] < keys@[c]);
                }
            }
            assert forall|c: int| 0 <= c < kids.len() implies bv + (#[trigger] kids[c]).0 >= 256 by {
                assert(keys@[c] == kids[c].0);
            }
            if vals.len() > 0 {
                assert(!self.bit_cache.has(bv + keys@[keys@.len() - 1]));
            }
        }
        let ghost pre = *self;
        self.base.set(s, bv as u32);
        let ghost mid = *self;
        if bv + 256 > self.check.len() {
            let len = self.check.len();
            let doubled = if len <= (MAX_SLOT + 256) / 2 {
                len * 2
            } else {
                MAX_SLOT + 256
            };
            let new_len = if doubled < bv + 256 {
                bv + 256
            } else {
                doubled
            };
            self.base.resize(new_len, 0u32);
            self.check.resize(new_len, 0u32);
            assert forall|x: int| #[trigger] entry(self.base@, x) == entry(mid.base@, x) by {
                if mid.base@.len() <= x < new_len {
                    assert(self.base@[x] == 0);
                }
            }
            assert forall|x: int| #[trigger] entry(self.check@, x) == entry(mid.check@, x) by {
                if mid.check@.len() <= x < new_len {
                    assert(self.check@[x] == 0);
                }
            }
        }
        proof {
            assert forall|x: int| #[trigger] entry(self.check@, x) == entry(old(self).check@, x) by {
                assert(entry(mid.check@, x) == entry(old(self).check@, x));
            }
            assert forall|x: int| x != s implies #[trigger] entry(self.base@, x) == entry(old(self).base@, x) by {
                assert(entry(mid.base@, x) == entry(old(self).base@, x));
            }
            self.top@ = if top >= bv + 256 { top } else { bv + 256 };
            lemma_start_node(*old(self), *self, *t, n as int, bv as int);
            assert(old(self).placed(n as int));
            assert forall|i: int| #[trigger] entry(self.check@, i) != 0 implies 0 <= i - entry(self.base@, entry(self.check@, i)) <= 255 by {
                assert(entry(old(self).check@, i) != old(self).st(n as int));
                assert(entry(old(self).check@, i) != 0);
            }
            lemma_names_state_kept(*old(self), *self);
            assert forall|i: int| #[trigger] entry(self.check@, i) != 0 implies self.names_state(entry(self.check@, i)) by {
                assert(entry(old(self).check@, i) != 0);
            }
            assert(old(self).bit_cache.has(s as int));
            assert forall|i: int| #[trigger] entry(self.base@, i) != 0 implies i == 1 || entry(self.check@, i) != 0 by {
                if i != s {
                    assert(entry(old(self).base@, i) != 0);
                }
            }
            assert forall|x: int| #[trigger] self.bit_cache.has(x) implies x <= 1 || entry(self.check@, x) != 0 by {
                assert(old(self).bit_cache.has(x));
            }
        }
        Ok(bv)
    }

    /// Places child `j` of node `n` at `bv` plus its byte.
    #[verifier::spinoff_prover]
    #[verifier::rlimit(100)]
    fn place_child(&mut self, t: &Trie<T>, n: usize, bv: usize, j: usize)
        requires
            old(self).mid(*t, n as int, bv as int, j as int),
            j < t.nodes@[n as int].nexts@.len(),
            old(self).room(2 + 512 * (n + 1)),
            bv + 256 <= old(self).top@,
        ensures
            final(self).mid(*t, n as int, bv as int, j + 1),
            final(self).room(2 + 512 * (n + 1)),
            final(self).top@ == old(self).top@,
            final(self).data@ == old(self).data@,
    {
        let ghost kids = t.nodes@[n as int].nexts@;
        let ghost vals = t.nodes@[n as int].values@;
        let ghost pre = *self;
        proof {
            t.lemma_child_parent(n as int, j as int);
            assert(self.placed(n as int));
        }
        let s: usize = self.states[n];
        let (k, m) = t.nodes[n].nexts[j];
        let i = bv + k as usize;
        proof {
            assert(!self.placed(m as int));
            assert(!pre.bit_cache.has(bv + kids[j as int].0));
            assert(entry(pre.check@, i as int) == 0);
        }
        self.bit_cache.set(i);
        self.check.set(i, s as u32);
        self.states.set(m, i);
        proof {
            assert(self.data@.subrange(0, pre.data@.len() as int) =~= pre.data@);
            assert(self.states@[m as int] == i);
            assert forall|x: int| #[trigger] self.bit_cache.has(x) == (pre.bit_cache.has(x) || x == i) by {}
            assert forall|x: int| #[trigger] entry(self.check@, x) == if x == i {
                s as int
            } else {
                entry(pre.check@, x)
            } by {}
            assert forall|x: int| 0 <= x < self.states@.len() && #[trigger] pre.placed(x) implies self.states@[x]
                == pre.states@[x] by {}
            assert forall|x: int| #[trigger] self.bit_cache.has(x) implies 0 <= x < self.top@ && (x <= 1 || entry(self.check@, x) != 0) by {
                if x != i {
                    assert(pre.bit_cache.has(x));
                }
            }
            assert(entry(self.base@, s as int) == bv);
            assert forall|x: int| #[trigger] entry(self.check@, x) != 0 implies 0 <= x - entry(self.base@, entry(self.check@, x)) <= 255 by {
                if x != i {
                    assert(entry(pre.check@, x) != 0);
                }
            }
            lemma_names_state_kept(pre, *self);
            assert(self.placed(n as int) && self.st(n as int) == s);
            assert forall|x: int| #[trigger] entry(self.check@, x) != 0 implies self.names_state(entry(self.check@, x)) by {
                if x != i {
                    assert(entry(pre.check@, x) != 0);
                    assert(pre.names_state(entry(pre.check@, x)));
                }
            }
            assert forall|x: int| #[trigger] entry(self.base@, x) != 0 implies x == 1 || entry(self.check@, x) != 0 by {
                assert(entry(pre.base@, x) != 0);
            }
            assert forall|x: int| 0 <= x < self.states@.len() && #[trigger] self.placed(x) implies {
                &&& 1 <= self.st(x) < self.check@.len()
                &&& self.st(x) <= MAX_SLOT
                &&& self.bit_cache.has(self.st(x))
            } by {
                if x != m as int {
                    assert(pre.placed(x));
                }
            }
            assert forall|m1: int, m2: int|
                0 <= m1 < self.states@.len() && 0 <= m2 < self.states@.len() && #[trigger] self.placed(m1)
                    && #[trigger] self.placed(m2) && self.st(m1) == self.st(m2) implies m1 == m2 by {
                if m1 != m as int {
                    assert(pre.placed(m1));
                }
                if m2 != m as int {
                    assert(pre.placed(m2));
                }
            }
            assert forall|m2: int| 0 <= m2 < n implies #[trigger] self.node_ok(*t, m2) by {
                assert(pre.node_ok(*t, m2));
                assert(pre.placed(m2));
                assert(pre.placed(n as int));
                assert(pre.st(m2) != s);
                assert forall|c: int| 0 <= c < t.nodes@[m2].nexts@.len() implies pre.placed((#[trigger] t.nodes@[m2].nexts@[c]).1 as int) by {
                    t.lemma_child_parent(m2, c);
                }
                lemma_node_ok_frame(pre, *self, *t, m2);
            }
            assert forall|c: int| j < c < kids.len() implies !#[trigger] self.bit_cache.has(bv + kids[c].0) by {
                assert(kids[j as int].0 < kids[c].0);
            }
            assert forall|c: int| 0 <= c < kids.len() implies (#[trigger] self.placed(kids[c].1 as int) <==> c < j + 1) by {
                if c != j {
                    assert(kids[c].0 != kids[j as int].0) by {
                        if c < j {
                            assert(kids[c].0 < kids[j as int].0);
                        } else {
                            assert(kids[j as int].0 < kids[c].0);
                        }
                    }
                    if kids[c].1 == kids[j as int].1 {
                        assert(t.paths@[kids[c].1 as int].last() == kids[c].0);
                        assert(t.paths@[kids[j as int].1 as int].last() == kids[j as int].0);
                    }
                    assert(self.states@[kids[c].1 as int] == pre.states@[kids[c].1 as int]);
                    assert(pre.placed(kids[c].1 as int) <==> c < j);
                } else {
                    assert(kids[c].1 == m);
                    assert(i >= 256);
                }
            }
            assert forall|c: int| 0 <= c < j + 1 implies #[trigger] self.st(kids[c].1 as int) == bv + kids[c].0 by {
                if c < j {
                    t.lemma_kids_distinct(n as int, c, j as int);
                    assert(pre.st(kids[c].1 as int) == bv + kids[c].0);
                } else {
                    assert(kids[c].1 == m && kids[c].0 == k);
                }
            }
            assert(pre.placed(n as int));
            assert(s != i);
            assert forall|m2: int|
                n + 1 <= m2 < self.states@.len() && #[trigger] self.placed(m2) implies entry(self.base@, self.st(m2)) == 0 by {
                if m2 != m as int {
                    assert(pre.placed(m2));
                }
            }
            assert forall|m2: int, x: int|
                n + 1 <= m2 < self.states@.len() && #[trigger] self.placed(m2) implies #[trigger] entry(self.check@, x)
                    != self.st(m2) by {
                if m2 != m as int {
                    assert(pre.placed(m2));
                } else if x != i {
                    if entry(pre.check@, x) != 0 {
                        assert(pre.bit_cache.has(entry(pre.check@, x)));
                    }
                }
            }
            assert forall|x: int|
                #[trigger] entry(self.check@, x) == s implies exists|c: int|
                    0 <= c < j + 1 && x == bv + (#[trigger] kids[c]).0 by {
                if x == i {
                    assert(kids[j as int].0 == k);
                } else {
                    assert(entry(pre.check@, x) == s);
                }
            }
            assert forall|m2: int| 0 < m2 < self.states@.len() && t.parent(m2) != n implies (#[trigger] self.placed(m2) <==> t.parent(m2) < n) by {
                assert(pre.placed(m2) <==> t.parent(m2) < n);
            }
            assert forall|m2: int, m3: int|
                0 <= m2 < n && 0 <= m3 < self.states@.len() && t.nodes@[m2].values@.len() > 0
                    && #[trigger] self.placed(m3) implies self.st(m3) != entry(self.base@, #[trigger] self.st(m2)) + 255 by {
                assert(pre.placed(m2));
                assert(pre.node_ok(*t, m2));
                if m3 != m as int {
                    assert(pre.placed(m3));
                }
            }
        }
    }
}

/// Placing the values of node `n` keeps the nodes before it done.
proof fn lemma_finish_frame<T: Copy>(pre: Builder<T>, post: Builder<T>, t: Trie<T>, n: int, bv: int)
    requires
        pre.mid(t, n, bv, t.nodes@[n].nexts@.len() as int),
        post.states@ == pre.states@,
        post.bit_cache.wf(),
        post.check@.len() == pre.check@.len(),
        post.base@.len() == pre.base@.len(),
        t.nodes@[n].values@.len() == 0 ==> post == pre,
        t.nodes@[n].values@.len() > 0 ==> {
            let i = bv + 255;
            &&& forall|x: int| #[trigger] post.bit_cache.has(x) == (pre.bit_cache.has(x) || x == i)
            &&& forall|x: int| #[trigger] entry(post.check@, x) == if x == i {
                pre.st(n)
            } else {
                entry(pre.check@, x)
            }
            &&& forall|x: int| x != i ==> #[trigger] entry(post.base@, x) == entry(pre.base@, x)
            &&& pre.data@.len() < MAX_DATA
            &&& entry(post.base@, i) == terminal_word(pre.data@.len() as int, t.nodes@[n].values@.len() as int) as int
            &&& post.data@ == pre.data@ + t.nodes@[n].values@
        },
    ensures
        forall|m: int| 0 <= m < n ==> #[trigger] post.node_ok(t, m),
{
    let vals = t.nodes@[n].values@;
    let s = pre.st(n);
    assert(pre.placed(n));
    assert forall|x: int| 0 <= x < post.check@.len() implies #[trigger] post.check@[x] as int == entry(post.check@, x) by {}
    assert forall|x: int| 0 <= x < pre.check@.len() implies #[trigger] pre.check@[x] as int == entry(pre.check@, x) by {}
    assert(post.data@.subrange(0, pre.data@.len() as int) =~= pre.data@);
    if vals.len() > 0 {
        let i = bv + 255;
        assert(!pre.bit_cache.has(i));
        assert(entry(pre.check@, i) == 0);
    }
    assert forall|m: int| 0 <= m < n implies #[trigger] post.node_ok(t, m) by {
        assert(pre.node_ok(t, m));
        assert(pre.placed(m));
        assert(pre.st(m) != s);
        assert forall|c: int| 0 <= c < t.nodes@[m].nexts@.len() implies pre.placed((#[trigger] t.nodes@[m].nexts@[c]).1 as int) by {
            t.lemma_child_parent(m, c);
        }
        if vals.len() > 0 {
            assert forall|x: int| 0 <= x < post.states@.len() && #[trigger] pre.placed(x) implies post.states@[x]
                == pre.states@[x] by {}
            lemma_node_ok_frame(pre, post, t, m);
        }
    }
}

/// A node whose children are all placed is done once its values are.
#[verifier::spinoff_prover]
#[verifier::rlimit(100)]
proof fn lemma_finish_node<T: Copy>(pre: Builder<T>, post: Builder<T>, t: Trie<T>, n: int, bv: int)
    requires
        t.nodes@[n].nexts@.len() > 0 || t.nodes@[n].values@.len() > 0,
        pre.mid(t, n, bv, t.nodes@[n].nexts@.len() as int),
        post.states@ == pre.states@,
        post.bit_cache.wf(),
        post.check@.len() == pre.check@.len(),
        post.base@.len() == pre.base@.len(),
        t.nodes@[n].values@.len() == 0 ==> post == pre,
        t.nodes@[n].values@.len() > 0 ==> {
            let i = bv + 255;
            &&& forall|x: int| #[trigger] post.bit_cache.has(x) == (pre.bit_cache.has(x) || x == i)
            &&& forall|x: int| #[trigger] entry(post.check@, x) == if x == i {
                pre.st(n)
            } else {
                entry(pre.check@, x)
            }
            &&& forall|x: int| x != i ==> #[trigger] entry(post.base@, x) == entry(pre.base@, x)
            &&& pre.data@.len() < MAX_DATA
            &&& entry(post.base@, i) == terminal_word(pre.data@.len() as int, t.nodes@[n].values@.len() as int) as int
            &&& post.data@ == pre.data@ + t.nodes@[n].values@
        },
    ensures
        post.inv(t, n + 1),
{
    let kids = t.nodes@[n].nexts@;
    let vals = t.nodes@[n].values@;
    let s = pre.st(n);
    let nc = kids.len() as int;
    assert(pre.placed(n));
    assert forall|x: int| 0 <= x < post.check@.len() implies #[trigger] post.check@[x] as int == entry(post.check@, x) by {}
    assert forall|x: int| 0 <= x < pre.check@.len() implies #[trigger] pre.check@[x] as int == entry(pre.check@, x) by {}
    assert(post.data@.subrange(0, pre.data@.len() as int) =~= pre.data@);
    assert forall|m: int| 0 <= m < post.states@.len() implies #[trigger] post.placed(m) == pre.placed(m) by {}
    if vals.len() > 0 {
        let i = bv + 255;
        assert(!pre.bit_cache.has(i));
        assert(entry(pre.check@, i) == 0);
        assert forall|m: int| 0 <= m < post.states@.len() && #[trigger] pre.placed(m) implies pre.st(m) != i by {}
    }
    lemma_finish_frame(pre, post, t, n, bv);
    // node `n` itself
    assert forall|c: int| 0 <= c < kids.len() implies step(post.base@, post.check@, s, (#[trigger] kids[c]).0) == Some(
        post.st(kids[c].1 as int),
    ) by {
        assert(pre.placed(kids[c].1 as int));
        assert(pre.st(kids[c].1 as int) == bv + kids[c].0);
        assert(entry(pre.check@, bv + kids[c].0) == s);
    }
    assert forall|b: u8|
        b != VALUE_BYTE && (#[trigger] step(post.base@, post.check@, s, b)) is Some implies exists|c: int|
            0 <= c < kids.len() && (#[trigger] kids[c]).0 == b by {
        assert(entry(post.check@, bv + b) == s);
        assert(entry(pre.check@, bv + b) == s);
        let c = choose|c: int| 0 <= c < nc && bv + b == bv + (#[trigger] kids[c]).0;
        assert(kids[c].0 == b);
    }
    if vals.len() > 0 {
        let i = bv + 255;
        let w = entry(post.base@, i) as u32;
        lemma_terminal_word(pre.data@.len() as u32, vals.len() as u32);
        assert(w == terminal_word(pre.data@.len() as int, vals.len() as int));
        assert(post.data@.subrange(pre.data@.len() as int, pre.data@.len() + vals.len() as int) =~= vals);
        assert(values_at(post.base@, post.check@, post.data@, s) == Some(vals));
    } else {
        assert(entry(pre.check@, bv + 255) != s) by {
            if entry(pre.check@, bv + 255) == s {
                let c = choose|c: int| 0 <= c < nc && bv + 255 == bv + (#[trigger] kids[c]).0;
                assert(kids[c].0 < VALUE_BYTE);
            }
        }
    }
    assert(post.node_ok(t, n));
    assert forall|m: int| 0 <= m < n + 1 implies #[trigger] post.node_ok(t, m) by {}
    assert forall|m: int, m2: int|
        0 <= m < n + 1 && 0 <= m2 < post.states@.len() && t.nodes@[m].values@.len() > 0
            && #[trigger] post.placed(m2) implies post.st(m2) != entry(post.base@, #[trigger] post.st(m)) + 255 by {
        assert(pre.placed(m2));
        if m < n {
            assert(pre.placed(m));
            assert(pre.node_ok(t, m));
            if vals.len() > 0 {
                assert(pre.st(m) != bv + 255);
            }
        }
    }
    assert forall|m: int| 0 < m < post.states@.len() implies (#[trigger] post.placed(m) <==> t.parent(m) < n + 1) by {
        if t.parent(m) == n {
            t.lemma_parent(m);
            let c = choose|c: int| 0 <= c < nc && kids[c] == (t.paths@[m].last(), m as usize);
            assert(pre.placed(kids[c].1 as int));
        } else {
            assert(pre.placed(m) <==> t.parent(m) < n);
        }
    }
    assert forall|m: int|
        n + 1 <= m < post.states@.len() && #[trigger] post.placed(m) implies entry(post.base@, post.st(m)) == 0 by {
        assert(pre.placed(m));
    }
    assert forall|m: int, x: int|
        n + 1 <= m < post.states@.len() && #[trigger] post.placed(m) implies #[trigger] entry(post.check@, x)
            != post.st(m) by {
        assert(pre.placed(m));
        assert(pre.placed(n));
    }
    assert forall|m: int| 0 <= m < post.states@.len() && #[trigger] post.placed(m) implies {
        &&& 1 <= post.st(m) < post.check@.len()
        &&& post.st(m) <= MAX_SLOT
        &&& post.bit_cache.has(post.st(m))
    } by {
        assert(pre.placed(m));
    }
    assert forall|m1: int, m2: int|
        0 <= m1 < post.states@.len() && 0 <= m2 < post.states@.len() && #[trigger] post.placed(m1)
            && #[trigger] post.placed(m2) && post.st(m1) == post.st(m2) implies m1 == m2 by {
        assert(pre.placed(m1));
        assert(pre.placed(m2));
    }
}

/// A node with neither children nor values keeps base 0, under which every
/// slot is checked to no one.
proof fn lemma_empty_node<T: Copy>(b: Builder<T>, t: Trie<T>, n: int)
    requires
        b.inv(t, n),
        0 <= n < b.states@.len(),
        t.nodes@[n].nexts@.len() == 0,
        t.nodes@[n].values@.len() == 0,
    ensures
        b.inv(t, n + 1),
{
    if n > 0 {
        t.lemma_parent(n);
    }
    assert(b.placed(n));
    let s = b.st(n);
    assert(entry(b.base@, s) == 0);
    assert forall|x: u8| #[trigger] step(b.base@, b.check@, s, x) is None by {
        assert(entry(b.check@, x as int) == 0);
    }
    assert(entry(b.check@, 255) == 0);
    assert(b.node_ok(t, n));
    assert forall|m: int| 0 <= m < n + 1 implies #[trigger] b.node_ok(t, m) by {}
    assert forall|m: int| 0 < m < b.states@.len() implies (#[trigger] b.placed(m) <==> t.parent(m) < n + 1) by {
        if t.parent(m) == n {
            t.lemma_parent(m);
            assert(t.nodes@[n].nexts@.contains((t.paths@[m].last(), m as usize)));
        }
    }
}

impl<T: Copy> Builder<T> {
    /// Places the values of node `n`, whose children are placed, behind its
    /// terminal slot.
    #[verifier::spinoff_prover]
    #[verifier::rlimit(100)]
    fn finish_node(&mut self, t: &Trie<T>, n: usize, bv: usize) -> (r: Result<(), TrieError>)
        requires
            old(self).mid(*t, n as int, bv as int, t.nodes@[n as int].nexts@.len() as int),
            t.nodes@[n as int].nexts@.len() > 0 || t.nodes@[n as int].values@.len() > 0,
            old(self).room(2 + 512 * (n + 1)),
            bv + 256 <= old(self).top@,
            old(self).data@ == t.values_before(n as int),
        ensures
            r is Ok ==> final(self).inv(*t, n + 1),
            r is Ok ==> final(self).room(2 + 512 * (n + 1)) && final(self).data@ == t.values_before(n + 1),
            r is Err ==> r == Err::<(), TrieError>(TrieError::LayoutOverflow),
            t.within_limits() ==> r is Ok,
    {
        let ghost pre = *self;
        let vals = &t.nodes[n].values;
        proof {
            assert(t.values_before(n + 1) == t.values_before(n as int) + vals@);
            if n + 1 < t.nodes@.len() {
                t.lemma_values_before(n as int, t.nodes@.len() as int);
            } else {
                assert(t.values_before(t.node_count()) == t.values_before(n + 1));
            }
        }
        if vals.len() > 0 {
            if self.data.len() >= MAX_DATA {
                return Err(TrieError::LayoutOverflow);
            }
            proof {
                assert(self.placed(n as int));
            }
            let s = self.states[n];
            let i = bv + 255;
            self.bit_cache.set(i);
            self.check.set(i, s as u32);
            let w = ((self.data.len() as u32) << 8u32) | ((vals.len() - 1) as u32);
            self.base.set(i, w);
            assert forall|x: int| #[trigger] entry(self.check@, x) == if x == i {
                s as int
            } else {
                entry(pre.check@, x)
            } by {}
            assert forall|x: int| x != i implies #[trigger] entry(self.base@, x) == entry(pre.base@, x) by {}
            assert(entry(self.base@, i as int) == w);
            let ghost b1 = *self;
            let mut k: usize = 0;
            while k < vals.len()
                invariant
                    k <= vals@.len(),
                    vals == t.nodes@[n as int].values,
                    self.data@ == pre.data@ + vals@.subrange(0, k as int),
                    self.base == b1.base,
                    self.check == b1.check,
                    self.bit_cache == b1.bit_cache,
                    self.states == b1.states,
                    self.top == b1.top,
                decreases vals@.len() - k,
            {
                self.data.push(vals[k]);
                assert(vals@.subrange(0, k + 1) =~= vals@.subrange(0, k as int).push(vals@[k as int]));
                k = k + 1;
            }
            assert(vals@.subrange(0, k as int) =~= vals@);
            assert forall|x: int| #[trigger] self.bit_cache.has(x) implies 0 <= x < self.top@ && (x <= 1 || entry(self.check@, x) != 0) by {
                if x != i {
                    assert(pre.bit_cache.has(x));
                }
            }
            assert(pre.placed(n as int));
            assert(entry(self.base@, s as int) == bv);
            assert forall|x: int| #[trigger] entry(self.check@, x) != 0 implies 0 <= x - entry(self.base@, entry(self.check@, x)) <= 255 by {
                if x != i {
                    assert(entry(pre.check@, x) != 0);
                    let v = entry(pre.check@, x);
                    assert(pre.bit_cache.has(v));
                    assert(v != i);
                }
            }
            assert(self.placed(n as int) && self.st(n as int) == s);
            assert forall|x: int| #[trigger] entry(self.check@, x) != 0 implies self.names_state(entry(self.check@, x)) by {
                if x != i {
                    assert(entry(pre.check@, x) != 0);
                    let m = choose|m: int| 0 <= m < pre.states@.len() && #[trigger] pre.placed(m) && pre.st(m) == entry(pre.check@, x);
                    assert(self.placed(m) && self.st(m) == entry(self.check@, x));
                }
            }
            assert forall|x: int| #[trigger] entry(self.base@, x) != 0 implies x == 1 || entry(self.check@, x) != 0 by {
                if x != i {
                    assert(entry(pre.base@, x) != 0);
                }
            }
        } else {
            assert(t.values_before(n + 1) =~= t.values_before(n as int));
        }
        proof {
            lemma_finish_node(pre, *self, *t, n as int, bv as int);
        }
        Ok(())
    }

    /// Places node `n`, whose parent is done.
    fn place_node(&mut self, t: &Trie<T>, n: usize) -> (r: Result<(), TrieError>)
        requires
            old(self).inv(*t, n as int),
            n < old(self).states@.len(),
            old(self).room(2 + 512 * n),
            old(self).data@ == t.values_before(n as int),
        ensures
            r is Ok ==> final(self).inv(*t, n + 1),
            r is Ok ==> final(self).room(2 + 512 * (n + 1)) && final(self).data@ == t.values_before(n + 1),
            r == Err::<(), TrieError>(TrieError::LayoutOverflow) ==> !t.within_limits(),
            r is Err ==> r == Err::<(), TrieError>(TrieError::ReservedByte) || r == Err::<(), TrieError>(
                TrieError::LayoutOverflow,
            ),
            r == Err::<(), TrieError>(TrieError::ReservedByte) ==> exists|c: int|
                0 <= c < t.nodes@[n as int].nexts@.len() && (#[trigger] t.nodes@[n as int].nexts@[c]).0
                    == VALUE_BYTE,
    {
        let kids = &t.nodes[n].nexts;
        let nc = kids.len();
        if nc > 0 && kids[nc - 1].0 == VALUE_BYTE {
            return Err(TrieError::ReservedByte);
        }
        proof {
            assert(keys_ascending(kids@));
            assert forall|c: int| 0 <= c < nc implies (#[trigger] kids@[c]).0 < VALUE_BYTE by {
                if c < nc - 1 {
                    assert(kids@[c].0 < kids@[nc - 1].0);
                }
            }
        }
        let has_values = t.nodes[n].values.len() > 0;
        if nc == 0 && !has_values {
            proof {
                lemma_empty_node(*self, *t, n as int);
                assert(t.values_before(n + 1) =~= t.values_before(n as int));
            }
            return Ok(());
        }
        let mut keys: Vec<u8> = Vec::new();
        let mut j: usize = 0;
        while j < nc
            invariant
                j <= nc,
                nc == kids@.len(),
                keys@.len() == j,
                forall|c: int| 0 <= c < j ==> #[trigger] keys@[c] == kids@[c].0,
            decreases nc - j,
        {
            keys.push(kids[j].0);
            j = j + 1;
        }
        if has_values {
            keys.push(VALUE_BYTE);
        }
        assert(bytes_ascending(keys@)) by {
            assert forall|a: int, b: int| 0 <= a < b < keys@.len() implies keys@[a] < keys@[b] by {
                if b < nc {
                    assert(kids@[a].0 < kids@[b].0);
                }
            }
        }
        let bv = match self.start_node(t, n, &keys) {
            Ok(bv) => bv,
            Err(e) => {
                return Err(e);
            },
        };
        let mut j: usize = 0;
        while j < nc
            invariant
                self.mid(*t, n as int, bv as int, j as int),
                nc == t.nodes@[n as int].nexts@.len(),
                self.room(2 + 512 * (n + 1)),
                bv + 256 <= self.top@,
                self.data@ == t.values_before(n as int),
            decreases nc - j,
        {
            self.place_child(t, n, bv, j);
            j = j + 1;
        }
        self.finish_node(t, n, bv)
    }
}

/// Once every node is done, walking a key that avoids the reserved byte
/// reaches exactly the state of the node the key leads to.
proof fn lemma_walk<T: Copy>(b: Builder<T>, t: Trie<T>, key: Seq<u8>)
    requires
        t.wf(),
        b.states@.len() == t.nodes@.len(),
        b.st(0) == 1,
        forall|m: int| 0 <= m < t.nodes@.len() ==> #[trigger] b.node_ok(t, m),
        !key.contains(VALUE_BYTE),
    ensures
        walk(b.base@, b.check@, key) == if t.index@.contains_key(key) {
            Some(b.st(t.index@[key]))
        } else {
            None::<int>
        },
    decreases key.len(),
{
    if key.len() == 0 {
        assert(t.paths@[0] == key);
    } else {
        let k2 = key.drop_last();
        let last = key.last();
        assert(!k2.contains(VALUE_BYTE)) by {
            if k2.contains(VALUE_BYTE) {
                let i = choose|i: int| 0 <= i < k2.len() && k2[i] == VALUE_BYTE;
                assert(key[i] == VALUE_BYTE);
            }
        }
        assert(last != VALUE_BYTE) by {
            assert(key[key.len() - 1] == last);
        }
        lemma_walk(b, t, k2);
        if t.index@.contains_key(key) {
            let m = t.index@[key];
            assert(t.paths@[m] == key);
            assert(m != 0) by {
                if m == 0 {
                    assert(t.paths@[0].len() == 0);
                }
            }
            t.lemma_parent(m);
            let p = t.parent(m);
            assert(t.index@.contains_key(k2));
            let c = choose|c: int|
                0 <= c < t.nodes@[p].nexts@.len() && t.nodes@[p].nexts@[c] == (last, m as usize);
            assert(b.node_ok(t, p));
            assert(t.nodes@[p].nexts@[c].0 == last);
        } else if t.index@.contains_key(k2) {
            let p = t.index@[k2];
            assert(b.node_ok(t, p));
            if step(b.base@, b.check@, b.st(p), last) is Some {
                let c = choose|c: int|
                    0 <= c < t.nodes@[p].nexts@.len() && (#[trigger] t.nodes@[p].nexts@[c]).0 == last;
                let e = t.nodes@[p].nexts@[c];
                assert(t.paths@[e.1 as int] == t.paths@[p].push(last));
                assert(t.paths@[p].push(last) =~= key);
                assert(t.index@.contains_key(t.paths@[e.1 as int]));
            }
        }
    }
}

/// Placed nodes keep their slots as others are placed.
proof fn lemma_names_state_kept<T: Copy>(pre: Builder<T>, post: Builder<T>)
    requires
        pre.states@.len() == post.states@.len(),
        forall|x: int| 0 <= x < pre.states@.len() && #[trigger] pre.placed(x) ==> post.states@[x] == pre.states@[x],
    ensures
        forall|v: int| #[trigger] pre.names_state(v) ==> post.names_state(v),
{
    assert forall|v: int| #[trigger] pre.names_state(v) implies post.names_state(v) by {
        let m = choose|m: int| 0 <= m < pre.states@.len() && #[trigger] pre.placed(m) && pre.st(m) == v;
        assert(post.placed(m) && post.st(m) == v);
    }
}

/// Once every node is done, no key of a node holds the reserved byte.
proof fn lemma_paths_clear<T: Copy>(b: Builder<T>, t: Trie<T>, m: int)
    requires
        t.wf(),
        b.states@.len() == t.nodes@.len(),
        forall|x: int| 0 <= x < t.nodes@.len() ==> #[trigger] b.node_ok(t, x),
        0 <= m < t.nodes@.len(),
    ensures
        !t.paths@[m].contains(VALUE_BYTE),
    decreases m,
{
    if m > 0 {
        t.lemma_parent(m);
        let p = t.parent(m);
        lemma_paths_clear(b, t, p);
        let kids = t.nodes@[p].nexts@;
        let c = choose|c: int| 0 <= c < kids.len() && kids[c] == (t.paths@[m].last(), m as usize);
        assert(b.node_ok(t, p));
        assert(kids[c].0 != VALUE_BYTE);
        assert(t.paths@[m] == t.paths@[p].push(kids[c].0));
        assert(t.paths@[m] =~= t.paths@[p].push(kids[c].0));
        if t.paths@[m].contains(VALUE_BYTE) {
            let x = choose|x: int| 0 <= x < t.paths@[m].len() && t.paths@[m][x] == VALUE_BYTE;
            if x < t.paths@[p].len() {
                assert(t.paths@[p][x] == VALUE_BYTE);
            }
        }
    } else {
        assert(t.paths@[0].len() == 0);
    }
}

/// The arrays cut to the last taken slot plus 256 still encode the trie,
/// and hold nothing but its transitions and values.
#[verifier::spinoff_prover]
#[verifier::rlimit(100)]
proof fn lemma_final_arrays<T: Copy>(done: Builder<T>, b: Builder<T>, t: Trie<T>, x: int)
    requires
        done.inv(t, t.nodes@.len() as int),
        done.room(2 + 512 * t.nodes@.len() as int),
        done.data@ == t.values_before(t.nodes@.len() as int),
        t.nodes@.len() == done.states@.len(),
        b.states == done.states,
        b.data == done.data,
        b.bit_cache == done.bit_cache,
        b.base@.len() == b.check@.len(),
        b.check@.len() == x + 256,
        done.bit_cache.has(x),
        x <= 1 || entry(done.check@, x) != 0,
        forall|y: int| x < y ==> !#[trigger] done.bit_cache.has(y),
        forall|y: int| #[trigger] entry(b.check@, y) == entry(done.check@, y),
        forall|y: int| #[trigger] entry(b.base@, y) == entry(done.base@, y),
    ensures
        t.encoded_by(b.base@, b.check@, b.data@),
        t.final_arrays(b.base@, b.check@, b.data@),
{
    assert forall|m: int| 0 <= m < t.nodes@.len() implies #[trigger] b.node_ok(t, m) by {
        assert(done.node_ok(t, m));
        assert(done.placed(m)) by {
            if m > 0 {
                t.lemma_parent(m);
            }
        }
        assert forall|c: int| 0 <= c < t.nodes@[m].nexts@.len() implies done.placed((#[trigger] t.nodes@[m].nexts@[c]).1 as int) by {
            t.lemma_child_parent(m, c);
        }
        assert forall|x: int| 0 <= x < b.check@.len() implies #[trigger] b.check@[x] as int == entry(b.check@, x) by {}
        assert forall|x: int| 0 <= x < done.check@.len() implies #[trigger] done.check@[x] as int == entry(done.check@, x) by {}
        assert(b.data@.subrange(0, done.data@.len() as int) =~= done.data@);
        lemma_node_ok_frame(done, b, t, m);
    }
    assert forall|i: int| b.check@.len() - 256 < i < b.check@.len() implies b.check@[i] == 0 by {
        assert(entry(b.check@, i) == entry(done.check@, i));
        assert(!done.bit_cache.has(i));
    }
    assert forall|key: Seq<u8>|
        !key.contains(VALUE_BYTE) && t.node_of(key) is Some && (forall|y: u8|
            step(b.base@, b.check@, walk(b.base@, b.check@, key)->0, y) is None) implies #[trigger] entry(
            b.base@,
            walk(b.base@, b.check@, key)->0,
        ) == 0 by {
        lemma_walk(b, t, key);
        let m = t.index@[key];
        let st = b.st(m);
        assert(b.node_ok(t, m));
        let kids = t.nodes@[m].nexts@;
        if kids.len() > 0 {
            assert(step(b.base@, b.check@, st, kids[0].0) is Some);
        }
        if t.nodes@[m].values@.len() > 0 {
            assert(values_at(b.base@, b.check@, b.data@, st) is Some);
            assert(step(b.base@, b.check@, st, VALUE_BYTE) is Some);
        }
    }
    assert(0 <= x < done.top@);
    assert(entry(b.check@, x) == entry(done.check@, x));
    assert(b.check@[b.check@.len() - 256] as int == entry(done.check@, x));
    assert(b.data@.len() == t.value_count());
    assert forall|m: int| 0 <= m < t.nodes@.len() implies !(#[trigger] t.paths@[m]).contains(VALUE_BYTE) by {
        lemma_paths_clear(b, t, m);
    }
    assert(!t.holds_reserved_byte()) by {
        if t.holds_reserved_byte() {
            let k = choose|k: Seq<u8>| #[trigger] t.node_of(k) is Some && k.contains(VALUE_BYTE);
            let m = t.index@[k];
            assert(t.paths@[m] == k);
        }
    }
    assert forall|i: int| 0 <= i < b.check@.len() && #[trigger] b.check@[i] != 0 implies exists|key: Seq<u8>|
        !key.contains(VALUE_BYTE) && t.node_of(key) is Some && #[trigger] walk(b.base@, b.check@, key)
            == Some(b.check@[i] as int) by {
        assert(entry(b.check@, i) == entry(done.check@, i));
        assert(entry(done.check@, i) != 0);
        assert(done.names_state(entry(done.check@, i)));
        let m = choose|m: int| 0 <= m < done.states@.len() && #[trigger] done.placed(m) && done.st(m) == entry(done.check@, i);
        let key = t.paths@[m];
        assert(!key.contains(VALUE_BYTE));
        lemma_walk(b, t, key);
        assert(t.index@[key] == m);
        assert(walk(b.base@, b.check@, key) == Some(b.check@[i] as int));
    }
    assert forall|i: int| 0 <= i < b.base@.len() && #[trigger] b.base@[i] != 0 implies i == 1 || b.check@[i] != 0 by {
        assert(entry(b.base@, i) == entry(done.base@, i));
        assert(entry(b.check@, i) == entry(done.check@, i));
    }
    assert forall|i: int| 0 <= i < b.check@.len() && b.check@[i] != 0 implies step(
        b.base@,
        b.check@,
        b.check@[i] as int,
        (i - entry(b.base@, b.check@[i] as int)) as u8,
    ) == Some(i) by {
        assert(entry(b.check@, i) == entry(done.check@, i));
        assert(entry(done.check@, i) != 0);
        let v = entry(done.check@, i);
        assert(entry(b.base@, v) == entry(done.base@, v));
    }
    assert forall|key: Seq<u8>, x: u8|
        !key.contains(VALUE_BYTE) && t.node_of(key) is Some implies walk(b.base@, b.check@, key) is Some && ((
        #[trigger] step(b.base@, b.check@, walk(b.base@, b.check@, key)->0, x)) is Some <==> (x != VALUE_BYTE
            && t.node_of(key.push(x)) is Some) || (x == VALUE_BYTE && t.values_of(key).len() > 0)) by {
        lemma_state_edges(b, t, key);
    }
    assert forall|key: Seq<u8>|
        !key.contains(VALUE_BYTE) && t.node_of(key) is Some implies #[trigger] entry(
            b.base@,
            walk(b.base@, b.check@, key)->0,
        ) + 255 < b.base@.len() by {
        lemma_walk(b, t, key);
        let m = t.index@[key];
        let st = b.st(m);
        assert(b.node_ok(t, m));
        if m > 0 {
            t.lemma_parent(m);
        }
        assert(done.placed(m));
        assert(st >= 1);
        let bv = entry(b.base@, st);
        let kids = t.nodes@[m].nexts@;
        if kids.len() > 0 {
            let k = kids[0].0 as int;
            assert(step(b.base@, b.check@, st, kids[0].0) is Some);
            assert(entry(b.check@, bv + k) == st);
            assert(entry(done.check@, bv + k) == st);
            assert(done.bit_cache.has(bv + k));
        } else if t.nodes@[m].values@.len() > 0 {
            assert(values_at(b.base@, b.check@, b.data@, st) is Some);
            assert(entry(b.check@, bv + 255) == st);
            assert(entry(done.check@, bv + 255) == st);
            assert(done.bit_cache.has(bv + 255));
        }
    }
    assert forall|key: Seq<u8>| !key.contains(VALUE_BYTE) implies #[trigger] lookup(b.base@, b.check@, b.data@, key) == t.expected(key) by {
        lemma_walk(b, t, key);
        if t.index@.contains_key(key) {
            assert(b.node_ok(t, t.index@[key]));
        }
    }
}

/// Once every node is done, the transitions out of the state of a key are
/// exactly its children, plus the value terminal when it holds values.
proof fn lemma_state_edges<T: Copy>(b: Builder<T>, t: Trie<T>, key: Seq<u8>)
    requires
        t.wf(),
        b.states@.len() == t.nodes@.len(),
        b.st(0) == 1,
        forall|m: int| 0 <= m < t.nodes@.len() ==> #[trigger] b.node_ok(t, m),
        !key.contains(VALUE_BYTE),
        t.index@.contains_key(key),
    ensures
        walk(b.base@, b.check@, key) is Some,
        forall|x: u8|
            (#[trigger] step(b.base@, b.check@, walk(b.base@, b.check@, key)->0, x)) is Some <==> (x
                != VALUE_BYTE && t.node_of(key.push(x)) is Some) || (x == VALUE_BYTE && t.values_of(key).len()
                > 0),
{
    lemma_walk(b, t, key);
    let n = t.index@[key];
    let s = b.st(n);
    assert(b.node_ok(t, n));
    let kids = t.nodes@[n].nexts@;
    assert forall|x: u8|
        (#[trigger] step(b.base@, b.check@, s, x)) is Some <==> (x != VALUE_BYTE && t.node_of(key.push(x)) is Some)
            || (x == VALUE_BYTE && t.values_of(key).len() > 0) by {
        if x != VALUE_BYTE {
            if step(b.base@, b.check@, s, x) is Some {
                let c = choose|c: int| 0 <= c < kids.len() && (#[trigger] kids[c]).0 == x;
                assert(t.paths@[kids[c].1 as int] == t.paths@[n].push(x));
                assert(t.index@.contains_key(t.paths@[kids[c].1 as int]));
            }
            if t.node_of(key.push(x)) is Some {
                let m = t.index@[key.push(x)];
                assert(t.paths@[m] == key.push(x));
                assert(m != 0) by {
                    if m == 0 {
                        assert(t.paths@[0].len() == 0);
                    }
                }
                t.lemma_parent(m);
                assert(key.push(x).drop_last() =~= key);
                let c = choose|c: int| 0 <= c < kids.len() && kids[c] == (x, m as usize);
                assert(kids[c].0 == x);
            }
        } else {
            assert(t.values_of(key) == t.nodes@[n].values@);
        }
    }
}

impl<T: Copy> Trie<T> {
    /// The number of nodes: the root and one for each distinct nonempty
    /// prefix of the keys given to `set`.
    pub closed spec fn node_count(&self) -> int {
        self.nodes@.len() as int
    }

    /// The values of the first `n` nodes, node after node.
    pub closed spec fn values_before(&self, n: int) -> Seq<T>
        decreases n,
    {
        if n <= 0 {
            Seq::empty()
        } else {
            self.values_before(n - 1) + self.nodes@[n - 1].values@
        }
    }

    /// The values of all keys, key after key in the order their nodes were
    /// made, each key's values in insertion order.
    pub closed spec fn all_values(&self) -> Seq<T> {
        self.values_before(self.node_count())
    }

    /// The number of values held under all keys together.
    pub closed spec fn value_count(&self) -> int {
        self.values_before(self.node_count()).len() as int
    }

    /// Whether the double array of this trie fits the limits of its 32-bit
    /// words and of the machine: every node can find its slots below
    /// `MAX_SLOT`, the data offsets fit in 24 bits, and the slot cache fits in
    /// memory.
    pub open spec fn within_limits(&self) -> bool {
        &&& 512 * self.node_count() + 256 <= MAX_SLOT
        &&& self.value_count() <= MAX_DATA
        &&& 256 * (INITIAL_WORDS + 2 + 512 * self.node_count()) + 512 <= usize::MAX
    }

    proof fn lemma_values_before_same(&self, other: Trie<T>, n: int)
        requires
            0 <= n,
            n <= self.nodes@.len(),
            n <= other.nodes@.len(),
            forall|m: int| 0 <= m < n ==> (#[trigger] self.nodes@[m]).values@ == other.nodes@[m].values@,
        ensures
            self.values_before(n) == other.values_before(n),
        decreases n,
    {
        if n > 0 {
            self.lemma_values_before_same(other, n - 1);
            assert(self.nodes@[n - 1].values@ == other.nodes@[n - 1].values@);
        }
    }

    proof fn lemma_values_before_push(&self, other: Trie<T>, cur: int, n: int)
        requires
            0 <= n <= self.nodes@.len(),
            self.nodes@.len() == other.nodes@.len(),
            0 <= cur < self.nodes@.len(),
            forall|m: int| 0 <= m < self.nodes@.len() && m != cur ==> (#[trigger] self.nodes@[m]).values@ == other.nodes@[m].values@,
            self.nodes@[cur].values@.len() == other.nodes@[cur].values@.len() + 1,
        ensures
            self.values_before(n).len() == other.values_before(n).len() + if cur < n { 1int } else { 0int },
        decreases n,
    {
        if n > 0 {
            self.lemma_values_before_push(other, cur, n - 1);
            if n - 1 != cur {
                assert(self.nodes@[n - 1].values@ == other.nodes@[n - 1].values@);
            }
        }
    }

    proof fn lemma_values_before(&self, n: int, m: int)
        requires
            0 <= n < m <= self.nodes@.len(),
        ensures
            self.values_before(n).len() + self.nodes@[n].values@.len() <= self.values_before(m).len(),
        decreases m - n,
    {
        if m > n + 1 {
            self.lemma_values_before(n, m - 1);
        }
    }

    pub closed spec fn node_values(&self, n: int) -> Seq<T> {
        self.nodes@[n].values@
    }

    /// The node that `key` leads to, if any.
    pub closed spec fn node_of(&self, key: Seq<u8>) -> Option<int> {
        if self.index@.contains_key(key) {
            Some(self.index@[key])
        } else {
            None
        }
    }

    /// The values held under `key`, in insertion order.
    pub open spec fn values_of(&self, key: Seq<u8>) -> Seq<T> {
        match self.node_of(key) {
            Some(n) => self.node_values(n),
            None => Seq::empty(),
        }
    }

    pub closed spec fn wf(&self) -> bool {
        &&& 1 <= self.nodes@.len() <= usize::MAX
        &&& self.paths@.len() == self.nodes@.len()
        &&& self.paths@[0] == Seq::<u8>::empty()
        &&& forall|n: int, c: int|
            0 <= n < self.nodes@.len() && 0 <= c < self.nodes@[n].nexts@.len() ==> {
                let e = #[trigger] self.nodes@[n].nexts@[c];
                &&& n < e.1 < self.nodes@.len()
                &&& self.paths@[e.1 as int] == self.paths@[n].push(e.0)
            }
        &&& forall|n: int| 0 <= n < self.nodes@.len() ==> keys_ascending(#[trigger] self.nodes@[n].nexts@)
        &&& forall|n: int| 0 <= n < self.nodes@.len() ==> (#[trigger] self.nodes@[n]).values@.len() <= 256
        &&& forall|n: int|
            0 <= n < self.nodes@.len() ==> self.index@.contains_key(#[trigger] self.paths@[n])
                && self.index@[self.paths@[n]] == n
        &&& forall|k: Seq<u8>|
            #[trigger] self.index@.contains_key(k) ==> 0 <= self.index@[k] < self.nodes@.len()
                && self.paths@[self.index@[k]] == k
        &&& forall|m: int|
            0 < m < self.nodes@.len() ==> {
                let p = #[trigger] self.paths@[m];
                &&& p.len() > 0
                &&& self.index@.contains_key(p.drop_last())
                &&& self.nodes@[self.index@[p.drop_last()]].nexts@.contains((p.last(), m as usize))
            }
    }

    /// Every prefix of a key that leads to a node leads to a node too.
    proof fn lemma_prefix_closed(&self, key: Seq<u8>, i: int)
        requires
            self.wf(),
            self.index@.contains_key(key),
            0 <= i <= key.len(),
        ensures
            self.index@.contains_key(key.subrange(0, i)),
        decreases key.len() - i,
    {
        if i < key.len() {
            let m = self.index@[key];
            assert(m != 0) by {
                if m == 0 {
                    assert(self.paths@[0] == key);
                }
            }
            let parent = key.drop_last();
            assert(self.paths@[m] == key);
            self.lemma_prefix_closed(parent, i);
            assert(parent.subrange(0, i) =~= key.subrange(0, i));
        } else {
            assert(key.subrange(0, i) =~= key);
        }
    }

    /// An empty trie.
    pub fn new() -> (r: Trie<T>)
        ensures
            r.wf(),
            forall|key: Seq<u8>| r.values_of(key) == Seq::<T>::empty(),
            r.node_count() == 1,
            r.value_count() == 0,
            !r.holds_reserved_byte(),
            forall|key: Seq<u8>| #[trigger] r.node_of(key) is Some <==> key.len() == 0,
    {
        let root = Node { values: Vec::new(), nexts: Vec::new() };
        let mut nodes: Vec<Node<T>> = Vec::new();
        nodes.push(root);
        let ghost paths = seq![Seq::<u8>::empty()];
        let ghost index = Map::<Seq<u8>, int>::empty().insert(Seq::<u8>::empty(), 0);
        let r = Trie { nodes, len: 0, paths: Ghost(paths), index: Ghost(index) };
        assert forall|key: Seq<u8>| r.values_of(key) == Seq::<T>::empty() by {
            if r.index@.contains_key(key) {
                assert(key == Seq::<u8>::empty());
            }
        }
        assert forall|key: Seq<u8>| #[trigger] r.node_of(key) is Some <==> key.len() == 0 by {
            if key.len() == 0 {
                assert(key =~= Seq::<u8>::empty());
            }
        }
        assert(r.values_before(0) =~= Seq::<T>::empty());
        assert(r.values_before(1) =~= Seq::<T>::empty());
        assert(!r.holds_reserved_byte()) by {
            if r.holds_reserved_byte() {
                let k = choose|k: Seq<u8>| #[trigger] r.node_of(k) is Some && k.contains(VALUE_BYTE);
                assert(k == Seq::<u8>::empty());
            }
        }
        r
    }

    /// Adds `value` after the values already held under `key`; a key holds
    /// at most 256 values.
    pub fn set(&mut self, key: &str, value: T) -> (r: Result<(), TrieError>)
        requires
            old(self).wf(),
        ensures
            final(self).wf(),
            r is Ok <==> old(self).values_of(key.spec_bytes()).len() < MAX_VALUES_PER_KEY,
            r is Err ==> r == Err::<(), TrieError>(TrieError::CapacityExceeded),
            final(self).node_count() <= old(self).node_count() + key.spec_bytes().len(),
            final(self).value_count() == old(self).value_count() + if r is Ok {
                1int
            } else {
                0int
            },
            final(self).holds_reserved_byte() == old(self).holds_reserved_byte(),
            forall|k: Seq<u8>|
                #[trigger] final(self).values_of(k) == if r is Ok && k == key.spec_bytes() {
                    old(self).values_of(k).push(value)
                } else {
                    old(self).values_of(k)
                },
    {
        proof {
            lemma_utf8_no_reserved(key@);
        }
        self.set_bytes(key.as_bytes(), value)
    }

    /// Adds `value` after the values already held under the byte key `bytes`.
    #[verifier::rlimit(60)]
    pub fn set_bytes(&mut self, bytes: &[u8], value: T) -> (r: Result<(), TrieError>)
        requires
            old(self).wf(),
        ensures
            final(self).wf(),
            r is Ok <==> old(self).values_of(bytes@).len() < MAX_VALUES_PER_KEY,
            r is Err ==> r == Err::<(), TrieError>(TrieError::CapacityExceeded),
            final(self).node_count() <= old(self).node_count() + bytes@.len(),
            final(self).value_count() == old(self).value_count() + if r is Ok {
                1int
            } else {
                0int
            },
            final(self).holds_reserved_byte() == (old(self).holds_reserved_byte() || bytes@.contains(VALUE_BYTE)),
            forall|k: Seq<u8>|
                #[trigger] final(self).values_of(k) == if r is Ok && k == bytes@ {
                    old(self).values_of(k).push(value)
                } else {
                    old(self).values_of(k)
                },
    {
        let mut cur: usize = 0;
        let mut i: usize = 0;
        proof {
            assert forall|k: Seq<u8>| #[trigger] self.index@.contains_key(k) <==> (old(self).index@.contains_key(k) || prefix_upto(k, bytes@, 0)) by {
                if prefix_upto(k, bytes@, 0) {
                    assert(k =~= self.paths@[0]);
                }
            }
        }
        while i < bytes.len()
            invariant
                self.wf(),
                i <= bytes@.len(),
                cur < self.nodes@.len(),
                self.paths@[cur as int] == bytes@.subrange(0, i as int),
                forall|k: Seq<u8>| #[trigger] self.values_of(k) == old(self).values_of(k),
                self.nodes@.len() <= old(self).nodes@.len() + i,
                self.value_count() == old(self).value_count(),
                forall|k: Seq<u8>|
                    #[trigger] self.index@.contains_key(k) <==> (old(self).index@.contains_key(k) || prefix_upto(
                        k,
                        bytes@,
                        i as int,
                    )),
            decreases bytes@.len() - i,
        {
            let b = bytes[i];
            assert(bytes@.subrange(0, i + 1) =~= bytes@.subrange(0, i as int).push(b));
            let ghost pre = *self;
            match Self::binary_search(b, self.nodes[cur].nexts.as_slice()) {
                Some(p) => {
                    cur = self.nodes[cur].nexts[p].1;
                },
                None => {
                    cur = self.add_child(cur, b);
                },
            }
            proof {
                assert(self.paths@[cur as int] == bytes@.subrange(0, i + 1));
                assert(self.index@.contains_key(bytes@.subrange(0, i + 1)));
                assert forall|k: Seq<u8>| #[trigger] self.index@.contains_key(k) <==> (old(self).index@.contains_key(k) || prefix_upto(k, bytes@, i + 1)) by {
                    if prefix_upto(k, bytes@, i + 1) && k.len() == i + 1 {
                        assert(k =~= bytes@.subrange(0, i + 1));
                    }
                    assert(pre.index@.contains_key(k) <==> (old(self).index@.contains_key(k) || prefix_upto(k, bytes@, i as int)));
                }
            }
            i = i + 1;
        }
        assert(bytes@.subrange(0, i as int) =~= bytes@);
        assert(self.values_of(bytes@) == self.nodes@[cur as int].values@);
        proof {
            Self::lemma_reserved_after(*old(self), *self, bytes@);
        }
        if self.nodes[cur].values.len() < MAX_VALUES_PER_KEY {
            let ghost before = *self;
            self.len = self.len.saturating_add(1);
            self.nodes[cur].values.push(value);
            proof {
                self.lemma_values_before_push(before, cur as int, self.nodes@.len() as int);
                assert(self.index@ == before.index@);
                assert forall|k: Seq<u8>| #[trigger] self.node_of(k) == before.node_of(k) by {}
                Self::lemma_reserved_after(*old(self), *self, bytes@);
            }
            assert forall|k: Seq<u8>| #[trigger] self.values_of(k) == (if k == bytes@ {
                old(self).values_of(k).push(value)
            } else {
                old(self).values_of(k)
            }) by {
                assert(before.values_of(k) == old(self).values_of(k));
                if self.index@.contains_key(k) && k != bytes@ {
                    assert(self.index@[k] != cur as int);
                }
            }
            Ok(())
        } else {
            Err(TrieError::CapacityExceeded)
        }
    }

    /// Adding the prefixes of `key` to the nodes adds the reserved byte
    /// exactly when `key` holds it.
    proof fn lemma_reserved_after(o: Trie<T>, f: Trie<T>, key: Seq<u8>)
        requires
            forall|k: Seq<u8>|
                #[trigger] f.index@.contains_key(k) <==> (o.index@.contains_key(k) || prefix_upto(
                    k,
                    key,
                    key.len() as int,
                )),
        ensures
            f.holds_reserved_byte() == (o.holds_reserved_byte() || key.contains(VALUE_BYTE)),
    {
        if o.holds_reserved_byte() {
            let k = choose|k: Seq<u8>| #[trigger] o.node_of(k) is Some && k.contains(VALUE_BYTE);
            assert(f.node_of(k) is Some);
        }
        if key.contains(VALUE_BYTE) {
            assert(key.subrange(0, key.len() as int) =~= key);
            assert(prefix_upto(key, key, key.len() as int));
            assert(f.node_of(key) is Some);
        }
        if f.holds_reserved_byte() {
            let k = choose|k: Seq<u8>| #[trigger] f.node_of(k) is Some && k.contains(VALUE_BYTE);
            if !o.index@.contains_key(k) {
                let x = choose|x: int| 0 <= x < k.len() && k[x] == VALUE_BYTE;
                assert(key[x] == k[x]);
            } else {
                assert(o.node_of(k) is Some);
            }
        }
    }

    /// Adds a fresh child with byte `b` under node `cur` and returns its place.
    #[verifier::rlimit(30)]
    fn add_child(&mut self, cur: usize, b: u8) -> (id: usize)
        requires
            old(self).wf(),
            cur < old(self).nodes@.len(),
            forall|c: int|
                0 <= c < old(self).nodes@[cur as int].nexts@.len() ==> (#[trigger] old(self).nodes@[cur as int].nexts@[c]).0 != b,
        ensures
            final(self).wf(),
            id < final(self).nodes@.len(),
            final(self).paths@[id as int] == old(self).paths@[cur as int].push(b),
            forall|k: Seq<u8>| #[trigger] final(self).values_of(k) == old(self).values_of(k),
            final(self).index@ == old(self).index@.insert(old(self).paths@[cur as int].push(b), id as int),
            final(self).nodes@.len() == old(self).nodes@.len() + 1,
            final(self).value_count() == old(self).value_count(),
    {
        let id = self.nodes.len();
        let ghost before = *self;
        let ghost newpath = self.paths@[cur as int].push(b);
        assert(!self.index@.contains_key(newpath)) by {
            if self.index@.contains_key(newpath) {
                let m = self.index@[newpath];
                assert(self.paths@[m] == newpath);
                assert(m != 0) by {
                    if m == 0 {
                        assert(newpath.len() == 0);
                    }
                }
                assert(newpath.drop_last() =~= self.paths@[cur as int]);
                let c = choose|c: int|
                    0 <= c < self.nodes@[cur as int].nexts@.len()
                        && self.nodes@[cur as int].nexts@[c] == (b, m as usize);
                assert(self.nodes@[cur as int].nexts@[c].0 == b);
            }
        }
        self.nodes.push(Node { values: Vec::new(), nexts: Vec::new() });
        assert(self.nodes.len() == self.nodes@.len());
        let ghost pushed = *self;
        self.nodes[cur].nexts.push((b, id));
        assert(self.nodes@[cur as int].nexts@.drop_last() =~= before.nodes@[cur as int].nexts@);
        let pos = Self::sort(&mut self.nodes[cur].nexts);
        proof {
            self.paths@ = self.paths@.push(newpath);
            self.index@ = self.index@.insert(newpath, id as int);
            let olds = before.nodes@[cur as int].nexts@;
            let news = self.nodes@[cur as int].nexts@;
            assert(news == olds.insert(pos as int, (b, id)));
            assert forall|e: (u8, usize)| olds.contains(e) implies news.contains(e) by {
                let j = choose|j: int| 0 <= j < olds.len() && olds[j] == e;
                if j < pos {
                    assert(news[j] == e);
                } else {
                    assert(news[j + 1] == e);
                }
            }
            assert(news[pos as int] == (b, id));
            assert(news.contains((b, id)));
            assert forall|n: int, c: int|
                0 <= n < self.nodes@.len() && 0 <= c < self.nodes@[n].nexts@.len() implies {
                    let e = #[trigger] self.nodes@[n].nexts@[c];
                    &&& n < e.1 < self.nodes@.len()
                    &&& self.paths@[e.1 as int] == self.paths@[n].push(e.0)
                } by {
                if n == cur as int {
                    if c < pos {
                        assert(news[c] == olds[c]);
                    } else if c > pos {
                        assert(news[c] == olds[c - 1]);
                    }
                }
            }
            assert forall|m: int| 0 < m < self.nodes@.len() implies {
                let p = #[trigger] self.paths@[m];
                &&& p.len() > 0
                &&& self.index@.contains_key(p.drop_last())
                &&& self.nodes@[self.index@[p.drop_last()]].nexts@.contains((p.last(), m as usize))
            } by {
                if m == id as int {
                    assert(newpath.drop_last() =~= self.paths@[cur as int]);
                } else {
                    let p = before.paths@[m];
                    assert(before.index@.contains_key(p.drop_last()));
                }
            }
            assert forall|k: Seq<u8>| #[trigger] self.values_of(k) == old(self).values_of(k) by {
            }
            assert forall|m: int| 0 <= m < before.nodes@.len() implies (#[trigger] self.nodes@[m]).values@ == before.nodes@[m].values@ by {
                assert(self.nodes@[m].values@ == pushed.nodes@[m].values@);
            }
            self.lemma_values_before_same(before, before.nodes@.len() as int);
            assert(self.values_before(self.nodes@.len() as int) =~= before.values_before(before.nodes@.len() as int));
        }
        id
    }

    /// The values held under `key`, in insertion order, or `None` when it
    /// holds none.
    pub fn get(&self, key: &str) -> (r: Option<&[T]>)
        requires
            self.wf(),
        ensures
            r matches Some(v) ==> v@ == self.values_of(key.spec_bytes()) && v@.len() > 0,
            r is None ==> self.values_of(key.spec_bytes()).len() == 0,
    {
        let bytes = key.as_bytes();
        let mut cur: usize = 0;
        let mut i: usize = 0;
        while i < bytes.len()
            invariant
                self.wf(),
                bytes@ == key.spec_bytes(),
                i <= bytes@.len(),
                cur < self.nodes@.len(),
                self.paths@[cur as int] == bytes@.subrange(0, i as int),
            decreases bytes@.len() - i,
        {
            let b = bytes[i];
            assert(bytes@.subrange(0, i + 1) =~= bytes@.subrange(0, i as int).push(b));
            match Self::binary_search(b, self.nodes[cur].nexts.as_slice()) {
                Some(p) => {
                    cur = self.nodes[cur].nexts[p].1;
                },
                None => {
                    proof {
                        if self.index@.contains_key(bytes@) {
                            self.lemma_prefix_closed(bytes@, i + 1);
                            let prefix = bytes@.subrange(0, i + 1);
                            let m = self.index@[prefix];
                            assert(m != 0) by {
                                if m == 0 {
                                    assert(prefix.len() == 0);
                                }
                            }
                            assert(prefix.drop_last() =~= self.paths@[cur as int]);
                            let c = choose|c: int|
                                0 <= c < self.nodes@[cur as int].nexts@.len()
                                    && self.nodes@[cur as int].nexts@[c] == (b, m as usize);
                            assert(self.nodes@[cur as int].nexts@[c].0 == b);
                        }
                    }
                    return None;
                },
            }
            i = i + 1;
        }
        assert(bytes@.subrange(0, i as int) =~= bytes@);
        if self.nodes[cur].values.len() == 0 {
            None
        } else {
            Some(self.nodes[cur].values.as_slice())
        }
    }

    /// The smallest base `c` at which every slot `c + keys[i]` is free, among
    /// those that put the first key at or after the cache's window start.
    pub fn find_base(keys: &[u8], bit_cache: &BitCache) -> (r: usize)
        requires
            keys@.len() >= 1,
            bytes_ascending(keys@),
            bit_cache.wf(),
            256 * bit_cache.words().len() + 512 <= usize::MAX,
        ensures
            r + keys@[0] >= bit_cache.window_start(),
            r <= bit_cache.window_start() + 64 * bit_cache.words().len(),
            fits(*bit_cache, keys@, r as int),
            forall|c: int|
                bit_cache.window_start() <= c + keys@[0] < r + keys@[0] ==> !fits(*bit_cache, keys@, c),
    {
        let first = keys[0] as usize;
        let ghost lo = bit_cache.window_start();
        let ghost top: int = 64 * bit_cache.words().len() as int;
        let mut offset: usize = 0;
        loop
            invariant
                keys@.len() >= 1,
                bytes_ascending(keys@),
                bit_cache.wf(),
                256 * bit_cache.words().len() + 512 <= usize::MAX,
                first == keys@[0],
                lo == bit_cache.window_start(),
                top == 64 * bit_cache.words().len(),
                256 <= lo <= top,
                offset <= top,
                forall|c: int| lo <= c + first < lo + offset ==> !fits(*bit_cache, keys@, c),
            decreases top - offset,
        {
            let e = bit_cache.find_empty_idx(offset);
            proof {
                if e > lo + offset && e > top {
                    let x: int = if lo + offset <= top { top } else { lo + offset };
                    bit_cache.lemma_beyond_words(x);
                }
            }
            let cand = e - first;
            let mut ok = true;
            let mut j: usize = 0;
            while ok && j < keys.len()
                invariant
                    j <= keys@.len(),
                    bit_cache.wf(),
                    256 * bit_cache.words().len() + 512 <= usize::MAX,
                    cand == e - first,
                    e >= first,
                    e <= lo + offset || e <= top,
                    lo + offset + top + 256 <= usize::MAX,
                    256 <= lo <= top,
                    ok ==> forall|i: int| 0 <= i < j ==> !bit_cache.has(cand + #[trigger] keys@[i]),
                    !ok ==> j < keys@.len() && bit_cache.has(cand + keys@[j as int]),
                decreases keys@.len() - j + if ok { 1int } else { 0int },
            {
                assert(keys@[j as int] <= 255);
                assert(e + 256 <= usize::MAX);
                if bit_cache.get(cand + keys[j] as usize) != 0 {
                    ok = false;
                } else {
                    j = j + 1;
                }
            }
            if ok {
                return cand;
            }
            proof {
                assert(!fits(*bit_cache, keys@, cand as int));
                if lo + offset >= top {
                    assert(e == lo + offset) by {
                        assert(!bit_cache.has(lo + offset));
                    }
                    assert(fits(*bit_cache, keys@, cand as int)) by {
                        assert forall|i: int| 0 <= i < keys@.len() implies !bit_cache.has(cand + #[trigger] keys@[i]) by {
                            if i > 0 {
                                assert(keys@[0] < keys@[i]);
                            }
                            bit_cache.lemma_beyond_words(cand + keys@[i]);
                        }
                    }
                }
                assert forall|c: int| lo <= c + first < lo + offset + 1 implies !fits(*bit_cache, keys@, c) by {
                    if c + first == lo + offset && c + first < e {
                        assert(bit_cache.has(c + keys@[0]));
                    }
                }
            }
            offset = offset + 1;
        }
    }

    /// What `key` should find in a double array built from this trie: its
    /// values, or nothing when it holds none.
    pub open spec fn expected(&self, key: Seq<u8>) -> Option<Seq<T>> {
        if self.values_of(key).len() > 0 {
            Some(self.values_of(key))
        } else {
            None
        }
    }

    /// Whether the double array `(base, check, data)` holds exactly this
    /// trie's values under every key that avoids the reserved byte.
    pub open spec fn encoded_by(&self, base: Seq<u32>, check: Seq<u32>, data: Seq<T>) -> bool {
        forall|key: Seq<u8>| !key.contains(VALUE_BYTE) ==> #[trigger] lookup(base, check, data, key) == self.expected(key)
    }

    /// What the arrays of a conversion hold besides the values of the keys:
    /// the data array is all values, node by node; the arrays end 256 slots
    /// after the last taken one; every nonzero check entry is a transition
    /// slot of the state of a key; nonzero bases sit only at the first state
    /// or at checked slots; and the transitions out of each key's state are
    /// exactly its children and, when it holds values, the value terminal.
    pub open spec fn final_arrays(&self, base: Seq<u32>, check: Seq<u32>, data: Seq<T>) -> bool {
        &&& forall|key: Seq<u8>|
            !key.contains(VALUE_BYTE) && self.node_of(key) is Some && (forall|x: u8|
                step(base, check, walk(base, check, key)->0, x) is None) ==> #[trigger] entry(
                base,
                walk(base, check, key)->0,
            ) == 0
                &&& data.len() == self.value_count()
                &&& data == self.all_values()
                &&& base.len() == check.len()
                &&& check.len() >= 257
                &&& check.len() == 257 || check[check.len() - 256] != 0
                &&& forall|i: int| check.len() - 256 < i < check.len() ==> check[i] == 0
                &&& forall|i: int|
                    0 <= i < check.len() && check[i] != 0 ==> step(
                        base,
                        check,
                        check[i] as int,
                        (i - entry(base, check[i] as int)) as u8,
                    ) == Some(i)
                &&& !self.holds_reserved_byte()
                &&& forall|i: int|
                    0 <= i < check.len() && #[trigger] check[i] != 0 ==> exists|key: Seq<u8>|
                        !key.contains(VALUE_BYTE) && self.node_of(key) is Some && #[trigger] walk(base, check, key)
                            == Some(check[i] as int)
                &&& forall|i: int| 0 <= i < base.len() && #[trigger] base[i] != 0 ==> i == 1 || check[i] != 0
                &&& forall|key: Seq<u8>|
                    !key.contains(VALUE_BYTE) && self.node_of(key) is Some ==> #[trigger] entry(
                        base,
                        walk(base, check, key)->0,
                    ) + 255 < base.len()
                &&& forall|key: Seq<u8>, x: u8|
                    !key.contains(VALUE_BYTE) && self.node_of(key) is Some ==> walk(base, check, key) is Some && ((
                    #[trigger] step(base, check, walk(base, check, key)->0, x)) is Some <==> (x != VALUE_BYTE
                        && self.node_of(key.push(x)) is Some) || (x == VALUE_BYTE && self.values_of(key).len() > 0))
            }

    /// Whether some key that leads to a node of the trie holds the byte that
    /// the double array reserves.
    pub open spec fn holds_reserved_byte(&self) -> bool {
        exists|k: Seq<u8>| #[trigger] self.node_of(k) is Some && k.contains(VALUE_BYTE)
    }

    /// Converts the trie into a double array `(base, check, data)`: walking a
    /// key from state 1 reaches a state whose terminal slot holds exactly the
    /// key's values, and a key that holds none walks to no values.
    pub fn to_double_array(self) -> (r: Result<(Vec<u32>, Vec<u32>, Vec<T>), TrieError>)
        requires
            self.wf(),
        ensures
            r matches Ok((base, check, data)) ==> self.encoded_by(base@, check@, data@),
            r is Err ==> r == Err::<(Vec<u32>, Vec<u32>, Vec<T>), TrieError>(TrieError::ReservedByte) || r
                == Err::<(Vec<u32>, Vec<u32>, Vec<T>), TrieError>(TrieError::LayoutOverflow),
            r == Err::<(Vec<u32>, Vec<u32>, Vec<T>), TrieError>(TrieError::ReservedByte)
                ==> self.holds_reserved_byte(),
            r == Err::<(Vec<u32>, Vec<u32>, Vec<T>), TrieError>(TrieError::LayoutOverflow) ==> !self.within_limits(),
            !self.holds_reserved_byte() && self.within_limits() ==> r is Ok,
            r matches Ok((base, check, data)) ==> self.final_arrays(base@, check@, data@),
            !self.holds_reserved_byte() ==> r != Err::<(Vec<u32>, Vec<u32>, Vec<T>), TrieError>(
                TrieError::ReservedByte,
            ),
    {
        let nn = self.nodes.len();
        let len: usize = if self.len <= 64 {
            256
        } else if self.len <= (MAX_SLOT + 256) / 4 {
            4 * self.len
        } else {
            MAX_SLOT + 256
        };
        let mut bit_cache = BitCache::new();
        bit_cache.set(0);
        bit_cache.set(1);
        let mut states = vec![0usize; nn];
        states.set(0, 1);
        let mut b = Builder {
            base: vec![0u32; len],
            check: vec![0u32; len],
            data: Vec::new(),
            bit_cache,
            states,
            top: Ghost(2),
        };
        proof {
            assert forall|x: int| #[trigger] entry(b.check@, x) == 0 && entry(b.base@, x) == 0 by {
                if 0 <= x < len {
                    assert(b.check@[x] == 0);
                    assert(b.base@[x] == 0);
                }
            }
            assert forall|m: int| 0 <= m < nn && m != 0 implies !#[trigger] b.placed(m) by {
                assert(b.states@[m] == 0);
            }
            assert forall|m: int| 0 < m < nn implies (#[trigger] b.placed(m) <==> self.parent(m) < 0) by {
                self.lemma_parent(m);
            }
            assert forall|i: int| #[trigger] b.bit_cache.has(i) implies i <= MAX_SLOT && 0 <= i < 2 by {}
            assert(b.inv(self, 0));
            assert(b.room(2));
            assert(b.data@ =~= self.values_before(0));
        }
        let mut n: usize = 0;
        while n < nn
            invariant
                b.inv(self, n as int),
                b.room(2 + 512 * n),
                b.data@ == self.values_before(n as int),
                nn == self.nodes@.len(),
                n <= nn,
            decreases nn - n,
        {
            match b.place_node(&self, n) {
                Ok(()) => {},
                Err(e) => {
                    proof {
                        if e == TrieError::ReservedByte {
                            let c = choose|c: int|
                                0 <= c < self.nodes@[n as int].nexts@.len() && (#[trigger] self.nodes@[n as int].nexts@[c]).0
                                    == VALUE_BYTE;
                            let m = self.nodes@[n as int].nexts@[c].1 as int;
                            assert(self.paths@[m] == self.paths@[n as int].push(VALUE_BYTE));
                            assert(self.paths@[m].contains(VALUE_BYTE)) by {
                                assert(self.paths@[m][self.paths@[m].len() - 1] == VALUE_BYTE);
                            }
                            assert(self.node_of(self.paths@[m]) is Some);
                        }
                    }
                    return Err(e);
                },
            }
            n = n + 1;
        }
        let last = b.bit_cache.last_index_of_one();
        let new_len: usize = match last {
            None => 256,
            Some(x) => x + 256,
        };
        assert forall|x: int| new_len <= x implies !#[trigger] b.bit_cache.has(x) by {}
        let ghost done = b;
        b.base.resize(new_len, 0u32);
        b.check.resize(new_len, 0u32);
        proof {
            let x = last->0 as int;
            assert(done.bit_cache.has(1));
            assert(done.bit_cache.has(x));
            assert(x <= 1 || entry(done.check@, x) != 0);
            assert forall|x: int| #[trigger] entry(b.check@, x) == entry(done.check@, x) by {
                if new_len <= x {
                    assert(!done.bit_cache.has(x));
                } else if done.check@.len() <= x {
                    assert(b.check@[x] == 0);
                }
            }
            assert forall|x: int| #[trigger] entry(b.base@, x) == entry(done.base@, x) by {
                if new_len <= x {
                    assert(!done.bit_cache.has(x));
                } else if done.base@.len() <= x {
                    assert(b.base@[x] == 0);
                }
            }
            lemma_final_arrays(done, b, self, x);
        }
        Ok((b.base, b.check, b.data))
    }

    /// The trie of `entries`, each key given its values in order; `Err(i)`
    /// when entry `i` would be the 257th value of its key.
    pub fn from_entries(entries: &Vec<(Vec<u8>, T)>) -> (r: Result<Trie<T>, usize>)
        ensures
            r matches Ok(t) ==> {
                &&& t.wf()
                &&& forall|k: Seq<u8>| #[trigger] t.values_of(k) == values_under(entries@, k)
                &&& t.value_count() == entries@.len()
                &&& t.node_count() <= 1 + key_bytes(entries@)
                &&& t.holds_reserved_byte() <==> exists|i: int|
                    0 <= i < entries@.len() && (#[trigger] entries@[i]).0@.contains(VALUE_BYTE)
            },
            r matches Err(i) ==> i < entries@.len() && values_under(entries@.subrange(0, i as int), entries@[i as int].0@).len()
                >= MAX_VALUES_PER_KEY,
    {
        let mut t: Trie<T> = Trie::new();
        let mut i: usize = 0;
        while i < entries.len()
            invariant
                i <= entries@.len(),
                t.wf(),
                forall|k: Seq<u8>| #[trigger] t.values_of(k) == values_under(entries@.subrange(0, i as int), k),
                t.value_count() == i,
                t.node_count() <= 1 + key_bytes(entries@.subrange(0, i as int)),
                t.holds_reserved_byte() <==> exists|j: int|
                    0 <= j < i && (#[trigger] entries@[j]).0@.contains(VALUE_BYTE),
            decreases entries@.len() - i,
        {
            let ghost pre = t;
            let ghost es = entries@.subrange(0, i + 1);
            assert(es.drop_last() =~= entries@.subrange(0, i as int));
            let r = t.set_bytes(entries[i].0.as_slice(), entries[i].1);
            if r.is_err() {
                return Err(i);
            }
            proof {
                assert forall|k: Seq<u8>| #[trigger] t.values_of(k) == values_under(es, k) by {}
                if t.holds_reserved_byte() && !pre.holds_reserved_byte() {
                    assert(entries@[i as int].0@.contains(VALUE_BYTE));
                }
                if pre.holds_reserved_byte() {
                    let j = choose|j: int| 0 <= j < i && (#[trigger] entries@[j]).0@.contains(VALUE_BYTE);
                    assert(0 <= j < i + 1 && entries@[j].0@.contains(VALUE_BYTE));
                }
                if exists|j: int| 0 <= j < i + 1 && (#[trigger] entries@[j]).0@.contains(VALUE_BYTE) {
                    let j = choose|j: int| 0 <= j < i + 1 && (#[trigger] entries@[j]).0@.contains(VALUE_BYTE);
                    if j < i {
                        assert(pre.holds_reserved_byte());
                    }
                }
            }
            i = i + 1;
        }
        assert(entries@.subrange(0, i as int) =~= entries@);
        Ok(t)
    }

    /// The place in `nodes` of the child with byte `key`, if there is one.
    fn binary_search(key: u8, nodes: &[(u8, usize)]) -> (r: Option<usize>)
        requires
            keys_ascending(nodes@),
        ensures
            r matches Some(p) ==> p < nodes@.len() && nodes@[p as int].0 == key,
            r is None ==> forall|i: int| 0 <= i < nodes@.len() ==> (#[trigger] nodes@[i]).0 != key,
    {
        let mut s: usize = 0;
        let mut e: usize = nodes.len();
        while s < e
            invariant
                s <= e <= nodes@.len(),
                keys_ascending(nodes@),
                forall|i: int| 0 <= i < s ==> (#[trigger] nodes@[i]).0 < key,
                forall|i: int| e <= i < nodes@.len() ==> (#[trigger] nodes@[i]).0 > key,
            decreases e - s,
        {
            let pivot = s + (e - s) / 2;
            let target = nodes[pivot].0;
            if key < target {
                e = pivot;
            } else if key > target {
                s = pivot + 1;
            } else {
                return Some(pivot);
            }
        }
        None
    }

    /// Moves the last entry of `nodes` forward to its place by byte, and
    /// returns that place.
    fn sort(nodes: &mut Vec<(u8, usize)>) -> (r: usize)
        requires
            old(nodes)@.len() >= 1,
            keys_ascending(old(nodes)@.drop_last()),
            forall|i: int|
                0 <= i < old(nodes)@.len() - 1 ==> (#[trigger] old(nodes)@[i]).0 != old(nodes)@.last().0,
        ensures
            r < final(nodes)@.len(),
            final(nodes)@ == old(nodes)@.drop_last().insert(r as int, old(nodes)@.last()),
            final(nodes)@.len() == old(nodes)@.len(),
            final(nodes)@[r as int] == old(nodes)@.last(),
            forall|j: int| 0 <= j < r ==> #[trigger] final(nodes)@[j] == old(nodes)@[j],
            forall|j: int| r < j < final(nodes)@.len() ==> #[trigger] final(nodes)@[j] == old(nodes)@[j - 1],
            keys_ascending(final(nodes)@),
    {
        let ghost orig = nodes@;
        let ghost x = orig.last();
        let mut i: usize = nodes.len() - 1;
        while i > 0
            invariant
                i < nodes@.len(),
                nodes@.len() == orig.len(),
                orig == old(nodes)@,
                x == orig.last(),
                keys_ascending(orig.drop_last()),
                forall|j: int| 0 <= j < orig.len() - 1 ==> (#[trigger] orig[j]).0 != x.0,
                nodes@ == orig.drop_last().insert(i as int, x),
                forall|j: int| i < j < nodes@.len() ==> x.0 < (#[trigger] nodes@[j]).0,
            decreases i,
        {
            let cur = nodes[i];
            let prev = nodes[i - 1];
            if cur.0 < prev.0 {
                nodes.set(i, prev);
                nodes.set(i - 1, cur);
                assert(nodes@ =~= orig.drop_last().insert(i - 1, x));
                i = i - 1;
            } else {
                assert forall|a: int, b: int|
                    0 <= a < b < nodes@.len() implies (#[trigger] nodes@[a]).0 < (#[trigger] nodes@[b]).0 by {
                    if b < i || a > i {
                    } else if a == i {
                    } else if b == i {
                        assert(nodes@[a].0 <= prev.0);
                    } else {
                        assert(nodes@[a].0 <= prev.0);
                    }
                }
                return i;
            }
        }
        i
    }
}

} // verus!
