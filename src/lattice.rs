//! The lattice of candidate tokens over an input, and the minimum-cost path
//! through it.
use vstd::prelude::*;

use crate::dictionary::double_array::{lookup, values_at, walk};
use crate::dictionary::{lemma_walk_prefix, matrix_cost, DictionarySet};
use crate::token::Token;

verus! {

/// The longest input `tokenize` takes.
pub const MAX_INPUT: usize = 0xffff_ff00;

/// The total cost of a node that no path from the first node reaches.
pub const UNREACHED: i64 = 0x7fff_ffff_ffff_ffff;

/// A candidate token over the input bytes `begin..end`, with the cost of the
/// cheapest path found to it and the node that path comes from.
#[derive(Debug, Clone, Copy)]
pub struct LatticeNode {
    pub token: Token,
    pub begin: usize,
    pub end: usize,
    pub total_cost: i64,
    pub prev: Option<(usize, usize)>,
}

impl LatticeNode {
    /// A node not reached yet.
    pub fn new(begin: usize, end: usize, token: Token) -> (r: LatticeNode)
        ensures
            r == LatticeNode::spec_new(begin, end, token),
    {
        LatticeNode { token, begin, end, total_cost: UNREACHED, prev: None }
    }

    /// The input bytes the node covers.
    pub fn surface<'a>(&self, input: &'a [u8]) -> (r: &'a [u8])
        requires
            self.begin <= self.end <= input@.len(),
        ensures
            r@ == input@.subrange(self.begin as int, self.end as int),
    {
        vstd::slice::slice_subrange(input, self.begin, self.end)
    }
}

/// The cost of stepping from node `a` to node `b`: the connection cost of
/// `b`'s left id after `a`'s right id, plus `b`'s own cost.
pub open spec fn edge_cost(matrix: Seq<i16>, left_max: int, right_max: int, a: LatticeNode, b: LatticeNode) -> int {
    matrix_cost(matrix, left_max, right_max, b.token.left_id as int, a.token.right_id as int) as int
        + b.token.cost as int
}

/// Where the unknown node that starts at byte `i` ends: after the character
/// its lead byte announces, cut at the end of the input; `None` for a
/// continuation byte.
pub open spec fn unknown_end(bytes: Seq<u8>, i: int) -> Option<int> {
    let b = bytes[i];
    let len = if b & 0xf8 == 0xf0 {
        4int
    } else if b & 0xf0 == 0xe0 {
        3int
    } else if b & 0xe0 == 0xc0 {
        2int
    } else if b & 0xc0 == 0x80 {
        0int
    } else {
        1int
    };
    if len == 0 {
        None
    } else if i + len <= bytes.len() {
        Some(i + len)
    } else {
        Some(bytes.len() as int)
    }
}

/// The candidate nodes by start slot, and for each slot the nodes that end
/// just before it. Slot 0 holds the first node, slot `n + 1` the last, and
/// slot `p` in between the nodes that start at byte `p - 1`.
pub struct Lattice {
    start: Vec<Vec<LatticeNode>>,
    end: Vec<Vec<(usize, usize)>>,
}

impl Lattice {
    pub closed spec fn slots(&self) -> int {
        self.start@.len() as int
    }

    pub closed spec fn end_slots(&self) -> int {
        self.end@.len() as int
    }

    /// The nodes that start at slot `i`.
    pub closed spec fn nodes_at(&self, i: int) -> Seq<LatticeNode> {
        self.start@[i]@
    }

    /// The nodes that end just before slot `k`.
    pub closed spec fn ends_at(&self, k: int) -> Seq<(usize, usize)> {
        self.end@[k]@
    }

    pub open spec fn valid_ref(&self, r: (usize, usize)) -> bool {
        0 <= r.0 < self.slots() && 0 <= r.1 < self.nodes_at(r.0 as int).len()
    }

    pub open spec fn node(&self, r: (usize, usize)) -> LatticeNode {
        self.nodes_at(r.0 as int)[r.1 as int]
    }

    /// Whether node `(i, j)` is listed among the nodes ending before the slot
    /// after it.
    pub open spec fn listed(&self, i: int, j: int) -> bool {
        exists|q: int|
            0 <= q < self.ends_at(self.nodes_at(i)[j].end + 1).len() && #[trigger] self.ends_at(
                self.nodes_at(i)[j].end + 1,
            )[q] == (i as usize, j as usize)
    }

    /// Whether node `b` may follow node `a` on a path.
    pub open spec fn connects(&self, a: (usize, usize), b: (usize, usize)) -> bool {
        &&& self.valid_ref(a)
        &&& self.valid_ref(b)
        &&& a.0 < self.slots() - 1
        &&& b.0 >= 1
        &&& self.node(a).end + 1 == b.0
    }

    /// The shape of a lattice over `n` input bytes: the first and last
    /// nodes in place, every node covering bytes from its slot on, and each
    /// node listed (at least once) among the nodes ending before the slot after it.
    pub open spec fn shape(&self, n: int) -> bool {
        &&& self.slots() == n + 2
        &&& self.end_slots() == n + 2
        &&& self.nodes_at(0).len() == 1
        &&& self.node((0, 0)).begin == 0 && self.node((0, 0)).end == 0
        &&& self.node((0, 0)).token == Token::spec_eos_bos()
        &&& self.nodes_at(n + 1).len() == 1
        &&& self.node(((n + 1) as usize, 0)).begin == n && self.node(((n + 1) as usize, 0)).end == n
        &&& self.node(((n + 1) as usize, 0)).token == Token::spec_eos_bos()
        &&& forall|i: int, j: int|
            1 <= i <= n && 0 <= j < self.nodes_at(i).len() ==> {
                let x = #[trigger] self.nodes_at(i)[j];
                &&& x.begin == i - 1
                &&& i - 1 < x.end <= n
            }
        &&& forall|k: int, q: int|
            0 <= k < self.slots() && 0 <= q < self.ends_at(k).len() ==> {
                let r = #[trigger] self.ends_at(k)[q];
                &&& self.valid_ref(r)
                &&& r.0 <= n
                &&& self.node(r).end + 1 == k
            }
        &&& forall|i: int, j: int|
            0 <= i <= n && 0 <= j < self.nodes_at(i).len() ==> #[trigger] self.listed(i, j)
    }
}

/// Whether `x`, a node of slot `i`, is a candidate for the input: the
/// unknown token over the character starting there, or a token that the
/// dictionary holds for the bytes it covers.
pub open spec fn node_sound(dict: DictionarySet<Token>, bytes: Seq<u8>, x: LatticeNode, i: int) -> bool {
    ||| x.token == Token::spec_unknown() && unknown_end(bytes, i - 1) == Some(x.end as int)
    ||| exists|vs: Seq<Token>|
        lookup(dict.base_arr@, dict.check_arr@, dict.data_arr@, bytes.subrange(x.begin as int, x.end as int))
            == Some(vs) && #[trigger] vs.contains(x.token)
}

/// The tokens the dictionary holds for the bytes `i..p` of the input.
pub open spec fn tokens_at(dict: DictionarySet<Token>, bytes: Seq<u8>, i: int, p: int) -> Seq<Token> {
    match lookup(dict.base_arr@, dict.check_arr@, dict.data_arr@, bytes.subrange(i, p)) {
        Some(vs) => vs,
        None => Seq::empty(),
    }
}

/// The nodes of the dictionary tokens for the runs `i..q`, `i < q <= p`,
/// shortest run first, each run's tokens in the order the dictionary holds
/// them.
pub open spec fn dict_nodes(dict: DictionarySet<Token>, bytes: Seq<u8>, i: int, p: int) -> Seq<LatticeNode>
    decreases p - i,
{
    if p <= i {
        Seq::empty()
    } else {
        dict_nodes(dict, bytes, i, p - 1) + tokens_at(dict, bytes, i, p).map(
            |k: int, t: Token| LatticeNode::spec_new(i as usize, p as usize, t),
        )
    }
}

/// The nodes of slot `i + 1`, in order: the unknown node of the character
/// starting at byte `i` (if it starts one), then the dictionary nodes.
pub open spec fn slot_nodes(dict: DictionarySet<Token>, bytes: Seq<u8>, i: int) -> Seq<LatticeNode> {
    let unknown = match unknown_end(bytes, i) {
        Some(e) => seq![LatticeNode::spec_new(i as usize, e as usize, Token::spec_unknown())],
        None => Seq::empty(),
    };
    unknown + dict_nodes(dict, bytes, i, bytes.len() as int)
}

proof fn lemma_dict_nodes_stop(dict: DictionarySet<Token>, bytes: Seq<u8>, i: int, j: int, p: int)
    requires
        i <= j <= p,
        forall|q: int| j < q <= p ==> (#[trigger] tokens_at(dict, bytes, i, q)).len() == 0,
    ensures
        dict_nodes(dict, bytes, i, p) == dict_nodes(dict, bytes, i, j),
    decreases p - j,
{
    if p > j {
        lemma_dict_nodes_stop(dict, bytes, i, j, p - 1);
        assert(tokens_at(dict, bytes, i, p).len() == 0);
        assert(dict_nodes(dict, bytes, i, p) =~= dict_nodes(dict, bytes, i, p - 1));
    }
}

/// The end of the unknown node that starts at byte `i`.
fn unknown_end_of(bytes: &[u8], i: usize) -> (r: Option<usize>)
    requires
        i < bytes@.len(),
    ensures
        r matches Some(e) ==> unknown_end(bytes@, i as int) == Some(e as int),
        r is None ==> unknown_end(bytes@, i as int) is None,
{
    let b = bytes[i];
    let len: usize = if b & 0xf8 == 0xf0 {
        4
    } else if b & 0xf0 == 0xe0 {
        3
    } else if b & 0xe0 == 0xc0 {
        2
    } else if b & 0xc0 == 0x80 {
        0
    } else {
        1
    };
    if len == 0 {
        None
    } else if len <= bytes.len() - i {
        Some(i + len)
    } else {
        Some(bytes.len())
    }
}

impl Lattice {
    /// Whether slot `i` holds a node over the bytes of `x` with its token.
    pub open spec fn has_node(&self, i: int, x: LatticeNode) -> bool {
        exists|j: int| 0 <= j < self.nodes_at(i).len() && Self::same_node(#[trigger] self.nodes_at(i)[j], x)
    }

    /// Analysis keeps the candidates and their soundness.
    pub proof fn lemma_candidates_same(&self, other: Lattice, dict: DictionarySet<Token>, bytes: Seq<u8>)
        requires
            self.same_structure(other),
            other.complete(dict, bytes, bytes.len() as int),
            other.slots() == bytes.len() + 2,
            forall|i: int, j: int|
                1 <= i <= bytes.len() && 0 <= j < other.nodes_at(i).len() ==> node_sound(
                    dict,
                    bytes,
                    #[trigger] other.nodes_at(i)[j],
                    i,
                ),
        ensures
            self.complete(dict, bytes, bytes.len() as int),
            forall|i: int, j: int|
                1 <= i <= bytes.len() && 0 <= j < self.nodes_at(i).len() ==> node_sound(
                    dict,
                    bytes,
                    #[trigger] self.nodes_at(i)[j],
                    i,
                ),
    {
        assert forall|i: int, x: LatticeNode| 0 <= i < other.slots() && other.has_node(i, x) implies #[trigger] self.has_node(i, x) by {
            let j = choose|j: int| 0 <= j < other.nodes_at(i).len() && Self::same_node(#[trigger] other.nodes_at(i)[j], x);
            assert(Self::same_node(self.nodes_at(i)[j], other.nodes_at(i)[j]));
        }
        assert forall|i: int, j: int|
            1 <= i <= bytes.len() && 0 <= j < self.nodes_at(i).len() implies node_sound(
                dict,
                bytes,
                #[trigger] self.nodes_at(i)[j],
                i,
            ) by {
            assert(Self::same_node(self.nodes_at(i)[j], other.nodes_at(i)[j]));
            assert(node_sound(dict, bytes, other.nodes_at(i)[j], i));
        }
    }

    /// Nodes stay where they are when slots only grow.
    pub proof fn lemma_has_node_grows(&self, other: Lattice)
        requires
            self.slots() == other.slots(),
            forall|i: int|
                0 <= i < other.slots() ==> (#[trigger] self.nodes_at(i)).len() >= other.nodes_at(i).len(),
            forall|i: int, j: int|
                0 <= i < other.slots() && 0 <= j < other.nodes_at(i).len() ==> #[trigger] self.nodes_at(i)[j]
                    == other.nodes_at(i)[j],
        ensures
            forall|i: int, x: LatticeNode|
                0 <= i < other.slots() && other.has_node(i, x) ==> #[trigger] self.has_node(i, x),
    {
        assert forall|i: int, x: LatticeNode| 0 <= i < other.slots() && other.has_node(i, x) implies #[trigger] self.has_node(i, x) by {
            let j = choose|j: int| 0 <= j < other.nodes_at(i).len() && Self::same_node(#[trigger] other.nodes_at(i)[j], x);
            assert(self.nodes_at(i)[j] == other.nodes_at(i)[j]);
        }
    }

    /// Whether the slots of the bytes before `upto` hold every candidate:
    /// the unknown node of each byte that starts a character, and a node for
    /// each token the dictionary holds for each run of bytes from there.
    pub open spec fn complete(&self, dict: DictionarySet<Token>, bytes: Seq<u8>, upto: int) -> bool {
        &&& forall|i: int|
            0 <= i < upto && unknown_end(bytes, i) is Some ==> #[trigger] self.has_node(
                i + 1,
                LatticeNode::spec_new(i as usize, unknown_end(bytes, i)->0 as usize, Token::spec_unknown()),
            )
        &&& forall|i: int, p: int, k: int|
            0 <= i < upto && i < p <= bytes.len() && 0 <= k < tokens_at(dict, bytes, i, p).len()
                ==> #[trigger] self.has_node(
                i + 1,
                LatticeNode::spec_new(i as usize, p as usize, tokens_at(dict, bytes, i, p)[k]),
            )
    }

    /// The lattice of the nodes of `dict` over `bytes` before analysis: the
    /// first node reached at cost 0, every other node unreached.
    pub open spec fn fresh(&self) -> bool {
        &&& self.node((0, 0)).total_cost == 0
        &&& self.node((0, 0)).prev is None
        &&& forall|i: int, j: int|
            1 <= i < self.slots() && 0 <= j < self.nodes_at(i).len() ==> (#[trigger] self.nodes_at(i)[j]).total_cost
                == UNREACHED && self.nodes_at(i)[j].prev is None
    }

    /// A lattice of `size` empty slots.
    pub fn new(size: usize) -> (r: Lattice)
        ensures
            r.slots() == size,
            r.end_slots() == size,
            forall|i: int| 0 <= i < size ==> (#[trigger] r.nodes_at(i)).len() == 0,
            forall|k: int| 0 <= k < size ==> (#[trigger] r.ends_at(k)).len() == 0,
    {
        let mut start: Vec<Vec<LatticeNode>> = Vec::new();
        let mut end: Vec<Vec<(usize, usize)>> = Vec::new();
        let mut i: usize = 0;
        while i < size
            invariant
                i <= size,
                start@.len() == i,
                end@.len() == i,
                forall|k: int| 0 <= k < i ==> (#[trigger] start@[k])@.len() == 0,
                forall|k: int| 0 <= k < i ==> (#[trigger] end@[k])@.len() == 0,
            decreases size - i,
        {
            start.push(Vec::new());
            end.push(Vec::new());
            i = i + 1;
        }
        Lattice { start, end }
    }

    /// Adds a node for `token` over bytes `begin..end`.
    fn set_token(&mut self, begin: usize, end: usize, token: Token)
        requires
            old(self).shape((old(self).slots() - 2) as int),
            begin < end <= old(self).slots() - 2,
        ensures
            final(self).shape((old(self).slots() - 2) as int),
            final(self).slots() == old(self).slots(),
            final(self).nodes_at(begin + 1) == old(self).nodes_at(begin + 1).push(
                LatticeNode::spec_new(begin, end, token),
            ),
            forall|i: int| 0 <= i < final(self).slots() && i != begin + 1 ==> #[trigger] final(self).nodes_at(i)
                == old(self).nodes_at(i),
    {
        let ghost n = self.slots() - 2;
        let ghost pre = *self;
        let _ = self.start.len();
        let b1 = begin + 1;
        let e1 = end + 1;
        let j = self.start[b1].len();
        self.start[b1].push(LatticeNode::new(begin, end, token));
        self.end[e1].push((b1, j));
        proof {
            assert forall|r: (usize, usize)| pre.valid_ref(r) implies self.valid_ref(r) && self.node(r) == pre.node(r) by {}
            assert forall|i: int, jj: int|
                1 <= i <= n && 0 <= jj < self.nodes_at(i).len() implies {
                    let x = #[trigger] self.nodes_at(i)[jj];
                    &&& x.begin == i - 1
                    &&& i - 1 < x.end <= n
                } by {
                if !(i == b1 && jj == j) {
                    assert(pre.nodes_at(i)[jj] == self.nodes_at(i)[jj]);
                }
            }
            assert forall|k: int, q: int|
                0 <= k < self.slots() && 0 <= q < self.ends_at(k).len() implies {
                    let r = #[trigger] self.ends_at(k)[q];
                    &&& self.valid_ref(r)
                    &&& r.0 <= n
                    &&& self.node(r).end + 1 == k
                } by {
                if !(k == e1 && q == pre.ends_at(k).len()) {
                    assert(self.ends_at(k)[q] == pre.ends_at(k)[q]);
                }
            }
            assert forall|i: int, jj: int| 0 <= i <= n && 0 <= jj < self.nodes_at(i).len() implies #[trigger] self.listed(i, jj) by {
                if i == b1 && jj == j {
                    assert(self.ends_at(e1 as int)[pre.ends_at(e1 as int).len() as int] == (b1, j));
                } else {
                    assert(pre.listed(i, jj));
                    let k = pre.nodes_at(i)[jj].end + 1;
                    let q = choose|q: int| 0 <= q < pre.ends_at(k).len() && #[trigger] pre.ends_at(k)[q] == (i as usize, jj as usize);
                    assert(self.ends_at(k)[q] == (i as usize, jj as usize));
                }
            }
        }
    }
}

impl LatticeNode {
    pub open spec fn spec_new(begin: usize, end: usize, token: Token) -> LatticeNode {
        LatticeNode { token, begin, end, total_cost: UNREACHED, prev: None }
    }
}

impl Lattice {
    /// Adds a node over bytes `begin..end` for each of `tokens`, in order.
    fn set_tokens(&mut self, begin: usize, end: usize, tokens: &[Token])
        requires
            old(self).shape((old(self).slots() - 2) as int),
            old(self).fresh(),
            begin < end <= old(self).slots() - 2,
        ensures
            final(self).shape((old(self).slots() - 2) as int),
            final(self).fresh(),
            final(self).slots() == old(self).slots(),
            final(self).nodes_at(begin + 1).len() == old(self).nodes_at(begin + 1).len() + tokens@.len(),
            forall|j: int|
                0 <= j < old(self).nodes_at(begin + 1).len() ==> #[trigger] final(self).nodes_at(begin + 1)[j]
                    == old(self).nodes_at(begin + 1)[j],
            forall|j: int|
                old(self).nodes_at(begin + 1).len() <= j < final(self).nodes_at(begin + 1).len()
                    ==> #[trigger] final(self).nodes_at(begin + 1)[j] == LatticeNode::spec_new(
                    begin,
                    end,
                    tokens@[j - old(self).nodes_at(begin + 1).len()],
                ),
            forall|i: int| 0 <= i < final(self).slots() && i != begin + 1 ==> #[trigger] final(self).nodes_at(i)
                == old(self).nodes_at(i),
    {
        let ghost base_len = self.nodes_at(begin + 1).len();
        let mut k: usize = 0;
        while k < tokens.len()
            invariant
                self.shape((old(self).slots() - 2) as int),
                self.fresh(),
                self.slots() == old(self).slots(),
                begin < end <= old(self).slots() - 2,
                k <= tokens@.len(),
                base_len == old(self).nodes_at(begin + 1).len(),
                self.nodes_at(begin + 1).len() == base_len + k,
                forall|j: int| 0 <= j < base_len ==> #[trigger] self.nodes_at(begin + 1)[j] == old(self).nodes_at(begin + 1)[j],
                forall|j: int|
                    base_len <= j < base_len + k ==> #[trigger] self.nodes_at(begin + 1)[j] == LatticeNode::spec_new(
                        begin,
                        end,
                        tokens@[j - base_len],
                    ),
                forall|i: int| 0 <= i < self.slots() && i != begin + 1 ==> #[trigger] self.nodes_at(i) == old(self).nodes_at(i),
            decreases tokens@.len() - k,
        {
            let ghost pre = *self;
            self.set_token(begin, end, tokens[k]);
            proof {
                assert forall|i: int, j: int|
                    1 <= i < self.slots() && 0 <= j < self.nodes_at(i).len() implies (#[trigger] self.nodes_at(i)[j]).total_cost
                        == UNREACHED && self.nodes_at(i)[j].prev is None by {
                    if i != begin + 1 || j < pre.nodes_at(i).len() {
                        assert(self.nodes_at(i)[j] == pre.nodes_at(i)[j]);
                    }
                }
                assert(self.nodes_at(0) == pre.nodes_at(0));
            }
            k = k + 1;
        }
    }

    /// Puts the first node in slot 0 and the last in the final slot.
    fn set_bos_eos(&mut self)
        requires
            old(self).slots() >= 2,
            old(self).end_slots() == old(self).slots(),
            forall|i: int| 0 <= i < old(self).slots() ==> (#[trigger] old(self).nodes_at(i)).len() == 0,
            forall|k: int| 0 <= k < old(self).slots() ==> (#[trigger] old(self).ends_at(k)).len() == 0,
        ensures
            final(self).slots() == old(self).slots(),
            final(self).shape(final(self).slots() - 2),
            final(self).fresh(),
            forall|i: int| 1 <= i < final(self).slots() - 1 ==> (#[trigger] final(self).nodes_at(i)).len() == 0,
    {
        let last = self.start.len() - 1;
        let eos_bos = Token::eos_bos();
        self.start[0].push(LatticeNode { token: eos_bos, begin: 0, end: 0, total_cost: 0, prev: None });
        self.end[1].push((0, 0));
        self.start[last].push(LatticeNode { token: eos_bos, begin: last - 1, end: last - 1, total_cost: UNREACHED, prev: None });
        proof {
            let n = self.slots() - 2;
            assert(old(self).nodes_at(0).len() == 0);
            assert(old(self).ends_at(1).len() == 0);
            assert(old(self).nodes_at(last as int).len() == 0);
            assert(self.nodes_at(0).len() == 1);
            assert(self.ends_at(1).len() == 1);
            assert forall|i: int| 0 < i < last implies #[trigger] self.nodes_at(i) == old(self).nodes_at(i) by {}
            assert forall|k: int| 0 <= k < self.slots() && k != 1 implies #[trigger] self.ends_at(k) == old(self).ends_at(k) by {}
            assert forall|i: int, j: int| 0 <= i <= n && 0 <= j < self.nodes_at(i).len() implies #[trigger] self.listed(i, j) by {
                if i > 0 {
                    assert(self.nodes_at(i) == old(self).nodes_at(i));
                }
                assert(i == 0 && j == 0);
                assert(self.nodes_at(0)[0].end + 1 == 1);
                assert(self.ends_at(self.nodes_at(0)[0].end + 1)[0] == (0usize, 0usize));
            }
            assert forall|k: int, q: int|
                0 <= k < self.slots() && 0 <= q < self.ends_at(k).len() implies {
                    let r = #[trigger] self.ends_at(k)[q];
                    &&& self.valid_ref(r)
                    &&& r.0 <= n
                    &&& self.node(r).end + 1 == k
                } by {
                if k != 1 {
                    assert(self.ends_at(k) == old(self).ends_at(k));
                }
                assert(k == 1 && q == 0);
            }
        }
    }

    /// The lattice of `bytes` over `dict`: for each byte that starts a
    /// character, an unknown node over that character, and a node for every
    /// token the dictionary holds for each run of bytes starting there.
    pub fn build(dict: &DictionarySet<Token>, bytes: &[u8]) -> (r: Lattice)
        requires
            bytes@.len() < 0xffff_fff0,
        ensures
            r.shape(bytes@.len() as int),
            r.fresh(),
            r.complete(*dict, bytes@, bytes@.len() as int),
            forall|i: int| 0 <= i < bytes@.len() ==> #[trigger] r.nodes_at(i + 1) == slot_nodes(*dict, bytes@, i),
            forall|i: int, j: int|
                1 <= i <= bytes@.len() && 0 <= j < r.nodes_at(i).len() ==> node_sound(
                    *dict,
                    bytes@,
                    #[trigger] r.nodes_at(i)[j],
                    i,
                ),
    {
        let n = bytes.len();
        let mut lattice = Lattice::new(n + 2);
        lattice.set_bos_eos();
        let mut i: usize = 0;
        while i < n
            invariant
                n == bytes@.len(),
                n < 0xffff_fff0,
                i <= n,
                lattice.slots() == n + 2,
                lattice.shape(n as int),
                lattice.fresh(),
                lattice.complete(*dict, bytes@, i as int),
                forall|p: int, j: int|
                    1 <= p <= n && 0 <= j < lattice.nodes_at(p).len() ==> node_sound(
                        *dict,
                        bytes@,
                        #[trigger] lattice.nodes_at(p)[j],
                        p,
                    ),
                forall|q: int| 0 <= q < i ==> #[trigger] lattice.nodes_at(q + 1) == slot_nodes(*dict, bytes@, q),
                forall|q: int| i < q <= n ==> (#[trigger] lattice.nodes_at(q)).len() == 0,
            decreases n - i,
        {
            let ghost start_of_i = lattice;
            let ghost unk = match unknown_end(bytes@, i as int) {
                Some(e) => seq![LatticeNode::spec_new(i, e as usize, Token::spec_unknown())],
                None => Seq::<LatticeNode>::empty(),
            };
            proof {
                assert(lattice.nodes_at(i + 1).len() == 0);
            }
            if let Some(e) = unknown_end_of(bytes, i) {
                let ghost pre = lattice;
                lattice.set_token(i, e, Token::unknown());
                proof {
                    assert(lattice.nodes_at(i + 1) =~= unk);
                    assert forall|q: int| 0 <= q < i implies #[trigger] lattice.nodes_at(q + 1) == slot_nodes(*dict, bytes@, q) by {
                        assert(lattice.nodes_at(q + 1) == pre.nodes_at(q + 1));
                    }
                    assert forall|q: int| i + 1 < q <= n implies (#[trigger] lattice.nodes_at(q)).len() == 0 by {
                        assert(lattice.nodes_at(q) == pre.nodes_at(q));
                    }
                    lattice.lemma_has_node_grows(pre);
                    let x = LatticeNode::spec_new(i, e, Token::spec_unknown());
                    assert(lattice.nodes_at(i + 1)[pre.nodes_at(i + 1).len() as int] == x);
                    assert(lattice.has_node(i + 1, x));
                    assert forall|p: int, j: int|
                        1 <= p <= n && 0 <= j < lattice.nodes_at(p).len() implies node_sound(
                            *dict,
                            bytes@,
                            #[trigger] lattice.nodes_at(p)[j],
                            p,
                        ) by {
                        if p != i + 1 || j < pre.nodes_at(p).len() {
                            assert(lattice.nodes_at(p)[j] == pre.nodes_at(p)[j]);
                        }
                    }
                    assert forall|p: int, j: int|
                        1 <= p < lattice.slots() && 0 <= j < lattice.nodes_at(p).len() implies (#[trigger] lattice.nodes_at(p)[j]).total_cost
                            == UNREACHED && lattice.nodes_at(p)[j].prev is None by {
                        if p != i + 1 || j < pre.nodes_at(p).len() {
                            assert(lattice.nodes_at(p)[j] == pre.nodes_at(p)[j]);
                        }
                    }
                    assert(lattice.nodes_at(0) == pre.nodes_at(0));
                }
            }
            let mut idx: usize = 1;
            let mut j: usize = i;
            let mut stopped = false;
            while j < n && !stopped
                invariant
                    n == bytes@.len(),
                    i < n,
                    i <= j <= n,
                    lattice.slots() == n + 2,
                    lattice.shape(n as int),
                    lattice.fresh(),
                    lattice.complete(*dict, bytes@, i as int),
                    unknown_end(bytes@, i as int) is Some ==> lattice.has_node(
                        i + 1,
                        LatticeNode::spec_new(i, unknown_end(bytes@, i as int)->0 as usize, Token::spec_unknown()),
                    ),
                    forall|p: int, k: int|
                        i < p <= j && 0 <= k < tokens_at(*dict, bytes@, i as int, p).len() ==> #[trigger] lattice.has_node(
                            i + 1,
                            LatticeNode::spec_new(i, p as usize, tokens_at(*dict, bytes@, i as int, p)[k]),
                        ),
                    !stopped ==> walk(dict.base_arr@, dict.check_arr@, bytes@.subrange(i as int, j as int)) == Some(idx as int),
                    lattice.nodes_at(i + 1) == unk + dict_nodes(*dict, bytes@, i as int, j as int),
                    unk == (match unknown_end(bytes@, i as int) {
                        Some(e) => seq![LatticeNode::spec_new(i, e as usize, Token::spec_unknown())],
                        None => Seq::<LatticeNode>::empty(),
                    }),
                    forall|q: int| 0 <= q < i ==> #[trigger] lattice.nodes_at(q + 1) == slot_nodes(*dict, bytes@, q),
                    forall|q: int| i + 1 < q <= n ==> (#[trigger] lattice.nodes_at(q)).len() == 0,
                    stopped ==> j < n && walk(dict.base_arr@, dict.check_arr@, bytes@.subrange(i as int, j + 1)) is None,
                    forall|p: int, jj: int|
                        1 <= p <= n && 0 <= jj < lattice.nodes_at(p).len() ==> node_sound(
                            *dict,
                            bytes@,
                            #[trigger] lattice.nodes_at(p)[jj],
                            p,
                        ),
                decreases n - j + if stopped { 0int } else { 1int },
            {
                assert(bytes@.subrange(i as int, j + 1).drop_last() =~= bytes@.subrange(i as int, j as int));
                match dict.next_state(idx, bytes[j]) {
                    Some(next) => {
                        idx = next;
                    },
                    None => {
                        stopped = true;
                        continue;
                    },
                }
                match dict.values_of_state(idx) {
                    Some(vs) => {
                        let ghost pre = lattice;
                        let ghost key = bytes@.subrange(i as int, j + 1);
                        assert(lookup(dict.base_arr@, dict.check_arr@, dict.data_arr@, key) == Some(vs@));
                        lattice.set_tokens(i, j + 1, vs);
                        proof {
                            lattice.lemma_has_node_grows(pre);
                            assert(tokens_at(*dict, bytes@, i as int, j + 1) == vs@);
                            assert(lattice.nodes_at(i + 1) =~= unk + dict_nodes(*dict, bytes@, i as int, j + 1));
                            assert forall|q: int| 0 <= q < i implies #[trigger] lattice.nodes_at(q + 1) == slot_nodes(*dict, bytes@, q) by {
                                assert(lattice.nodes_at(q + 1) == pre.nodes_at(q + 1));
                            }
                            assert forall|q: int| i + 1 < q <= n implies (#[trigger] lattice.nodes_at(q)).len() == 0 by {
                                assert(lattice.nodes_at(q) == pre.nodes_at(q));
                            }
                            assert forall|p: int, k: int|
                                i < p <= j + 1 && 0 <= k < tokens_at(*dict, bytes@, i as int, p).len() implies #[trigger] lattice.has_node(
                                    i + 1,
                                    LatticeNode::spec_new(i, p as usize, tokens_at(*dict, bytes@, i as int, p)[k]),
                                ) by {
                                if p == j + 1 {
                                    let at = pre.nodes_at(i + 1).len() + k;
                                    assert(lattice.nodes_at(i + 1)[at] == LatticeNode::spec_new(i, p as usize, vs@[k]));
                                } else {
                                    assert(pre.has_node(
                                        i + 1,
                                        LatticeNode::spec_new(i, p as usize, tokens_at(*dict, bytes@, i as int, p)[k]),
                                    ));
                                }
                            }
                            assert forall|p: int, jj: int|
                                1 <= p <= n && 0 <= jj < lattice.nodes_at(p).len() implies node_sound(
                                    *dict,
                                    bytes@,
                                    #[trigger] lattice.nodes_at(p)[jj],
                                    p,
                                ) by {
                                if p != i + 1 || jj < pre.nodes_at(p).len() {
                                    assert(lattice.nodes_at(p)[jj] == pre.nodes_at(p)[jj]);
                                } else {
                                    let x = lattice.nodes_at(p)[jj];
                                    let t = vs@[jj - pre.nodes_at(p).len()];
                                    assert(x.token == t);
                                    assert(vs@.contains(t));
                                    assert(bytes@.subrange(x.begin as int, x.end as int) == key);
                                }
                            }
                        }
                    },
                    None => {
                        assert(tokens_at(*dict, bytes@, i as int, j + 1).len() == 0);
                        assert(dict_nodes(*dict, bytes@, i as int, j + 1) =~= dict_nodes(*dict, bytes@, i as int, j as int));
                    },
                }
                j = j + 1;
            }
            proof {
                assert forall|p: int, k: int|
                    i < p <= n && 0 <= k < tokens_at(*dict, bytes@, i as int, p).len() implies #[trigger] lattice.has_node(
                        i + 1,
                        LatticeNode::spec_new(i, p as usize, tokens_at(*dict, bytes@, i as int, p)[k]),
                    ) by {
                    if p > j {
                        let key = bytes@.subrange(i as int, p);
                        assert(key.subrange(0, j + 1 - i) =~= bytes@.subrange(i as int, j + 1));
                        lemma_walk_prefix(dict.base_arr@, dict.check_arr@, key, j + 1 - i);
                    }
                }
                assert forall|q: int| j < q <= n implies (#[trigger] tokens_at(*dict, bytes@, i as int, q)).len() == 0 by {
                    let key = bytes@.subrange(i as int, q);
                    assert(key.subrange(0, j + 1 - i) =~= bytes@.subrange(i as int, j + 1));
                    lemma_walk_prefix(dict.base_arr@, dict.check_arr@, key, j + 1 - i);
                }
                lemma_dict_nodes_stop(*dict, bytes@, i as int, j as int, n as int);
                assert(lattice.nodes_at(i + 1) == slot_nodes(*dict, bytes@, i as int));
                assert forall|ii: int|
                    0 <= ii < i + 1 && unknown_end(bytes@, ii) is Some implies #[trigger] lattice.has_node(
                        ii + 1,
                        LatticeNode::spec_new(ii as usize, unknown_end(bytes@, ii)->0 as usize, Token::spec_unknown()),
                    ) by {}
                assert forall|ii: int, p: int, k: int|
                    0 <= ii < i + 1 && ii < p <= bytes@.len() && 0 <= k < tokens_at(*dict, bytes@, ii, p).len()
                        implies #[trigger] lattice.has_node(
                        ii + 1,
                        LatticeNode::spec_new(ii as usize, p as usize, tokens_at(*dict, bytes@, ii, p)[k]),
                    ) by {}
            }
            i = i + 1;
        }
        lattice
    }
}

/// The slot of the node that `b`'s path comes through.
pub open spec fn prev_slot(b: LatticeNode) -> int {
    match b.prev {
        Some(r) => r.0 as int,
        None => 0,
    }
}

/// The slot of the node that `r` names, if any.
pub open spec fn ref_slot(r: Option<(usize, usize)>) -> int {
    match r {
        Some(x) => x.0 as int,
        None => 0,
    }
}

/// A bound on the total cost of a reached node of slot `i`: each step adds
/// at most two 16-bit costs.
pub open spec fn cost_bound(i: int) -> int {
    70000 * i
}

impl Lattice {
    /// Whether nodes `a` and `b` cover the same bytes with the same token.
    pub open spec fn same_node(a: LatticeNode, b: LatticeNode) -> bool {
        a.token == b.token && a.begin == b.begin && a.end == b.end
    }

    /// Whether this lattice has the nodes and end lists of `other`.
    pub open spec fn same_structure(&self, other: Lattice) -> bool {
        &&& self.slots() == other.slots()
        &&& self.end_slots() == other.end_slots()
        &&& forall|k: int| 0 <= k < self.end_slots() ==> #[trigger] self.ends_at(k) == other.ends_at(k)
        &&& forall|i: int| 0 <= i < self.slots() ==> #[trigger] self.nodes_at(i).len() == other.nodes_at(i).len()
        &&& forall|i: int, j: int|
            0 <= i < self.slots() && 0 <= j < self.nodes_at(i).len() ==> Self::same_node(
                #[trigger] self.nodes_at(i)[j],
                other.nodes_at(i)[j],
            )
    }

    /// The shape of a lattice depends only on its nodes' bytes and tokens and
    /// on its end lists.
    pub proof fn lemma_shape_same(&self, other: Lattice, n: int)
        requires
            other.shape(n),
            self.same_structure(other),
            0 <= n < 0xffff_fff0,
        ensures
            self.shape(n),
    {
        assert forall|r: (usize, usize)| other.valid_ref(r) implies self.valid_ref(r) && Self::same_node(
            #[trigger] self.node(r),
            other.node(r),
        ) by {
            assert(Self::same_node(self.nodes_at(r.0 as int)[r.1 as int], other.nodes_at(r.0 as int)[r.1 as int]));
        }
        assert(Self::same_node(self.nodes_at(0)[0], other.nodes_at(0)[0]));
        assert(Self::same_node(self.nodes_at(n + 1)[0], other.nodes_at(n + 1)[0]));
        assert forall|i: int, j: int|
            1 <= i <= n && 0 <= j < self.nodes_at(i).len() implies {
                let x = #[trigger] self.nodes_at(i)[j];
                &&& x.begin == i - 1
                &&& i - 1 < x.end <= n
            } by {
            assert(Self::same_node(self.nodes_at(i)[j], other.nodes_at(i)[j]));
        }
        assert forall|k: int, q: int|
            0 <= k < self.slots() && 0 <= q < self.ends_at(k).len() implies {
                let r = #[trigger] self.ends_at(k)[q];
                &&& self.valid_ref(r)
                &&& r.0 <= n
                &&& self.node(r).end + 1 == k
            } by {
            assert(self.ends_at(k) == other.ends_at(k));
            let r = other.ends_at(k)[q];
            assert(Self::same_node(self.nodes_at(r.0 as int)[r.1 as int], other.nodes_at(r.0 as int)[r.1 as int]));
        }
        assert forall|i: int, j: int| 0 <= i <= n && 0 <= j < self.nodes_at(i).len() implies #[trigger] self.listed(i, j) by {
            assert(other.listed(i, j));
            assert(Self::same_node(self.nodes_at(i)[j], other.nodes_at(i)[j]));
            let k = other.nodes_at(i)[j].end + 1;
            assert(self.ends_at(k) == other.ends_at(k));
            let q = choose|q: int| 0 <= q < other.ends_at(k).len() && #[trigger] other.ends_at(k)[q] == (i as usize, j as usize);
            assert(self.ends_at(k)[q] == (i as usize, j as usize));
        }
    }

    /// Node `(i, j)` costs no more than any reached node before it plus the
    /// step, and a reached one names a reached node before it through which
    /// its cost is exactly met.
    pub open spec fn settled(&self, m: Seq<i16>, lm: int, rm: int, i: int, j: int) -> bool {
        let b = self.nodes_at(i)[j];
        &&& forall|q: int|
            0 <= q < self.ends_at(i).len() ==> {
                let a = #[trigger] self.ends_at(i)[q];
                self.node(a).total_cost != UNREACHED ==> b.total_cost <= self.node(a).total_cost + edge_cost(
                    m,
                    lm,
                    rm,
                    self.node(a),
                    b,
                )
            }
        &&& b.total_cost != UNREACHED ==> {
            &&& b.prev is Some
            &&& self.valid_ref(b.prev->0)
            &&& prev_slot(b) < i
            &&& prev_slot(b) < self.slots() - 1
            &&& self.node(b.prev->0).end + 1 == i
            &&& self.node(b.prev->0).total_cost != UNREACHED
            &&& b.total_cost == self.node(b.prev->0).total_cost + edge_cost(m, lm, rm, self.node(b.prev->0), b)
        }
        &&& b.total_cost != UNREACHED ==> -cost_bound(i) <= b.total_cost <= cost_bound(i)
        &&& b.total_cost != UNREACHED ==> self.first_winner(m, lm, rm, i, b)
    }

    /// The node `b` of slot `i` comes through the first node of its end list
    /// that gives its cost: every earlier reached one would cost more.
    pub open spec fn first_winner(&self, m: Seq<i16>, lm: int, rm: int, i: int, b: LatticeNode) -> bool {
        exists|qp: int|
            0 <= qp < self.ends_at(i).len() && #[trigger] self.ends_at(i)[qp] == b.prev->0 && forall|q: int|
                0 <= q < qp ==> {
                    let a = #[trigger] self.ends_at(i)[q];
                    self.node(a).total_cost != UNREACHED ==> b.total_cost < self.node(a).total_cost
                        + edge_cost(m, lm, rm, self.node(a), b)
                }
    }

    /// Every node after the first is settled, and the first is reached at 0.
    pub open spec fn analyzed(&self, m: Seq<i16>, lm: int, rm: int) -> bool {
        &&& self.node((0, 0)).total_cost == 0
        &&& self.node((0, 0)).prev is None
        &&& forall|i: int, j: int|
            1 <= i < self.slots() && 0 <= j < self.nodes_at(i).len() ==> #[trigger] self.settled(m, lm, rm, i, j)
    }

    /// Finds, for each node in order of its slot, the cheapest path to it
    /// from the first node and the node that path comes through.
    pub fn analyze(&mut self, dict: &DictionarySet<Token>)
        requires
            old(self).shape(old(self).slots() - 2),
            old(self).fresh(),
            old(self).slots() < 0xffff_fff0,
        ensures
            final(self).same_structure(*old(self)),
            final(self).shape(final(self).slots() - 2),
            final(self).analyzed(
                dict.matrix@,
                dict.header.matrix_left_max as int,
                dict.header.matrix_right_max as int,
            ),
    {
        let ghost m = dict.matrix@;
        let ghost lm = dict.header.matrix_left_max as int;
        let ghost rm = dict.header.matrix_right_max as int;
        let ghost n = self.slots() - 2;
        let slots = self.start.len();
        let mut si: usize = 1;
        while si < slots
            invariant
                slots == self.slots(),
                slots < 0xffff_fff0,
                n == slots - 2,
                1 <= si <= slots,
                m == dict.matrix@,
                lm == dict.header.matrix_left_max as int,
                rm == dict.header.matrix_right_max as int,
                self.same_structure(*old(self)),
                self.shape(n),
                self.node((0, 0)).total_cost == 0,
                self.node((0, 0)).prev is None,
                forall|i: int, j: int|
                    1 <= i < si && 0 <= j < self.nodes_at(i).len() ==> #[trigger] self.settled(m, lm, rm, i, j),
                forall|i: int, j: int|
                    si <= i < slots && 0 <= j < self.nodes_at(i).len() ==> (#[trigger] self.nodes_at(i)[j]).total_cost
                        == UNREACHED && self.nodes_at(i)[j].prev is None,
            decreases slots - si,
        {
            let count = self.start[si].len();
            let mut sj: usize = 0;
            while sj < count
                invariant
                    slots == self.slots(),
                    slots < 0xffff_fff0,
                    n == slots - 2,
                    1 <= si < slots,
                    count == self.nodes_at(si as int).len(),
                    sj <= count,
                    m == dict.matrix@,
                    lm == dict.header.matrix_left_max as int,
                    rm == dict.header.matrix_right_max as int,
                    self.same_structure(*old(self)),
                    self.shape(n),
                    self.node((0, 0)).total_cost == 0,
                    self.node((0, 0)).prev is None,
                    forall|i: int, j: int|
                        1 <= i < si && 0 <= j < self.nodes_at(i).len() ==> #[trigger] self.settled(m, lm, rm, i, j),
                    forall|j: int| 0 <= j < sj ==> #[trigger] self.settled(m, lm, rm, si as int, j),
                    forall|j: int|
                        sj <= j < count ==> (#[trigger] self.nodes_at(si as int)[j]).total_cost == UNREACHED
                            && self.nodes_at(si as int)[j].prev is None,
                    forall|i: int, j: int|
                        si < i < slots && 0 <= j < self.nodes_at(i).len() ==> (#[trigger] self.nodes_at(i)[j]).total_cost
                            == UNREACHED && self.nodes_at(i)[j].prev is None,
                decreases count - sj,
            {
                let ghost pre = *self;
                let mut cur = self.start[si][sj];
                let ghost b0 = cur;
                let lefts = self.end[si].len();
                let mut q: usize = 0;
                while q < lefts
                    invariant
                        slots == self.slots(),
                        1 <= si < slots,
                        slots < 0xffff_fff0,
                        n == slots - 2,
                        sj < count,
                        count == self.nodes_at(si as int).len(),
                        *self == pre,
                        lefts == self.ends_at(si as int).len(),
                        q <= lefts,
                        m == dict.matrix@,
                        lm == dict.header.matrix_left_max as int,
                        rm == dict.header.matrix_right_max as int,
                        self.shape(n),
                        self.node((0, 0)).total_cost == 0,
                        forall|i: int, j: int|
                            1 <= i < si && 0 <= j < self.nodes_at(i).len() ==> #[trigger] self.settled(m, lm, rm, i, j),
                        Self::same_node(cur, b0),
                        b0 == self.nodes_at(si as int)[sj as int],
                        b0.total_cost == UNREACHED,
                        forall|qq: int|
                            0 <= qq < q ==> {
                                let a = #[trigger] self.ends_at(si as int)[qq];
                                self.node(a).total_cost != UNREACHED ==> cur.total_cost <= self.node(a).total_cost
                                    + edge_cost(m, lm, rm, self.node(a), cur)
                            },
                        cur.total_cost != UNREACHED ==> {
                            &&& cur.prev is Some
                            &&& self.valid_ref(cur.prev->0)
                            &&& prev_slot(cur) < si
                            &&& prev_slot(cur) < slots - 1
                            &&& self.node(cur.prev->0).end + 1 == si
                            &&& self.node(cur.prev->0).total_cost != UNREACHED
                            &&& cur.total_cost == self.node(cur.prev->0).total_cost + edge_cost(
                                m,
                                lm,
                                rm,
                                self.node(cur.prev->0),
                                cur,
                            )
                        },
                        cur.total_cost != UNREACHED ==> -cost_bound(si as int) <= cur.total_cost <= cost_bound(si as int),
                        cur.total_cost != UNREACHED ==> exists|qp: int|
                            0 <= qp < q && #[trigger] self.ends_at(si as int)[qp] == cur.prev->0 && forall|q2: int|
                                0 <= q2 < qp ==> {
                                    let a = #[trigger] self.ends_at(si as int)[q2];
                                    self.node(a).total_cost != UNREACHED ==> cur.total_cost < self.node(a).total_cost
                                        + edge_cost(m, lm, rm, self.node(a), cur)
                                },
                    decreases lefts - q,
                {
                    let (ei, ej) = self.end[si][q];
                    let ghost a = (ei, ej);
                    proof {
                        assert(self.ends_at(si as int)[q as int] == a);
                        assert(self.valid_ref(a));
                        if ei > 0 {
                            assert(self.nodes_at(ei as int)[ej as int].begin == ei - 1);
                        }
                    }
                    let left = self.start[ei][ej];
                    if left.total_cost != UNREACHED {
                        proof {
                            assert(ei >= 1 ==> self.settled(m, lm, rm, ei as int, ej as int));
                        }
                        let conn = dict.get_matrix(cur.token.left_id as usize, left.token.right_id as usize) as i64;
                        let cand = left.total_cost + conn + cur.token.cost as i64;
                        if cand < cur.total_cost {
                            let ghost old_cur = cur;
                            cur.total_cost = cand;
                            cur.prev = Some((ei, ej));
                            proof {
                                assert(self.ends_at(si as int)[q as int] == cur.prev->0);
                                assert forall|q2: int| 0 <= q2 < q implies {
                                    let a = #[trigger] self.ends_at(si as int)[q2];
                                    self.node(a).total_cost != UNREACHED ==> cur.total_cost < self.node(a).total_cost
                                        + edge_cost(m, lm, rm, self.node(a), cur)
                                } by {
                                    let a = self.ends_at(si as int)[q2];
                                    assert(edge_cost(m, lm, rm, self.node(a), cur) == edge_cost(m, lm, rm, self.node(a), old_cur));
                                }
                            }
                        }
                    }
                    q = q + 1;
                }
                self.start[si].set(sj, cur);
                proof {
                    assert forall|i: int| 0 <= i < self.slots() && i != si implies #[trigger] self.nodes_at(i) == pre.nodes_at(i) by {}
                    assert forall|k: int| 0 <= k < self.end_slots() implies #[trigger] self.ends_at(k) == pre.ends_at(k) by {}
                    assert forall|r: (usize, usize)| r.0 < si && pre.valid_ref(r) implies self.valid_ref(r) && #[trigger] self.node(r) == pre.node(r) by {}
                    assert forall|i: int, j: int|
                        1 <= i < si && 0 <= j < self.nodes_at(i).len() implies #[trigger] self.settled(m, lm, rm, i, j) by {
                        assert(pre.settled(m, lm, rm, i, j));
                        assert forall|qq: int| 0 <= qq < self.ends_at(i).len() implies (#[trigger] self.ends_at(i)[qq]).0 < si by {
                            let r = self.ends_at(i)[qq];
                            if r.0 > 0 {
                                assert(pre.nodes_at(r.0 as int)[r.1 as int].begin == r.0 - 1);
                            }
                        }
                    }
                    assert forall|j: int| 0 <= j < sj + 1 implies #[trigger] self.settled(m, lm, rm, si as int, j) by {
                        assert forall|qq: int| 0 <= qq < self.ends_at(si as int).len() implies (#[trigger] self.ends_at(si as int)[qq]).0 < si by {
                            let r = self.ends_at(si as int)[qq];
                            if r.0 > 0 {
                                assert(pre.nodes_at(r.0 as int)[r.1 as int].begin == r.0 - 1);
                            }
                        }
                        if j < sj {
                            assert(pre.settled(m, lm, rm, si as int, j));
                            assert(self.nodes_at(si as int)[j] == pre.nodes_at(si as int)[j]);
                        }
                    }
                    assert(self.same_structure(*old(self)));
                    self.lemma_shape_same(pre, n);
                }
                sj = sj + 1;
            }
            si = si + 1;
        }
    }
}

impl Lattice {
    /// The cost of the steps along `p`.
    pub open spec fn path_cost(&self, m: Seq<i16>, lm: int, rm: int, p: Seq<(usize, usize)>) -> int
        decreases p.len(),
    {
        if p.len() < 2 {
            0
        } else {
            self.path_cost(m, lm, rm, p.drop_last()) + edge_cost(
                m,
                lm,
                rm,
                self.node(p[p.len() - 2]),
                self.node(p.last()),
            )
        }
    }

    /// Whether `p` runs from the first node through connected nodes.
    pub open spec fn is_chain(&self, p: Seq<(usize, usize)>) -> bool {
        &&& p.len() >= 1
        &&& p[0] == (0usize, 0usize)
        &&& forall|k: int| 0 <= k < p.len() - 1 ==> #[trigger] self.connects(p[k], p[k + 1])
    }

    /// Whether `p` runs from the first node to the last through connected
    /// nodes.
    pub open spec fn is_path(&self, p: Seq<(usize, usize)>) -> bool {
        &&& self.is_chain(p)
        &&& p.len() >= 2
        &&& p.last() == ((self.slots() - 1) as usize, 0usize)
    }

    /// The node refs along the back pointers that end at `r`.
    pub open spec fn chain(&self, r: (usize, usize)) -> Seq<(usize, usize)>
        decreases r.0,
    {
        match self.node(r).prev {
            Some(a) => if a.0 < r.0 {
                self.chain(a).push(r)
            } else {
                seq![r]
            },
            None => seq![r],
        }
    }

    /// The last node.
    pub open spec fn eos(&self) -> (usize, usize) {
        ((self.slots() - 1) as usize, 0usize)
    }

    /// A path to a node costs at least the node's total cost, which is
    /// therefore reached.
    proof fn lemma_chain_cost(&self, m: Seq<i16>, lm: int, rm: int, p: Seq<(usize, usize)>)
        requires
            self.shape(self.slots() - 2),
            self.slots() < 0xffff_fff0,
            self.analyzed(m, lm, rm),
            self.is_chain(p),
            self.valid_ref(p.last()),
        ensures
            self.node(p.last()).total_cost != UNREACHED,
            self.node(p.last()).total_cost <= self.path_cost(m, lm, rm, p),
        decreases p.len(),
    {
        if p.len() >= 2 {
            let q = p.drop_last();
            let k0 = p.len() - 2int;
            assert(self.connects(p[k0], p[k0 + 1]));
            assert forall|k: int| 0 <= k < q.len() - 1 implies #[trigger] self.connects(q[k], q[k + 1]) by {
                assert(self.connects(p[k], p[k + 1]));
            }
            self.lemma_chain_cost(m, lm, rm, q);
            let a = p[p.len() - 2];
            let b = p.last();
            assert(self.listed(a.0 as int, a.1 as int));
            let qq = choose|qq: int|
                0 <= qq < self.ends_at(self.nodes_at(a.0 as int)[a.1 as int].end + 1).len() && #[trigger] self.ends_at(
                    self.nodes_at(a.0 as int)[a.1 as int].end + 1,
                )[qq] == (a.0, a.1);
            assert(self.settled(m, lm, rm, b.0 as int, b.1 as int));
            assert(self.ends_at(b.0 as int)[qq] == a);
            if a.0 >= 1 {
                assert(self.settled(m, lm, rm, a.0 as int, a.1 as int));
            } else {
                assert(a == (0usize, 0usize));
            }
        } else {
            assert(p.last() == (0usize, 0usize));
        }
    }

    /// The best path is no dearer than any path: every path from the first
    /// node to the last costs at least the last node's total cost.
    pub proof fn lemma_best_path_optimal(&self, m: Seq<i16>, lm: int, rm: int, p: Seq<(usize, usize)>)
        requires
            self.shape(self.slots() - 2),
            self.slots() < 0xffff_fff0,
            self.analyzed(m, lm, rm),
            self.is_path(p),
        ensures
            self.node(self.eos()).total_cost != UNREACHED,
            self.node(self.eos()).total_cost <= self.path_cost(m, lm, rm, p),
    {
        assert(self.nodes_at(self.slots() - 1).len() == 1);
        self.lemma_chain_cost(m, lm, rm, p);
    }

    /// The back pointers from a reached node lead from the first node along
    /// connected nodes, at exactly the node's total cost.
    pub proof fn lemma_back_chain(&self, m: Seq<i16>, lm: int, rm: int, r: (usize, usize))
        requires
            self.shape(self.slots() - 2),
            self.slots() < 0xffff_fff0,
            self.analyzed(m, lm, rm),
            self.valid_ref(r),
            self.node(r).total_cost != UNREACHED,
        ensures
            self.is_chain(self.chain(r)),
            self.chain(r).last() == r,
            self.path_cost(m, lm, rm, self.chain(r)) == self.node(r).total_cost,
        decreases r.0,
    {
        if r.0 == 0 {
            assert(r == (0usize, 0usize));
            assert(self.chain(r) == seq![r]);
        } else {
            assert(self.settled(m, lm, rm, r.0 as int, r.1 as int));
            let a = self.node(r).prev->0;
            self.lemma_back_chain(m, lm, rm, a);
            let c = self.chain(r);
            let ca = self.chain(a);
            assert(c == ca.push(r));
            assert(c.drop_last() =~= ca);
            assert(self.connects(a, r));
            assert forall|k: int| 0 <= k < c.len() - 1 implies #[trigger] self.connects(c[k], c[k + 1]) by {
                if k < c.len() - 2 {
                    assert(self.connects(ca[k], ca[k + 1]));
                }
            }
        }
    }

    /// Two analyses of lattices with the same nodes and end lists reach the
    /// last node at the same total cost, or both leave it unreached.
    pub proof fn lemma_best_cost_determined(&self, other: Lattice, m: Seq<i16>, lm: int, rm: int)
        requires
            self.shape(self.slots() - 2),
            self.slots() < 0xffff_fff0,
            self.analyzed(m, lm, rm),
            other.same_structure(*self),
            other.analyzed(m, lm, rm),
        ensures
            self.node(self.eos()).total_cost == other.node(other.eos()).total_cost,
    {
        other.lemma_shape_same(*self, self.slots() - 2);
        assert(self.nodes_at(self.slots() - 1).len() == 1);
        assert(Self::same_node(other.nodes_at(self.slots() - 1)[0], self.nodes_at(self.slots() - 1)[0]));
        if self.node(self.eos()).total_cost != UNREACHED {
            self.lemma_back_chain(m, lm, rm, self.eos());
            let c = self.chain(self.eos());
            self.lemma_same_path(other, m, lm, rm, c);
            other.lemma_best_path_optimal(m, lm, rm, c);
        }
        if other.node(other.eos()).total_cost != UNREACHED {
            other.lemma_back_chain(m, lm, rm, other.eos());
            let c = other.chain(other.eos());
            assert(self.same_structure(other)) by {
                assert forall|i: int, j: int|
                    0 <= i < self.slots() && 0 <= j < self.nodes_at(i).len() implies Self::same_node(
                        #[trigger] self.nodes_at(i)[j],
                        other.nodes_at(i)[j],
                    ) by {
                    assert(Self::same_node(other.nodes_at(i)[j], self.nodes_at(i)[j]));
                }
            }
            other.lemma_same_path(*self, m, lm, rm, c);
            self.lemma_best_path_optimal(m, lm, rm, c);
        }
    }

    /// A path through one lattice is a path, at the same cost, through any
    /// lattice with the same nodes and end lists.
    proof fn lemma_same_path(&self, other: Lattice, m: Seq<i16>, lm: int, rm: int, p: Seq<(usize, usize)>)
        requires
            other.same_structure(*self),
            self.is_path(p),
        ensures
            other.is_path(p),
            other.path_cost(m, lm, rm, p) == self.path_cost(m, lm, rm, p),
        decreases p.len(),
    {
        assert forall|k: int| 0 <= k < p.len() - 1 implies #[trigger] other.connects(p[k], p[k + 1]) by {
            assert(self.connects(p[k], p[k + 1]));
            assert(Self::same_node(other.node(p[k]), self.node(p[k])));
        }
        assert forall|k: int| 0 <= k < p.len() implies #[trigger] self.valid_ref(p[k]) by {
            if k < p.len() - 1 {
                assert(self.connects(p[k], p[k + 1]));
            } else {
                let k1 = k - 1;
                assert(self.connects(p[k1], p[k1 + 1]));
            }
        }
        self.lemma_same_cost(other, m, lm, rm, p);
    }

    proof fn lemma_same_cost(&self, other: Lattice, m: Seq<i16>, lm: int, rm: int, p: Seq<(usize, usize)>)
        requires
            other.same_structure(*self),
            forall|k: int| 0 <= k < p.len() ==> #[trigger] self.valid_ref(p[k]),
        ensures
            other.path_cost(m, lm, rm, p) == self.path_cost(m, lm, rm, p),
        decreases p.len(),
    {
        if p.len() >= 2 {
            let q = p.drop_last();
            assert forall|k: int| 0 <= k < q.len() implies #[trigger] self.valid_ref(q[k]) by {
                assert(self.valid_ref(p[k]));
            }
            self.lemma_same_cost(other, m, lm, rm, q);
            let a = p[p.len() - 2];
            let b = p[p.len() - 1];
            assert(self.valid_ref(a) && self.valid_ref(b));
            assert(Self::same_node(other.node(a), self.node(a)));
            assert(Self::same_node(other.node(b), self.node(b)));
        }
    }

    /// The interior nodes of a path cover the input bytes one after another,
    /// from the first byte to the last, each node at least one byte.
    pub proof fn lemma_path_covers(&self, p: Seq<(usize, usize)>)
        requires
            self.shape(self.slots() - 2),
            self.slots() < 0xffff_fff0,
            self.is_path(p),
        ensures
            self.node(p[0]).end == 0,
            self.node(p[p.len() - 2]).end == self.slots() - 2,
            forall|k: int|
                1 <= k < p.len() - 1 ==> self.node(#[trigger] p[k]).begin == self.node(p[k - 1]).end && self.node(
                    p[k],
                ).begin < self.node(p[k]).end,
    {
        let n = self.slots() - 2;
        let k0 = p.len() - 2int;
        assert(self.connects(p[k0], p[k0 + 1]));
        assert(self.connects(p[0int], p[0int + 1]));
        assert forall|k: int|
            1 <= k < p.len() - 1 implies self.node(#[trigger] p[k]).begin == self.node(p[k - 1]).end && self.node(
                p[k],
            ).begin < self.node(p[k]).end by {
            let k1 = k - 1;
            assert(self.connects(p[k1], p[k1 + 1]));
            assert(self.connects(p[k], p[k + 1]));
            let x = self.nodes_at(p[k].0 as int)[p[k].1 as int];
            assert(x.begin == p[k].0 - 1);
        }
    }

    /// The total cost of the cheapest path to the last node, if it is reached.
    pub fn best_cost(&self) -> (r: Option<i64>)
        requires
            self.shape(self.slots() - 2),
        ensures
            r matches Some(c) ==> c == self.node(self.eos()).total_cost && c != UNREACHED,
            r is None ==> self.node(self.eos()).total_cost == UNREACHED,
    {
        let last = self.start.len() - 1;
        let eos = self.start[last][0];
        if eos.total_cost == UNREACHED {
            None
        } else {
            Some(eos.total_cost)
        }
    }

    /// The nodes of the cheapest path to the last node, first to last,
    /// without the first and last nodes; empty when the last node is not
    /// reached.
    pub fn get_result(&self) -> (r: Vec<LatticeNode>)
        requires
            self.shape(self.slots() - 2),
            self.slots() < 0xffff_fff0,
            exists|m: Seq<i16>, lm: int, rm: int| self.analyzed(m, lm, rm),
        ensures
            self.node(self.eos()).total_cost == UNREACHED ==> r@.len() == 0,
            self.node(self.eos()).total_cost != UNREACHED ==> {
                let c = self.chain(self.eos());
                &&& r@.len() == c.len() - 2
                &&& forall|k: int| 0 <= k < r@.len() ==> #[trigger] r@[k] == self.node(c[k + 1])
            },
    {
        let ghost (m, lm, rm) = choose|m: Seq<i16>, lm: int, rm: int| self.analyzed(m, lm, rm);
        let last = self.start.len() - 1;
        let eos = self.start[last][0];
        let mut rev: Vec<LatticeNode> = Vec::new();
        if eos.total_cost == UNREACHED {
            return rev;
        }
        let ghost e = self.eos();
        proof {
            self.lemma_back_chain(m, lm, rm, e);
            assert(self.settled(m, lm, rm, e.0 as int, 0));
        }
        let mut cur = eos.prev;
        let ghost mut tail: Seq<(usize, usize)> = Seq::empty();
        proof {
            let a = cur->0;
            assert(self.chain(e) == self.chain(a).push(e));
            assert(self.chain(e) =~= self.chain(a) + tail + seq![e]);
        }
        while cur.is_some()
            invariant
                self.shape(self.slots() - 2),
                self.slots() < 0xffff_fff0,
                self.analyzed(m, lm, rm),
                e == self.eos(),
                cur is Some,
                self.valid_ref(cur->0),
                self.node(cur->0).total_cost != UNREACHED,
                self.chain(e) == self.chain(cur->0) + tail + seq![e],
                rev@.len() == tail.len(),
                forall|k: int| 0 <= k < rev@.len() ==> #[trigger] rev@[k] == self.node(tail[tail.len() - 1 - k]),
            ensures
                cur is Some,
                self.node(cur->0).prev is None,
                self.chain(e) == self.chain(cur->0) + tail + seq![e],
                rev@.len() == tail.len(),
                forall|k: int| 0 <= k < rev@.len() ==> #[trigger] rev@[k] == self.node(tail[tail.len() - 1 - k]),
            decreases ref_slot(cur),
        {
            let a = cur.unwrap();
            let x = self.start[a.0][a.1];
            if x.prev.is_none() {
                break;
            }
            proof {
                assert(a.0 >= 1) by {
                    if a.0 == 0 {
                        assert(a == (0usize, 0usize));
                    }
                }
                assert(self.settled(m, lm, rm, a.0 as int, a.1 as int));
                let b = x.prev->0;
                assert(self.chain(a) == self.chain(b).push(a));
                assert(self.chain(e) =~= self.chain(b) + (seq![a] + tail) + seq![e]);
            }
            rev.push(x);
            proof {
                tail = seq![a] + tail;
            }
            cur = x.prev;
        }
        proof {
            let a = cur->0;
            assert(self.chain(a) == seq![a]);
        }
        let mut result: Vec<LatticeNode> = Vec::new();
        let mut k: usize = rev.len();
        while k > 0
            invariant
                k <= rev@.len(),
                result@.len() == rev@.len() - k,
                forall|i: int| 0 <= i < result@.len() ==> #[trigger] result@[i] == rev@[rev@.len() - 1 - i],
            decreases k,
        {
            result.push(rev[k - 1]);
            k = k - 1;
        }
        proof {
            let c = self.chain(e);
            assert forall|i: int| 0 <= i < result@.len() implies #[trigger] result@[i] == self.node(c[i + 1]) by {
                assert(c[i + 1] == tail[i]);
            }
        }
        result
    }
}

/// Whether `nodes` cover the bytes `0..n` one after another, each at least
/// one byte.
pub open spec fn covers(nodes: Seq<LatticeNode>, n: int) -> bool {
    &&& nodes.len() > 0 ==> nodes[0].begin == 0 && nodes.last().end == n
    &&& forall|k: int| 0 <= k < nodes.len() ==> (#[trigger] nodes[k]).begin < nodes[k].end
    &&& forall|k: int| 0 < k < nodes.len() ==> (#[trigger] nodes[k]).begin == nodes[k - 1].end
}

/// Whether `l` is the lattice of `bytes` over `dict` after analysis: it
/// holds exactly the candidates (the unknown node of each character and
/// every dictionary token of each run of bytes), and every node is settled.
pub open spec fn analyzed_lattice(l: Lattice, dict: DictionarySet<Token>, bytes: Seq<u8>) -> bool {
    &&& l.shape(bytes.len() as int)
    &&& l.slots() < 0xffff_fff0
    &&& l.complete(dict, bytes, bytes.len() as int)
    &&& forall|i: int, j: int|
        1 <= i <= bytes.len() && 0 <= j < l.nodes_at(i).len() ==> node_sound(dict, bytes, #[trigger] l.nodes_at(i)[j], i)
    &&& l.analyzed(dict.matrix@, dict.header.matrix_left_max as int, dict.header.matrix_right_max as int)
}

/// Whether `r` is, between the first and last nodes of `l`, a path through
/// `l` that costs no more than any other; and when no path exists, `r` is
/// empty.
pub open spec fn best_path_of(l: Lattice, dict: DictionarySet<Token>, r: Seq<LatticeNode>) -> bool {
    let m = dict.matrix@;
    let lm = dict.header.matrix_left_max as int;
    let rm = dict.header.matrix_right_max as int;
    let c = l.chain(l.eos());
    ||| r.len() == 0 && forall|p: Seq<(usize, usize)>| !#[trigger] l.is_path(p)
    ||| {
        &&& l.is_path(c)
        &&& r.len() == c.len() - 2
        &&& forall|k: int| 0 <= k < r.len() ==> #[trigger] r[k] == l.node(c[k + 1])
        &&& forall|p: Seq<(usize, usize)>| #[trigger] l.is_path(p) ==> l.path_cost(m, lm, rm, c) <= l.path_cost(m, lm, rm, p)
    }
}

/// The morphemes of `bytes`: the nodes of a cheapest path through its
/// lattice over `dict`, first to last, which cover the input exactly; empty
/// when the input is empty or no path reaches its end (a stray continuation
/// byte where a character should start).
pub fn tokenize(dict: &DictionarySet<Token>, bytes: &[u8]) -> (r: Vec<LatticeNode>)
    requires
        bytes@.len() <= MAX_INPUT,
    ensures
        covers(r@, bytes@.len() as int),
        exists|l: Lattice| #[trigger] analyzed_lattice(l, *dict, bytes@) && best_path_of(l, *dict, r@) && (
        bytes@.len() > 0 && (exists|p: Seq<(usize, usize)>| #[trigger] l.is_path(p)) ==> r@.len() > 0),
{
    let mut lattice = Lattice::build(dict, bytes);
    let ghost built = lattice;
    lattice.analyze(dict);
    let r = lattice.get_result();
    proof {
        lattice.lemma_candidates_same(built, *dict, bytes@);
        lemma_tokenize_result(lattice, *dict, bytes@, r@);
    }
    r
}

/// The back-pointer path of an analyzed lattice covers the input and is a
/// cheapest path.
#[verifier::spinoff_prover]
#[verifier::rlimit(60)]
proof fn lemma_tokenize_result(lattice: Lattice, dict: DictionarySet<Token>, bytes: Seq<u8>, r: Seq<LatticeNode>)
    requires
        analyzed_lattice(lattice, dict, bytes),
        bytes.len() <= MAX_INPUT,
        lattice.node(lattice.eos()).total_cost == UNREACHED ==> r.len() == 0,
        lattice.node(lattice.eos()).total_cost != UNREACHED ==> {
            let c = lattice.chain(lattice.eos());
            &&& r.len() == c.len() - 2
            &&& forall|k: int| 0 <= k < r.len() ==> #[trigger] r[k] == lattice.node(c[k + 1])
        },
    ensures
        covers(r, bytes.len() as int),
        analyzed_lattice(lattice, dict, bytes),
        best_path_of(lattice, dict, r),
        bytes.len() > 0 && (exists|p: Seq<(usize, usize)>| #[trigger] lattice.is_path(p)) ==> r.len() > 0,
{
    let m = dict.matrix@;
    let lm = dict.header.matrix_left_max as int;
    let rm = dict.header.matrix_right_max as int;
    let e = lattice.eos();
    if lattice.node(e).total_cost != UNREACHED {
        lattice.lemma_back_chain(m, lm, rm, e);
        let c = lattice.chain(e);
        assert(lattice.nodes_at(lattice.slots() - 1).len() == 1);
        assert(lattice.is_path(c));
        lattice.lemma_path_covers(c);
        if c.len() > 2 {
            assert(r[0] == lattice.node(c[1]));
            assert(lattice.node(c[0]).end == 0);
            assert(lattice.node(c[1]).begin == lattice.node(c[0]).end);
            assert(r.last() == lattice.node(c[c.len() - 2]));
        }
        assert forall|k: int| 0 <= k < r.len() implies (#[trigger] r[k]).begin < r[k].end by {
            assert(r[k] == lattice.node(c[k + 1]));
        }
        assert forall|k: int| 0 < k < r.len() implies (#[trigger] r[k]).begin == r[k - 1].end by {
            assert(r[k] == lattice.node(c[k + 1]));
            assert(r[k - 1] == lattice.node(c[k]));
        }
        assert forall|p: Seq<(usize, usize)>| #[trigger] lattice.is_path(p) implies lattice.path_cost(m, lm, rm, c) <= lattice.path_cost(m, lm, rm, p) by {
            lattice.lemma_best_path_optimal(m, lm, rm, p);
        }
        if bytes.len() > 0 && c.len() == 2 {
            assert(lattice.connects(c[0int], c[0int + 1]));
        }
    } else {
        assert forall|p: Seq<(usize, usize)>| !#[trigger] lattice.is_path(p) by {
            if lattice.is_path(p) {
                lattice.lemma_best_path_optimal(m, lm, rm, p);
            }
        }
    }
}
} // verus!
