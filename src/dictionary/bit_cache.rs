use vstd::prelude::*;

verus! {

/// Whether bit `b` (0 is the least significant) of `w` is one.
pub open spec fn word_bit(w: u64, b: u64) -> bool {
    (w >> b) & 1u64 == 1u64
}

/// The number of one bits among the lowest `n` bits of `w`.
pub open spec fn ones_below(w: u64, n: int) -> int
    decreases n,
{
    if n <= 0 {
        0
    } else {
        ones_below(w, n - 1) + if word_bit(w, (n - 1) as u64) {
            1int
        } else {
            0int
        }
    }
}

proof fn lemma_bit_of_zero(b: u64)
    requires
        b < 64,
    ensures
        !word_bit(0, b),
{
    assert((0u64 >> b) & 1u64 == 0u64) by (bit_vector);
}

proof fn lemma_bit_of_full(b: u64)
    requires
        b < 64,
    ensures
        word_bit(0xffff_ffff_ffff_ffffu64, b),
{
    assert((0xffff_ffff_ffff_ffffu64 >> b) & 1u64 == 1u64) by (bit_vector)
        requires
            b < 64,
    ;
}

proof fn lemma_bit_of_or(w: u64, b: u64, c: u64)
    requires
        b < 64,
        c < 64,
    ensures
        word_bit(w | (1u64 << b), c) == (c == b || word_bit(w, c)),
{
    assert(((w | (1u64 << b)) >> c) & 1u64 == 1u64 <==> (c == b || (w >> c) & 1u64 == 1u64))
        by (bit_vector)
        requires
            b < 64,
            c < 64,
    ;
}

/// A word with a one among its lowest `n` bits has a one there.
proof fn lemma_some_bit(w: u64, n: int) -> (b: int)
    requires
        0 <= n <= 64,
        ones_below(w, n) > 0,
    ensures
        0 <= b < n,
        word_bit(w, b as u64),
    decreases n,
{
    if word_bit(w, (n - 1) as u64) {
        n - 1
    } else {
        lemma_some_bit(w, n - 1)
    }
}

/// Slot `j` lives in word `k` at bit `j - 64 * k` exactly when it lies in
/// that word's range.
proof fn lemma_slot_in_word(j: int, k: int)
    requires
        0 <= k,
        64 * k <= j < 64 * k + 64,
    ensures
        j / 64 == k,
        j % 64 == j - 64 * k,
{
    assert(j / 64 == k && j % 64 == j - 64 * k) by (nonlinear_arith)
        requires
            0 <= k,
            64 * k <= j < 64 * k + 64,
    ;
}

/// The number of words a fresh cache holds.
pub const INITIAL_WORDS: usize = 65535;

/// A word with at least this many ones counts as full for the search window.
const CROWDED_ONES: u32 = 60;

/// A dense set of slot indices, one bit per slot, that answers which slots
/// are taken and where the next free one is. A moving window start skips the
/// crowded low words when searching; it never hides a bit from `get`.
pub struct BitCache {
    cache: Vec<u64>,
    start: usize,
}

impl BitCache {
    /// The words of the set; slot `i` is bit `i % 64` of word `i / 64`.
    pub closed spec fn words(&self) -> Seq<u64> {
        self.cache@
    }

    /// The first word that free-slot searches look at.
    pub closed spec fn start_word(&self) -> int {
        self.start as int
    }

    /// Whether slot `i` is taken.
    pub closed spec fn has(&self, i: int) -> bool {
        0 <= i && i / 64 < self.words().len() && word_bit(self.words()[i / 64], (i % 64) as u64)
    }

    /// Slots past the stored words are free.
    pub proof fn lemma_beyond_words(&self, i: int)
        requires
            i >= 64 * self.words().len(),
        ensures
            !self.has(i),
    {
        assert(i / 64 >= self.words().len()) by (nonlinear_arith)
            requires
                i >= 64 * self.words().len(),
        ;
    }

    /// The first slot that free-slot searches look at.
    pub open spec fn window_start(&self) -> int {
        64 * self.start_word()
    }

    pub open spec fn wf(&self) -> bool {
        &&& 0 < self.words().len() <= usize::MAX / 64
        &&& 4 <= self.start_word() <= self.words().len()
    }

    /// An empty set whose searches start at slot 256: the slots below stay
    /// free for the transitions out of the first state.
    pub fn new() -> (r: BitCache)
        ensures
            r.wf(),
            r.start_word() == 4,
            r.words().len() == INITIAL_WORDS,
            forall|i: int| !r.has(i),
    {
        let r = BitCache { cache: vec![0u64; INITIAL_WORDS], start: 4 };
        assert forall|i: int| !r.has(i) by {
            if 0 <= i && i / 64 < r.words().len() {
                assert(r.words()[i / 64] == 0u64);
                lemma_bit_of_zero((i % 64) as u64);
            }
        }
        r
    }

    /// Moves the window start past every word from it on that holds at least
    /// sixty ones, stopping at the first that does not.
    pub fn update_start(&mut self)
        requires
            old(self).wf(),
        ensures
            final(self).wf(),
            final(self).words() == old(self).words(),
            forall|i: int| #[trigger] final(self).has(i) == old(self).has(i),
            old(self).start_word() <= final(self).start_word(),
            forall|k: int|
                old(self).start_word() <= k < final(self).start_word() ==> ones_below(
                    #[trigger] final(self).words()[k],
                    64,
                ) >= 60,
            final(self).start_word() == final(self).words().len() || ones_below(
                final(self).words()[final(self).start_word()],
                64,
            ) < 60,
            final(self).start_word() == old(self).start_word() || exists|i: int|
                #[trigger] final(self).has(i) && final(self).window_start() <= i + 64,
    {
        let ghost first = self.start as int;
        while self.start < self.cache.len()
            invariant
                self.wf(),
                self.words() == old(self).words(),
                first <= self.start_word(),
                first == old(self).start_word(),
                self.start_word() == first || exists|i: int| #[trigger] self.has(i) && self.window_start() <= i + 64,
                forall|k: int|
                    first <= k < self.start_word() ==> ones_below(#[trigger] self.words()[k], 64)
                        >= 60,
            decreases self.cache.len() - self.start,
        {
            let ones = count_ones(self.cache[self.start]);
            if ones >= CROWDED_ONES {
                let ghost k = self.start as int;
                let ghost b = lemma_some_bit(self.words()[k], 64);
                proof {
                    lemma_slot_in_word(64 * k + b, k);
                    assert(self.has(64 * k + b));
                }
                self.start = self.start + 1;
                assert(self.has(64 * k + b) && self.window_start() <= 64 * k + b + 64);
            } else {
                return;
            }
        }
    }

    /// The number of words stored.
    pub fn word_count(&self) -> (r: usize)
        ensures
            r == self.words().len(),
    {
        self.cache.len()
    }

    /// Returns 1 when slot `idx` is taken and 0 when it is free; slots beyond
    /// the stored words are free.
    pub fn get(&self, idx: usize) -> (r: usize)
        ensures
            r == (if self.has(idx as int) {
                1usize
            } else {
                0usize
            }),
    {
        let arr_idx: usize = idx / 64;
        let bit_idx: u64 = (idx % 64) as u64;
        if arr_idx < self.cache.len() {
            if (self.cache[arr_idx] >> bit_idx) & 1u64 == 1u64 {
                1
            } else {
                0
            }
        } else {
            0
        }
    }

    /// Marks slot `idx` as taken, doubling the storage past its word when it
    /// lies beyond the stored words.
    pub fn set(&mut self, idx: usize)
        requires
            old(self).wf(),
            idx / 64 < usize::MAX / 64,
        ensures
            final(self).wf(),
            final(self).start_word() == old(self).start_word(),
            final(self).words().len() >= old(self).words().len(),
            final(self).words().len() == old(self).words().len() || final(self).words().len() <= idx / 32 + 1,
            forall|i: int| #[trigger] final(self).has(i) == (old(self).has(i) || i == idx),
    {
        let arr_idx: usize = idx / 64;
        let bit_idx: u64 = (idx % 64) as u64;
        let ghost before = *self;
        if arr_idx >= self.cache.len() {
            let new_len = if arr_idx <= usize::MAX / 128 {
                arr_idx * 2
            } else {
                arr_idx + 1
            };
            self.cache.resize(new_len, 0u64);
        }
        assert forall|i: int| #[trigger] self.has(i) == before.has(i) by {
            if 0 <= i && i / 64 < self.words().len() && i / 64 >= before.words().len() {
                assert(self.words()[i / 64] == 0u64);
                lemma_bit_of_zero((i % 64) as u64);
            }
        }
        let ghost mid = *self;
        let w = self.cache[arr_idx];
        self.cache.set(arr_idx, w | (1u64 << bit_idx));
        assert forall|i: int| #[trigger] self.has(i) == (mid.has(i) || i == idx) by {
            if 0 <= i && i / 64 < self.words().len() {
                lemma_bit_of_or(w, bit_idx, (i % 64) as u64);
                if i / 64 != arr_idx as int {
                    assert(i != idx);
                }
            }
        }
    }

    /// The smallest free slot from `window_start() + offset` on.
    pub fn find_empty_idx(&self, offset: usize) -> (r: usize)
        requires
            self.wf(),
            self.window_start() + offset <= usize::MAX,
        ensures
            self.window_start() + offset <= r,
            !self.has(r as int),
            forall|j: int| self.window_start() + offset <= j < r ==> #[trigger] self.has(j),
    {
        let lo: usize = self.start * 64 + offset;
        let len = self.cache.len();
        let arr_idx: usize = lo / 64;
        if arr_idx >= len {
            return lo;
        }
        let mut k: usize = arr_idx;
        let mut b: usize = lo % 64;
        while k < len
            invariant
                self.wf(),
                len == self.words().len(),
                lo == self.window_start() + offset,
                arr_idx <= k <= len,
                b < 64,
                arr_idx == lo / 64,
                k == arr_idx ==> b == lo % 64,
                k > arr_idx ==> b == 0,
                forall|j: int| lo <= j < 64 * k + b ==> #[trigger] self.has(j),
            decreases len - k,
        {
            let w = self.cache[k];
            if w == 0xffff_ffff_ffff_ffffu64 {
                assert forall|j: int| lo <= j < 64 * k + 64 implies #[trigger] self.has(j) by {
                    if j >= 64 * k + b {
                        lemma_slot_in_word(j, k as int);
                        lemma_bit_of_full((j % 64) as u64);
                    }
                }
            } else {
                while b < 64
                    invariant
                        self.wf(),
                        len == self.words().len(),
                        lo == self.window_start() + offset,
                        arr_idx <= k < len,
                        b <= 64,
                        w == self.words()[k as int],
                        lo <= 64 * k + b,
                        forall|j: int| lo <= j < 64 * k + b ==> #[trigger] self.has(j),
                    decreases 64 - b,
                {
                    proof {
                        lemma_slot_in_word(64 * k + b, k as int);
                    }
                    if (w >> (b as u64)) & 1u64 != 1u64 {
                        return k * 64 + b;
                    }
                    b = b + 1;
                }
            }
            k = k + 1;
            b = 0;
        }
        len * 64
    }

    /// The largest taken slot, if any.
    pub fn last_index_of_one(&self) -> (r: Option<usize>)
        requires
            self.wf(),
        ensures
            r is None ==> forall|i: int| !self.has(i),
            r matches Some(x) ==> self.has(x as int) && forall|i: int| x < i ==> !self.has(i),
    {
        let mut k: usize = self.cache.len();
        while k > 0
            invariant
                self.wf(),
                k <= self.words().len(),
                forall|i: int| 64 * k <= i ==> !#[trigger] self.has(i),
            decreases k,
        {
            let w = self.cache[k - 1];
            let mut b: usize = 64;
            while b > 0
                invariant
                    self.wf(),
                    0 < k <= self.words().len(),
                    w == self.words()[k - 1],
                    b <= 64,
                    forall|i: int| 64 * (k - 1) + b <= i ==> !#[trigger] self.has(i),
                decreases b,
            {
                proof {
                    lemma_slot_in_word(64 * (k - 1) + b - 1, k - 1);
                }
                if (w >> ((b - 1) as u64)) & 1u64 == 1u64 {
                    return Some((k - 1) * 64 + (b - 1));
                }
                b = b - 1;
            }
            k = k - 1;
        }
        None
    }
}

/// The number of one bits of `w`.
fn count_ones(w: u64) -> (r: u32)
    ensures
        r == ones_below(w, 64),
{
    let mut n: u32 = 0;
    let mut b: u64 = 0;
    while b < 64
        invariant
            b <= 64,
            n == ones_below(w, b as int),
            n <= b,
        decreases 64 - b,
    {
        if (w >> b) & 1u64 == 1u64 {
            n = n + 1;
        }
        b = b + 1;
    }
    n
}

} // verus!
