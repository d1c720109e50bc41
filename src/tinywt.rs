//! A wavelet tree of bounded capacity, stored as one level-major bit vector
//! with sampled rank counts.
use crate::bitvec::{
    bv_bits, bv_from_bools, bv_space, bv_get, bv_get_bits, bv_n_lines, bv_prefetch_line,
    bv_space_usage_byte, partition_by_bit_in_place, symbol_msb, word_count_ones,
};
use crate::model::{
    bit_of, encoding, equals, has_bit, high_bits, lacks_bit, lemma_encoding_len,
    lemma_encoding_level, lemma_filter_all, lemma_filter_compose, lemma_filter_ext,
    lemma_filter_none, lemma_filter_prefix, lemma_filter_split_len, lemma_fits_levels,
    lemma_high_bits_step, lemma_level_order_len, lemma_ones_count_le, lemma_padded_plane_rank,
    lemma_partition_position, lemma_plane_split, lemma_rank_step, lemma_same_high_step,
    lemma_scan_step, lemma_seq_max, level_bit, level_order, level_rank, n_levels_for,
    occurrences, ones_count, padded_plane, partition_by_bit, same_high, seq_max,
};
use qwt::BitVector;
use vstd::prelude::*;

verus! {

/// Number of positions of a level between two stored rank samples.
pub const RANK_SAMPLE_SIZE: usize = 512;

/// The sequence is longer than the tree can hold.
#[derive(Debug, Clone, Copy, PartialEq, Eq)]
pub struct CapacityExceeded;

/// Number of rank samples kept per level for a sequence of length `n`.
pub open spec fn blocks_per_level(n: nat) -> nat {
    if n == 0 {
        0
    } else {
        ((n - 1) / 512 + 1) as nat
    }
}

/// Where the sample of block `q` of level `l` is stored.
pub open spec fn sample_index(bpl: nat, l: int, q: int) -> int {
    l * bpl + q
}

/// A wavelet tree over at most `SIZE` byte symbols.
///
/// Level `l` of the tree is the bit-plane of bit `n_levels - 1 - l` taken
/// over the symbols in the order obtained by stably partitioning the input
/// by each higher bit in turn; it occupies positions `[l * SIZE, (l + 1) *
/// SIZE)` of `data`, padded with 0 bits past the sequence's length.
pub struct TinyWT<const SIZE: usize> {
    data: BitVector,
    n: usize,
    n_levels: usize,
    rank_samples: Vec<usize>,
    ones_level: Vec<usize>,
    symbols: Ghost<Seq<u8>>,
}

impl<const SIZE: usize> View for TinyWT<SIZE> {
    type V = Seq<u8>;

    /// The encoded sequence.
    closed spec fn view(&self) -> Seq<u8> {
        self.symbols@
    }
}

impl<const SIZE: usize> TinyWT<SIZE> {
    pub closed spec fn wf(&self) -> bool {
        let s = self.symbols@;
        let nl = self.n_levels as nat;
        let bpl = blocks_per_level(s.len());
        &&& self.n == s.len()
        &&& s.len() <= SIZE
        &&& SIZE <= usize::MAX / 16
        &&& nl == n_levels_for(s)
        &&& nl <= 8
        &&& forall|j: int| 0 <= j < s.len() ==> high_bits(#[trigger] s[j], nl) == 0
        &&& bv_bits(self.data) == encoding(s, nl, nl, SIZE as nat)
        &&& self.ones_level@.len() == nl
        &&& forall|l: int|
            0 <= l < nl ==> #[trigger] self.ones_level@[l] == level_rank(
                s,
                nl,
                l as nat,
                s.len() as int,
            )
        &&& self.rank_samples@.len() == nl * bpl
        &&& forall|l: int, q: int|
            0 <= l < nl && 0 <= q < bpl ==> #[trigger] self.rank_samples@[sample_index(bpl, l, q)]
                == level_rank(s, nl, l as nat, q * 512)
    }

    /// The bits recorded for level `l`, one per symbol.
    pub closed spec fn level_bits(&self, l: nat) -> Seq<bool> {
        bv_bits(self.data).subrange(
            (l * SIZE) as int,
            (l * SIZE + self.n) as int,
        )
    }

    /// Builds the tree of `sequence`, which it leaves in the order of the
    /// last stable partition of construction; fails when `sequence` is
    /// longer than `SIZE`, leaving it untouched.
    pub fn new(sequence: &mut [u8]) -> (r: Result<Self, CapacityExceeded>)
        requires
            SIZE <= usize::MAX / 16,
        ensures
            r.is_err() <==> old(sequence)@.len() > SIZE,
            r.is_err() ==> final(sequence)@ == old(sequence)@,
            r matches Ok(t) ==> t.wf() && t@ == old(sequence)@,
            r.is_ok() ==> final(sequence)@ == level_order(
                old(sequence)@,
                n_levels_for(old(sequence)@),
                n_levels_for(old(sequence)@),
            ),
    {
        let n = sequence.len();
        let ghost s0 = sequence@;
        if n == 0 {
            let t = TinyWT {
                data: bv_from_bools(Vec::new()),
                n: 0,
                n_levels: 0,
                rank_samples: Vec::new(),
                ones_level: Vec::new(),
                symbols: Ghost(s0),
            };
            return Ok(t);
        }
        if n > SIZE {
            return Err(CapacityExceeded);
        }
        let mut max: u8 = sequence[0];
        let mut i: usize = 1;
        while i < n
            invariant
                1 <= i <= n,
                n == s0.len(),
                sequence@ == s0,
                max == seq_max(s0.take(i as int)),
            decreases n - i,
        {
            if sequence[i] > max {
                max = sequence[i];
            }
            proof {
                assert(s0.take(i + 1).drop_last() =~= s0.take(i as int));
            }
            i += 1;
        }
        proof {
            assert(s0.take(n as int) =~= s0);
            lemma_seq_max(s0);
        }
        let n_levels = (symbol_msb(max) + 1) as usize;
        let ghost nl = n_levels as nat;
        let ghost bpl = blocks_per_level(n as nat);
        let mut bits: Vec<bool> = Vec::new();
        let mut rank_samples: Vec<usize> = Vec::new();
        let mut ones_level: Vec<usize> = Vec::new();
        let mut l: usize = 0;
        while l < n_levels
            invariant
                l <= n_levels,
                n_levels == nl,
                nl == n_levels_for(s0),
                nl <= 8,
                n == s0.len(),
                0 < n <= SIZE,
                SIZE <= usize::MAX / 16,
                bpl == blocks_per_level(n as nat),
                sequence@ == level_order(s0, nl, l as nat),
                bits@ == encoding(s0, nl, l as nat, SIZE as nat),
                ones_level@.len() == l,
                forall|m: int|
                    0 <= m < l ==> #[trigger] ones_level@[m] == level_rank(
                        s0,
                        nl,
                        m as nat,
                        n as int,
                    ),
                rank_samples@.len() == l * bpl,
                forall|m: int, q: int|
                    0 <= m < l && 0 <= q < bpl ==> #[trigger] rank_samples@[sample_index(
                        bpl,
                        m,
                        q,
                    )] == level_rank(s0, nl, m as nat, q * 512),
            decreases n_levels - l,
        {
            let k: u8 = (n_levels - 1 - l) as u8;
            let ghost o = sequence@;
            let ghost base = bits@;
            let ghost sbase = rank_samples@;
            let ghost plane = padded_plane(s0, nl, l as nat, SIZE as nat);
            proof {
                lemma_level_order_len(s0, nl, l as nat);
                lemma_encoding_len(s0, nl, l as nat, SIZE as nat);
            }
            let mut rank_level: usize = 0;
            let mut i: usize = 0;
            while i < n
                invariant
                    i <= n,
                    0 < n <= SIZE,
                    SIZE <= usize::MAX / 16,
                    n == s0.len(),
                    sequence@ == o,
                    o == level_order(s0, nl, l as nat),
                    o.len() == n,
                    k == level_bit(nl, l as nat),
                    k < 8,
                    plane == padded_plane(s0, nl, l as nat, SIZE as nat),
                    bits@ == base + plane.take(i as int),
                    rank_level <= i,
                    rank_level == level_rank(s0, nl, l as nat, i as int),
                    rank_samples@.len() == sbase.len() + (i + 511) / 512,
                    forall|q: int|
                        0 <= q < (i + 511) / 512 ==> #[trigger] rank_samples@[sbase.len() + q]
                            == level_rank(s0, nl, l as nat, q * 512),
                    forall|j: int| 0 <= j < sbase.len() ==> #[trigger] rank_samples@[j] == sbase[j],
                decreases n - i,
            {
                if i % RANK_SAMPLE_SIZE == 0 {
                    rank_samples.push(rank_level);
                }
                let bit = (sequence[i] >> k) & 1 == 1;
                bits.push(bit);
                if bit {
                    rank_level += 1;
                }
                proof {
                    reveal_with_fuel(Seq::filter, 1);
                    assert(o.take(i + 1).drop_last() =~= o.take(i as int));
                    assert(bits@ =~= base + plane.take(i + 1));
                }
                i += 1;
            }
            ones_level.push(rank_level);
            let mut j: usize = n;
            while j < SIZE
                invariant
                    n <= j <= SIZE,
                    n == s0.len(),
                    plane == padded_plane(s0, nl, l as nat, SIZE as nat),
                    bits@ == base + plane.take(j as int),
                decreases SIZE - j,
            {
                bits.push(false);
                proof {
                    assert(bits@ =~= base + plane.take(j + 1));
                }
                j += 1;
            }
            partition_by_bit_in_place(sequence, k);
            proof {
                assert(plane.take(SIZE as int) =~= plane);
                assert(l * bpl + bpl == (l + 1) * bpl) by (nonlinear_arith);
                assert forall|m: int, q: int| 0 <= m < l + 1 && 0 <= q < bpl implies #[trigger]
                    rank_samples@[sample_index(bpl, m, q)] == level_rank(s0, nl, m as nat, q * 512) by {
                    if m < l {
                        assert(sample_index(bpl, m, q) < l * bpl) by (nonlinear_arith)
                            requires
                                m < l,
                                q < bpl,
                                sample_index(bpl, m, q) == m * bpl + q,
                        ;
                        assert(rank_samples@[sample_index(bpl, m, q)] == sbase[sample_index(bpl, m, q)]);
                    } else {
                        assert(sample_index(bpl, m, q) == sbase.len() + q);
                    }
                }
            }
            l += 1;
        }
        let data = bv_from_bools(bits);
        proof {
            assert forall|j: int| 0 <= j < s0.len() implies high_bits(#[trigger] s0[j], nl) == 0 by {
                lemma_fits_levels(s0[j], seq_max(s0));
            }
        }
        Ok(TinyWT { data, n, n_levels, rank_samples, ones_level, symbols: Ghost(s0) })
    }
    /// Number of symbols encoded.
    pub fn len(&self) -> (r: usize)
        requires
            self.wf(),
        ensures
            r == self@.len(),
    {
        self.n
    }

    /// Whether no symbol is encoded.
    pub fn is_empty(&self) -> (r: bool)
        requires
            self.wf(),
        ensures
            r == (self@.len() == 0),
    {
        self.n == 0
    }

    /// Number of bit-planes: the bit length of the largest symbol, 0 for
    /// the empty sequence.
    pub fn n_levels(&self) -> (r: usize)
        requires
            self.wf(),
        ensures
            r == n_levels_for(self@),
    {
        self.n_levels
    }

    /// Number of 1 bits in level `l` before position `index`, from the
    /// level's rank sample and a word-at-a-time count of the bits after it.
    fn rank_level_pos(&self, l: usize, index: usize) -> (r: usize)
        requires
            self.wf(),
            l < self.n_levels,
            index <= self@.len(),
        ensures
            r == level_rank(self@, self.n_levels as nat, l as nat, index as int),
    {
        let ghost s = self@;
        let ghost nl = self.n_levels as nat;
        let ghost bits = bv_bits(self.data);
        let ghost plane = padded_plane(s, nl, l as nat, SIZE as nat);
        proof {
            lemma_encoding_level(s, nl, nl, SIZE as nat, l as nat);
            assert(l * SIZE <= 8 * SIZE) by (nonlinear_arith)
                requires
                    l < 8,
            ;
            lemma_padded_plane_rank(s, nl, l as nat, SIZE as nat, index as int);
        }
        if index == self.n {
            proof {
                assert(s.take(index as int) =~= s);
            }
            return self.ones_level[l];
        }
        let base = SIZE * l;
        let actual_pos = base + index;
        let bpl_exec = (self.n - 1) / RANK_SAMPLE_SIZE + 1;
        let q = index / RANK_SAMPLE_SIZE;
        let n_samples = self.rank_samples.len();
        proof {
            let bpl = bpl_exec as nat;
            assert(bpl == blocks_per_level(s.len()));
            assert(nl * SIZE <= 8 * SIZE) by (nonlinear_arith)
                requires
                    nl <= 8,
            ;
            assert(sample_index(bpl, l as int, q as int) < nl * bpl) by (nonlinear_arith)
                requires
                    l < nl,
                    q < bpl,
                    sample_index(bpl, l as int, q as int) == l * bpl + q,
            ;
            lemma_padded_plane_rank(s, nl, l as nat, SIZE as nat, q * 512);
        }
        let r_sample = self.rank_samples[l * bpl_exec + q];
        let start = base + q * RANK_SAMPLE_SIZE;
        let mut r: usize = 0;
        let mut p = start;
        while p < actual_pos
            invariant
                start <= p <= actual_pos + 63,
                start == base + q * 512,
                actual_pos == base + index,
                index < SIZE,
                q * 512 <= index,
                base + SIZE <= bits.len(),
                bits.len() <= 8 * SIZE,
                SIZE <= usize::MAX / 16,
                bits == bv_bits(self.data),
                r <= index,
                r == ones_count(
                    bits.subrange(
                        start as int,
                        if p < actual_pos {
                            p as int
                        } else {
                            actual_pos as int
                        },
                    ),
                ),
            decreases actual_pos + 64 - p,
        {
            let len = if actual_pos - p < 64 {
                actual_pos - p
            } else {
                64
            };
            let w = bv_get_bits(&self.data, p, len).unwrap();
            let c = word_count_ones(w);
            proof {
                lemma_scan_step(bits, start as int, p as int, len as int, w);
            }
            r += c as usize;
            p += 64;
        }
        proof {
            lemma_plane_split(bits, base as int, plane, q * 512, index as int);
            lemma_ones_count_le(plane.take(index as int));
        }
        r_sample + r
    }

    /// The bit of level `l` at position `index`.
    fn get_level_pos(&self, l: usize, index: usize) -> (r: bool)
        requires
            self.wf(),
            l < self.n_levels,
            index < self@.len(),
        ensures
            r == bit_of(
                level_order(self@, self.n_levels as nat, l as nat)[index as int],
                level_bit(self.n_levels as nat, l as nat),
            ),
    {
        proof {
            lemma_encoding_level(self@, self.n_levels as nat, self.n_levels as nat, SIZE as nat, l as nat);
            assert(l * SIZE <= 8 * SIZE) by (nonlinear_arith)
                requires
                    l < 8,
            ;
            let plane = padded_plane(self@, self.n_levels as nat, l as nat, SIZE as nat);
            assert(bv_bits(self.data)[l * SIZE + index] == plane[index as int]);
        }
        match bv_get(&self.data, l * SIZE + index) {
            Some(b) => b,
            None => false,
        }
    }

    /// The symbol at position `i`, or `None` past the end.
    pub fn get(&self, i: usize) -> (r: Option<u8>)
        requires
            self.wf(),
        ensures
            r == if i < self@.len() {
                Some(self@[i as int])
            } else {
                None::<u8>
            },
    {
        if i >= self.n {
            return None;
        }
        Some(self.get_unchecked(i))
    }

    /// The symbol at position `i`: the descent through the levels, each
    /// level's bit and rank giving the position in the next.
    pub fn get_unchecked(&self, i: usize) -> (r: u8)
        requires
            self.wf(),
            i < self@.len(),
        ensures
            r == self@[i as int],
    {
        let n_lines = bv_n_lines(&self.data);
        let mut line: usize = 0;
        while line < n_lines
            decreases n_lines - line,
        {
            bv_prefetch_line(&self.data, line);
            line += 1;
        }
        let ghost s = self@;
        let ghost nl = self.n_levels as nat;
        let ghost v = s[i as int];
        let mut cur_i = i;
        let mut result: u8 = 0;
        let mut l: usize = 0;
        while l < self.n_levels
            invariant
                self.wf(),
                s == self@,
                nl == self.n_levels,
                v == s[i as int],
                l <= nl,
                cur_i < s.len(),
                level_order(s, nl, l as nat).len() == s.len(),
                level_order(s, nl, l as nat)[cur_i as int] == v,
                result == high_bits(v, (nl - l) as nat),
            decreases nl - l,
        {
            let ghost o = level_order(s, nl, l as nat);
            let ghost k = level_bit(nl, l as nat);
            let b = self.get_level_pos(l, cur_i);
            proof {
                lemma_high_bits_step(v, k);
            }
            result = (result << 1u8) | (if b {
                1u8
            } else {
                0u8
            });
            let zeros_in_level = self.n - self.ones_level[l];
            let r = self.rank_level_pos(l, cur_i);
            proof {
                lemma_partition_position(o, k, cur_i as int);
                crate::model::lemma_filter_split_len(o, k);
                assert(o.take(s.len() as int) =~= o);
                lemma_level_order_len(s, nl, (l + 1) as nat);
            }
            cur_i = if b {
                r + zeros_in_level
            } else {
                cur_i - r
            };
            l += 1;
        }
        proof {
            assert(v >> 0u8 == v) by (bit_vector);
        }
        result
    }

    /// Number of occurrences of `symbol` among the first `i` symbols, or
    /// `None` when `i` passes the end.
    pub fn rank(&self, symbol: u8, i: usize) -> (r: Option<usize>)
        requires
            self.wf(),
        ensures
            r == if i <= self@.len() {
                Some(occurrences(self@.take(i as int), symbol) as usize)
            } else {
                None::<usize>
            },
    {
        if i > self.n {
            return None;
        }
        Some(self.rank_unchecked(symbol, i))
    }

    /// Number of occurrences of `symbol` among the first `i` symbols: two
    /// cursors descend along the path of `symbol`'s bits, and their
    /// distance at the bottom is the count. A symbol wider than the levels
    /// occurs nowhere.
    pub fn rank_unchecked(&self, symbol: u8, i: usize) -> (r: usize)
        requires
            self.wf(),
            i <= self@.len(),
        ensures
            r == occurrences(self@.take(i as int), symbol),
    {
        if self.n_levels < 8 && (symbol >> (self.n_levels as u8)) != 0 {
            proof {
                let s = self@;
                let t = s.take(i as int);
                assert forall|j: int| 0 <= j < t.len() implies !#[trigger] equals(symbol)(t[j]) by {
                    assert(high_bits(s[j], self.n_levels as nat) == 0);
                }
                lemma_filter_none(t, equals(symbol));
            }
            return 0;
        }
        proof {
            if self.n_levels >= 8 {
                assert(high_bits(symbol, self.n_levels as nat) == 0);
            }
        }
        let ghost s = self@;
        let ghost nl = self.n_levels as nat;
        let ghost v = symbol;
        proof {
            assert forall|j: int| 0 <= j < s.len() implies #[trigger] same_high(v, nl)(s[j]) by {
                assert(high_bits(s[j], nl) == 0);
            }
            lemma_filter_all(s, same_high(v, nl));
            assert forall|j: int| 0 <= j < s.take(i as int).len() implies #[trigger] same_high(
                v,
                nl,
            )(s.take(i as int)[j]) by {
                assert(high_bits(s[j], nl) == 0);
            }
            lemma_filter_all(s.take(i as int), same_high(v, nl));
            assert(s.subrange(0, s.len() as int) =~= s);
        }
        let mut cur_i = i;
        let mut cur_p: usize = 0;
        let mut l: usize = 0;
        while l < self.n_levels
            invariant
                self.wf(),
                s == self@,
                nl == self.n_levels,
                v == symbol,
                l <= nl,
                i <= s.len(),
                cur_p <= cur_i <= s.len(),
                cur_p + s.filter(same_high(v, (nl - l) as nat)).len() <= s.len(),
                level_order(s, nl, l as nat).subrange(
                    cur_p as int,
                    cur_p + s.filter(same_high(v, (nl - l) as nat)).len(),
                ) == s.filter(same_high(v, (nl - l) as nat)),
                cur_i - cur_p == s.take(i as int).filter(same_high(v, (nl - l) as nat)).len(),
            decreases nl - l,
        {
            let k: u8 = (self.n_levels - 1 - l) as u8;
            let bit = (symbol >> k) & 1 == 1;
            let rp = self.rank_level_pos(l, cur_p);
            let ri = self.rank_level_pos(l, cur_i);
            proof {
                let o = level_order(s, nl, l as nat);
                let up = same_high(v, (k + 1) as nat);
                let down = same_high(v, k as nat);
                let side = if bit {
                    has_bit(k)
                } else {
                    lacks_bit(k)
                };
                let f = s.filter(up);
                let g = s.take(i as int).filter(up);
                assert((nl - l) as nat == (k + 1) as nat);
                lemma_level_order_len(s, nl, l as nat);
                lemma_filter_prefix(s, up, i as int);
                lemma_rank_step(o, f, g, cur_p as int, k, bit);
                lemma_filter_split_len(o, k);
                assert(o.take(s.len() as int) =~= o);
                assert forall|x: u8| #[trigger] down(x) == (up(x) && side(x)) by {
                    lemma_same_high_step(v, x, k);
                }
                lemma_filter_compose(s, up, side, down);
                lemma_filter_compose(s.take(i as int), up, side, down);
                lemma_filter_prefix(s, down, i as int);
            }
            let zeros_in_level = self.n - self.ones_level[l];
            cur_p = if bit {
                rp + zeros_in_level
            } else {
                cur_p - rp
            };
            cur_i = if bit {
                ri + zeros_in_level
            } else {
                cur_i - ri
            };
            l += 1;
        }
        proof {
            assert forall|x: u8| #[trigger] same_high(v, 0)(x) == equals(v)(x) by {
                assert(x >> 0u8 == x && v >> 0u8 == v) by (bit_vector);
            }
            lemma_filter_ext(s.take(i as int), same_high(v, 0), equals(v));
        }
        cur_i - cur_p
    }

    /// The bit vector that holds the levels.
    pub closed spec fn bit_vector(&self) -> BitVector {
        self.data
    }

    /// Bytes used: the bit vector and 16 bytes of fixed fields, saturated
    /// at `usize::MAX`.
    pub open spec fn spec_space_usage(&self) -> nat {
        let total = 16 + bv_space(self.bit_vector());
        if total <= usize::MAX {
            total
        } else {
            usize::MAX as nat
        }
    }

    /// Bytes used: the bit vector and the fixed fields.
    pub fn space_usage_byte(&self) -> (r: usize)
        ensures
            r == self.spec_space_usage(),
    {
        let b = bv_space_usage_byte(&self.data);
        if b > usize::MAX - 16 {
            usize::MAX
        } else {
            16 + b
        }
    }
}

/// Each level records, for every symbol, the level's bit of the symbol in
/// the order left by stably partitioning the previous level's order by the
/// previous level's bit (0s first, each group keeping its order).
pub proof fn lemma_levels_follow_stable_partition<const SIZE: usize>(t: &TinyWT<SIZE>, l: nat)
    requires
        t.wf(),
        l < n_levels_for(t@),
    ensures
        t.level_bits(l) == level_order(t@, n_levels_for(t@), l).map_values(
            |x: u8| bit_of(x, level_bit(n_levels_for(t@), l)),
        ),
        l == 0 ==> t.level_bits(l) == t@.map_values(
            |x: u8| bit_of(x, level_bit(n_levels_for(t@), 0)),
        ),
        l + 1 < n_levels_for(t@) ==> level_order(t@, n_levels_for(t@), l + 1) == partition_by_bit(
            level_order(t@, n_levels_for(t@), l),
            level_bit(n_levels_for(t@), l),
        ),
{
    let s = t@;
    let nl = n_levels_for(s);
    lemma_encoding_level(s, nl, nl, SIZE as nat, l);
    lemma_level_order_len(s, nl, l);
    let plane = padded_plane(s, nl, l, SIZE as nat);
    assert(t.level_bits(l) =~= plane.take(s.len() as int));
    assert(t.level_bits(l) =~= level_order(s, nl, l).map_values(
        |x: u8| bit_of(x, level_bit(nl, l)),
    ));
}

} // verus!
