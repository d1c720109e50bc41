//! A sequence of any length split into blocks of `BLOCK_SIZE` symbols, each
//! encoded as its own `TinyWT`.
use crate::model::{level_order, n_levels_for};
use crate::tinywt::{CapacityExceeded, TinyWT};
use vstd::arithmetic::div_mod::{lemma_fundamental_div_mod, lemma_mod_bound};
use vstd::prelude::*;

verus! {

/// Start of block `b`.
pub open spec fn block_start(b: int, block_size: int) -> int {
    b * block_size
}

/// End of block `b` in a sequence of length `n`: the last block may be short.
pub open spec fn block_end(b: int, block_size: int, n: int) -> int {
    if block_start(b, block_size) + block_size <= n {
        block_start(b, block_size) + block_size
    } else {
        n
    }
}

/// The symbols of block `b` of `s`.
pub open spec fn block_of(s: Seq<u8>, b: int, block_size: int) -> Seq<u8> {
    s.subrange(block_start(b, block_size), block_end(b, block_size, s.len() as int))
}

/// What construction leaves in block `b` of the buffer: the block in the
/// order of its tree's last stable partition.
pub open spec fn block_after_build(s: Seq<u8>, b: int, block_size: int) -> Seq<u8> {
    let c = block_of(s, b, block_size);
    level_order(c, n_levels_for(c), n_levels_for(c))
}

/// `x`, or `usize::MAX` when `x` is larger.
pub open spec fn saturate(x: nat) -> nat {
    if x <= usize::MAX {
        x
    } else {
        usize::MAX as nat
    }
}

/// Sum of the sizes that the trees report.
pub open spec fn trees_space<const B: usize>(ts: Seq<TinyWT<B>>) -> nat
    decreases ts.len(),
{
    if ts.len() == 0 {
        0
    } else {
        trees_space(ts.drop_last()) + ts.last().spec_space_usage()
    }
}

/// A forest of wavelet trees, one per block of `BLOCK_SIZE` consecutive
/// symbols; the last block holds the remainder.
pub struct WTForest<const BLOCK_SIZE: usize> {
    forest: Vec<TinyWT<BLOCK_SIZE>>,
    n: usize,
    symbols: Ghost<Seq<u8>>,
}

impl<const BLOCK_SIZE: usize> View for WTForest<BLOCK_SIZE> {
    type V = Seq<u8>;

    /// The encoded sequence.
    closed spec fn view(&self) -> Seq<u8> {
        self.symbols@
    }
}

proof fn lemma_block_before(b: int, b0: int, bs: int)
    requires
        0 <= b < b0,
        bs > 0,
    ensures
        block_start(b, bs) + bs <= block_start(b0, bs),
{
    assert(b * bs + bs <= b0 * bs) by (nonlinear_arith)
        requires
            0 <= b < b0,
            bs > 0,
    ;
}

proof fn lemma_block_index(b: int, count: int, bs: int, n: int)
    requires
        0 <= b,
        bs > 0,
        block_start(b, bs) < n,
        count * bs >= n,
    ensures
        b < count,
{
    if b >= count {
        assert(b * bs >= count * bs) by (nonlinear_arith)
            requires
                b >= count,
                bs > 0,
        ;
    }
}

impl<const BLOCK_SIZE: usize> WTForest<BLOCK_SIZE> {
    pub closed spec fn wf(&self) -> bool {
        let s = self.symbols@;
        let bs = BLOCK_SIZE as int;
        &&& 0 < BLOCK_SIZE <= usize::MAX / 16
        &&& self.n == s.len()
        &&& self.forest@.len() * bs >= s.len()
        &&& forall|b: int|
            0 <= b < self.forest@.len() ==> {
                &&& (#[trigger] self.forest@[b]).wf()
                &&& self.forest@[b]@ == block_of(s, b, bs)
                &&& block_start(b, bs) < s.len()
            }
    }

    /// The trees, one per block in order.
    pub closed spec fn trees(&self) -> Seq<TinyWT<BLOCK_SIZE>> {
        self.forest@
    }

    /// Builds the forest of `sequence`, each block of which is left in the
    /// order that its tree's construction gives it.
    pub fn new(sequence: &mut [u8]) -> (r: Result<Self, CapacityExceeded>)
        requires
            0 < BLOCK_SIZE <= usize::MAX / 16,
        ensures
            r matches Ok(f) && f.wf() && f@ == old(sequence)@,
            final(sequence)@.len() == old(sequence)@.len(),
            forall|b: int|
                0 <= b && block_start(b, BLOCK_SIZE as int) < old(sequence)@.len() ==> #[trigger]
                    block_of(final(sequence)@, b, BLOCK_SIZE as int) == block_after_build(
                    old(sequence)@,
                    b,
                    BLOCK_SIZE as int,
                ),
    {
        let n = sequence.len();
        let ghost s0 = sequence@;
        let ghost bs = BLOCK_SIZE as int;
        let mut forest: Vec<TinyWT<BLOCK_SIZE>> = Vec::new();
        let mut start: usize = 0;
        assert(forest@.len() * bs == 0) by (nonlinear_arith)
            requires
                forest@.len() == 0,
        ;
        while start < n
            invariant
                0 < BLOCK_SIZE <= usize::MAX / 16,
                bs == BLOCK_SIZE as int,
                n == s0.len(),
                sequence@.len() == n,
                start <= n,
                forest@.len() * bs >= start,
                start < n ==> start == forest@.len() * bs,
                sequence@.subrange(start as int, n as int) == s0.subrange(start as int, n as int),
                forall|b: int|
                    0 <= b < forest@.len() ==> {
                        &&& (#[trigger] forest@[b]).wf()
                        &&& forest@[b]@ == block_of(s0, b, bs)
                        &&& block_start(b, bs) < n
                        &&& block_of(sequence@, b, bs) == block_after_build(s0, b, bs)
                    },
            decreases n - start,
        {
            let len = if n - start > BLOCK_SIZE {
                BLOCK_SIZE
            } else {
                n - start
            };
            let ghost before = sequence@;
            let ghost b0 = forest@.len() as int;
            let ghost old_forest = forest@;
            let (head, tail) = sequence.split_at_mut(start);
            let ghost head_v = head@;
            let ghost tail_v = tail@;
            let (chunk, rest) = tail.split_at_mut(len);
            let ghost chunk_v = chunk@;
            let ghost rest_v = rest@;
            let t = TinyWT::<BLOCK_SIZE>::new(chunk);
            let ghost chunk_after = chunk@;
            proof {
                assert(sequence@ == head_v + (chunk_after + rest_v));
                crate::model::lemma_level_order_len(chunk_v, n_levels_for(chunk_v), n_levels_for(chunk_v));
                assert(chunk_after.len() == len);
                assert(head_v.len() == start);
                assert(chunk_v =~= before.subrange(start as int, start + len));
                assert(rest_v =~= before.subrange(start + len, n as int));
                assert(block_start(b0, bs) == start);
                if start + bs <= n {
                    assert(block_end(b0, bs, n as int) == start + bs);
                } else {
                    assert(block_end(b0, bs, n as int) == n);
                }
                assert(block_end(b0, bs, n as int) == start + len);
                assert(chunk_v == block_of(s0, b0, bs)) by {
                    assert(before.subrange(start as int, start + len) =~= s0.subrange(
                        start as int,
                        start + len,
                    )) by {
                        assert(before.subrange(start as int, start + len) =~= before.subrange(
                            start as int,
                            n as int,
                        ).subrange(0, len as int));
                        assert(s0.subrange(start as int, start + len) =~= s0.subrange(
                            start as int,
                            n as int,
                        ).subrange(0, len as int));
                    }
                }
            }
            forest.push(t.unwrap());
            start += len;
            proof {
                let sq = sequence@;
                assert(sq.subrange(start as int, n as int) =~= s0.subrange(start as int, n as int))
                    by {
                    assert(rest_v =~= before.subrange(start as int, n as int));
                    assert(before.subrange(start as int, n as int) =~= before.subrange(
                        (start - len) as int,
                        n as int,
                    ).subrange(len as int, (n - start + len) as int));
                    assert(s0.subrange(start as int, n as int) =~= s0.subrange(
                        (start - len) as int,
                        n as int,
                    ).subrange(len as int, (n - start + len) as int));
                }
                assert(forest@.len() * bs == b0 * bs + bs) by (nonlinear_arith)
                    requires
                        forest@.len() == b0 + 1,
                ;
                assert forall|b: int| 0 <= b < forest@.len() implies {
                    &&& (#[trigger] forest@[b]).wf()
                    &&& forest@[b]@ == block_of(s0, b, bs)
                    &&& block_start(b, bs) < n
                    &&& block_of(sequence@, b, bs) == block_after_build(s0, b, bs)
                } by {
                    if b < b0 {
                        lemma_block_before(b, b0, bs);
                        assert(forest@[b] == old_forest[b]);
                        assert(old_forest[b].wf());
                        assert(block_of(sq, b, bs) =~= block_of(before, b, bs));
                    } else {
                        assert(forest@[b] == t.unwrap());
                        assert(block_of(sq, b, bs) =~= chunk_after);
                    }
                }
            }
        }
        proof {
            assert forall|b: int|
                0 <= b && block_start(b, bs) < n implies #[trigger] block_of(sequence@, b, bs)
                == block_after_build(s0, b, bs) by {
                lemma_block_index(b, forest@.len() as int, bs, n as int);
                assert(forest@[b].wf());
            }
        }
        Ok(WTForest { forest, n, symbols: Ghost(s0) })
    }
    /// The symbol at position `i`, or `None` past the end.
    pub fn get(&self, i: usize) -> (r: Option<u8>)
        requires
            self.wf(),
        ensures
            r == if i < self@.len() {
                Some(self@[i as int])
            } else {
                None::<u8>
            },
    {
        if i >= self.n {
            return None;
        }
        Some(self.get_unchecked(i))
    }

    /// The symbol at position `i`, read from offset `i % BLOCK_SIZE` of
    /// block `i / BLOCK_SIZE`.
    pub fn get_unchecked(&self, i: usize) -> (r: u8)
        requires
            self.wf(),
            i < self@.len(),
        ensures
            r == self@[i as int],
    {
        let b = i / BLOCK_SIZE;
        let off = i % BLOCK_SIZE;
        proof {
            let bs = BLOCK_SIZE as int;
            lemma_fundamental_div_mod(i as int, bs);
            lemma_mod_bound(i as int, bs);
            assert(block_start(b as int, bs) == bs * (b as int)) by (nonlinear_arith);
            lemma_block_index(b as int, self.forest@.len() as int, bs, self@.len() as int);
            assert(self.forest@[b as int].wf());
        }
        self.forest[b].get_unchecked(off)
    }

    /// Bytes used: 8 bytes of fixed fields and the trees' sizes, the sum
    /// saturated at `usize::MAX`.
    pub fn space_usage_byte(&self) -> (r: usize)
        ensures
            r == saturate(8 + trees_space(self.trees())),
    {
        let mut total: usize = 8;
        let mut b: usize = 0;
        proof {
            assert(self.forest@.take(0) =~= Seq::<TinyWT<BLOCK_SIZE>>::empty());
        }
        while b < self.forest.len()
            invariant
                b <= self.forest@.len(),
                total == saturate(8 + trees_space(self.forest@.take(b as int))),
            decreases self.forest@.len() - b,
        {
            let t = self.forest[b].space_usage_byte();
            proof {
                assert(self.forest@.take(b + 1).drop_last() =~= self.forest@.take(b as int));
            }
            total = if t > usize::MAX - total {
                usize::MAX
            } else {
                total + t
            };
            b += 1;
        }
        proof {
            assert(self.forest@.take(b as int) =~= self.forest@);
        }
        total
    }
}

/// The trees of a forest cover its sequence block by block: tree `b` is a
/// well-formed tree of block `b`, and there are just enough of them.
pub proof fn lemma_trees_cover_blocks<const BLOCK_SIZE: usize>(f: &WTForest<BLOCK_SIZE>)
    requires
        f.wf(),
    ensures
        f.trees().len() * BLOCK_SIZE >= f@.len(),
        forall|b: int|
            0 <= b < f.trees().len() ==> {
                &&& (#[trigger] f.trees()[b]).wf()
                &&& f.trees()[b]@ == block_of(f@, b, BLOCK_SIZE as int)
                &&& block_start(b, BLOCK_SIZE as int) < f@.len()
            },
{
}

} // verus!
