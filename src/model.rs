//! Mathematical model of the wavelet-tree encoding: bit-planes, the
//! level-by-level stable partitioning, and counts of set bits.
use vstd::prelude::*;

verus! {

/// Bit `k` of symbol `v`, bit 0 being the least significant.
pub open spec fn bit_of(v: u8, k: u8) -> bool {
    (v >> k) & 1u8 == 1u8
}

/// The bits of `v` above position `k` (`v >> k`, zero once `k` reaches 8).
pub open spec fn high_bits(v: u8, k: nat) -> u8 {
    if k >= 8 {
        0u8
    } else {
        v >> (k as u8)
    }
}

/// Whether a symbol's bit `k` is 1.
pub open spec fn has_bit(k: u8) -> spec_fn(u8) -> bool {
    |x: u8| bit_of(x, k)
}

/// Whether a symbol's bit `k` is 0.
pub open spec fn lacks_bit(k: u8) -> spec_fn(u8) -> bool {
    |x: u8| !bit_of(x, k)
}

/// Stable partition of `s`: symbols whose bit `k` is 0 first, then those
/// whose bit `k` is 1, each group in its original relative order.
pub open spec fn partition_by_bit(s: Seq<u8>, k: u8) -> Seq<u8> {
    s.filter(lacks_bit(k)) + s.filter(has_bit(k))
}

/// The bit examined at level `l` of a tree with `n_levels` levels:
/// the most significant one first.
pub open spec fn level_bit(n_levels: nat, l: nat) -> u8 {
    (n_levels - 1 - l) as u8
}

/// The order of the symbols from which level `l` is emitted: the input for
/// level 0, and each further level the stable partition of the previous one
/// by the previous level's bit.
pub open spec fn level_order(s: Seq<u8>, n_levels: nat, l: nat) -> Seq<u8>
    decreases l,
{
    if l == 0 {
        s
    } else {
        partition_by_bit(
            level_order(s, n_levels, (l - 1) as nat),
            level_bit(n_levels, (l - 1) as nat),
        )
    }
}

/// Number of `true` entries of `b`.
pub open spec fn ones_count(b: Seq<bool>) -> nat
    decreases b.len(),
{
    if b.len() == 0 {
        0
    } else {
        ones_count(b.drop_last()) + if b.last() {
            1nat
        } else {
            0nat
        }
    }
}

/// The 64 bits of a word, least significant first.
pub open spec fn word_bits(w: u64) -> Seq<bool> {
    Seq::new(64, |j: int| (w >> (j as u64)) & 1u64 == 1u64)
}

/// Number of bits needed to write `v` (at least 1): one more than the
/// position of its most significant set bit.
pub open spec fn levels_for(v: u8) -> nat {
    if v >= 128 {
        8
    } else if v >= 64 {
        7
    } else if v >= 32 {
        6
    } else if v >= 16 {
        5
    } else if v >= 8 {
        4
    } else if v >= 4 {
        3
    } else if v >= 2 {
        2
    } else {
        1
    }
}

/// Largest symbol of a non-empty sequence.
pub open spec fn seq_max(s: Seq<u8>) -> u8
    decreases s.len(),
{
    if s.len() <= 1 {
        if s.len() == 0 {
            0
        } else {
            s[0]
        }
    } else {
        let m = seq_max(s.drop_last());
        if s.last() > m {
            s.last()
        } else {
            m
        }
    }
}

/// Number of bit-planes used for `s`: none for the empty sequence, else
/// the bit length of its largest symbol (one plane when that is 0).
pub open spec fn n_levels_for(s: Seq<u8>) -> nat {
    if s.len() == 0 {
        0
    } else {
        levels_for(seq_max(s))
    }
}

/// Whether a symbol is `v`.
pub open spec fn equals(v: u8) -> spec_fn(u8) -> bool {
    |x: u8| x == v
}

/// Number of occurrences of `v` in `s`.
pub open spec fn occurrences(s: Seq<u8>, v: u8) -> nat {
    s.filter(equals(v)).len()
}

pub proof fn lemma_ones_count_append(a: Seq<bool>, b: Seq<bool>)
    ensures
        ones_count(a + b) == ones_count(a) + ones_count(b),
    decreases b.len(),
{
    if b.len() > 0 {
        lemma_ones_count_append(a, b.drop_last());
        assert((a + b).drop_last() =~= a + b.drop_last());
    } else {
        assert(a + b =~= a);
    }
}

pub proof fn lemma_ones_count_zeros(n: nat)
    ensures
        ones_count(Seq::new(n, |j: int| false)) == 0,
    decreases n,
{
    if n > 0 {
        lemma_ones_count_zeros((n - 1) as nat);
        assert(Seq::new(n, |j: int| false).drop_last() =~= Seq::new((n - 1) as nat, |j: int| false));
    }
}

/// Counting set bits over a bit sequence that mirrors a predicate on a
/// symbol sequence counts the symbols that satisfy it.
pub proof fn lemma_ones_count_filter(b: Seq<bool>, s: Seq<u8>, f: spec_fn(u8) -> bool)
    requires
        b.len() == s.len(),
        forall|j: int| 0 <= j < s.len() ==> b[j] == f(s[j]),
    ensures
        ones_count(b) == s.filter(f).len(),
    decreases s.len(),
{
    reveal_with_fuel(Seq::filter, 1);
    if s.len() > 0 {
        lemma_ones_count_filter(b.drop_last(), s.drop_last(), f);
    }
}

pub proof fn lemma_filter_split_len(s: Seq<u8>, k: u8)
    ensures
        s.filter(lacks_bit(k)).len() + s.filter(has_bit(k)).len() == s.len(),
    decreases s.len(),
{
    reveal_with_fuel(Seq::filter, 1);
    if s.len() > 0 {
        lemma_filter_split_len(s.drop_last(), k);
    }
}

/// In a filtered sequence, an element that passes the filter sits at the
/// index given by how many elements before it pass.
pub proof fn lemma_filter_index(s: Seq<u8>, f: spec_fn(u8) -> bool, p: int)
    requires
        0 <= p < s.len(),
        f(s[p]),
    ensures
        s.take(p).filter(f).len() < s.filter(f).len(),
        s.filter(f)[s.take(p).filter(f).len() as int] == s[p],
    decreases s.len(),
{
    reveal_with_fuel(Seq::filter, 1);
    if p == s.len() - 1 {
        assert(s.take(p) =~= s.drop_last());
    } else {
        lemma_filter_index(s.drop_last(), f, p);
        assert(s.drop_last().take(p) =~= s.take(p));
    }
}

/// Where the stable partition by bit `k` moves the symbol at position `p`.
pub proof fn lemma_partition_position(s: Seq<u8>, k: u8, p: int)
    requires
        0 <= p < s.len(),
    ensures
        ({
            let r = s.take(p).filter(has_bit(k)).len() as int;
            let z = s.filter(lacks_bit(k)).len() as int;
            let q = if bit_of(s[p], k) {
                z + r
            } else {
                p - r
            };
            0 <= q < s.len() && partition_by_bit(s, k)[q] == s[p]
        }),
{
    lemma_filter_split_len(s, k);
    lemma_filter_split_len(s.take(p), k);
    if bit_of(s[p], k) {
        lemma_filter_index(s, has_bit(k), p);
    } else {
        lemma_filter_index(s, lacks_bit(k), p);
    }
}

pub proof fn lemma_level_order_len(s: Seq<u8>, n_levels: nat, l: nat)
    ensures
        level_order(s, n_levels, l).len() == s.len(),
    decreases l,
{
    if l > 0 {
        lemma_level_order_len(s, n_levels, (l - 1) as nat);
        lemma_filter_split_len(
            level_order(s, n_levels, (l - 1) as nat),
            level_bit(n_levels, (l - 1) as nat),
        );
    }
}

/// One step of the descent: the bits above `k` followed by bit `k` are the
/// bits above `k - 1`.
pub proof fn lemma_high_bits_step(v: u8, k: u8)
    requires
        k < 8,
    ensures
        high_bits(v, (k + 1) as nat) < 128,
        ((high_bits(v, (k + 1) as nat) << 1u8) | (if bit_of(v, k) {
            1u8
        } else {
            0u8
        })) == high_bits(v, k as nat),
{
    if k == 7 {
        assert(((0u8 << 1u8) | ((v >> 7u8) & 1u8)) == v >> 7u8) by (bit_vector);
        assert((v >> 7u8) & 1u8 == 1u8 || (v >> 7u8) & 1u8 == 0u8) by (bit_vector);
    } else {
        assert(k < 7 ==> (v >> ((k + 1) as u8)) < 128u8) by (bit_vector);
        assert(k < 7 ==> (((v >> ((k + 1) as u8)) << 1u8) | ((v >> k) & 1u8)) == v >> k)
            by (bit_vector);
        assert((v >> k) & 1u8 == 1u8 || (v >> k) & 1u8 == 0u8) by (bit_vector);
    }
}

/// Every symbol up to `m` fits in `levels_for(m)` bits.
pub proof fn lemma_fits_levels(x: u8, m: u8)
    requires
        x <= m,
    ensures
        high_bits(x, levels_for(m)) == 0,
{
    if m < 128 {
        assert(x <= m && m < 2u8 ==> x >> 1u8 == 0u8) by (bit_vector);
        assert(x <= m && m < 4u8 ==> x >> 2u8 == 0u8) by (bit_vector);
        assert(x <= m && m < 8u8 ==> x >> 3u8 == 0u8) by (bit_vector);
        assert(x <= m && m < 16u8 ==> x >> 4u8 == 0u8) by (bit_vector);
        assert(x <= m && m < 32u8 ==> x >> 5u8 == 0u8) by (bit_vector);
        assert(x <= m && m < 64u8 ==> x >> 6u8 == 0u8) by (bit_vector);
        assert(x <= m && m < 128u8 ==> x >> 7u8 == 0u8) by (bit_vector);
    }
}

pub proof fn lemma_seq_max(s: Seq<u8>)
    requires
        s.len() > 0,
    ensures
        s.contains(seq_max(s)),
        forall|j: int| 0 <= j < s.len() ==> s[j] <= seq_max(s),
    decreases s.len(),
{
    if s.len() > 1 {
        lemma_seq_max(s.drop_last());
        let m = seq_max(s.drop_last());
        let j0 = choose|j: int| 0 <= j < s.drop_last().len() && s.drop_last()[j] == m;
        if s.last() <= m {
            assert(s[j0] == m);
        }
        assert forall|j: int| 0 <= j < s.len() - 1 implies s[j] <= seq_max(s) by {
            assert(s[j] == s.drop_last()[j]);
        }
    } else {
        assert(s[0] == seq_max(s));
    }
}

/// Level `l`'s bit-plane padded with 0 bits up to `size` positions.
pub open spec fn padded_plane(s: Seq<u8>, n_levels: nat, l: nat, size: nat) -> Seq<bool> {
    Seq::new(
        size,
        |j: int| j < s.len() && bit_of(level_order(s, n_levels, l)[j], level_bit(n_levels, l)),
    )
}

/// The first `count` padded bit-planes laid end to end, level 0 first.
pub open spec fn encoding(s: Seq<u8>, n_levels: nat, count: nat, size: nat) -> Seq<bool>
    decreases count,
{
    if count == 0 {
        Seq::empty()
    } else {
        encoding(s, n_levels, (count - 1) as nat, size) + padded_plane(
            s,
            n_levels,
            (count - 1) as nat,
            size,
        )
    }
}

/// Number of 1 bits in level `l`'s plane among its first `p` positions.
pub open spec fn level_rank(s: Seq<u8>, n_levels: nat, l: nat, p: int) -> nat {
    level_order(s, n_levels, l).take(p).filter(has_bit(level_bit(n_levels, l))).len()
}

pub proof fn lemma_ones_count_le(b: Seq<bool>)
    ensures
        ones_count(b) <= b.len(),
    decreases b.len(),
{
    if b.len() > 0 {
        lemma_ones_count_le(b.drop_last());
    }
}

/// Level `l` occupies positions `[l * size, (l + 1) * size)` of the encoding.
pub proof fn lemma_encoding_level(s: Seq<u8>, n_levels: nat, count: nat, size: nat, l: nat)
    requires
        l < count,
    ensures
        encoding(s, n_levels, count, size).len() == count * size,
        l * size + size <= count * size,
        encoding(s, n_levels, count, size).subrange((l * size) as int, (l * size + size) as int) == padded_plane(
            s,
            n_levels,
            l,
            size,
        ),
    decreases count,
{
    lemma_encoding_len(s, n_levels, (count - 1) as nat, size);
    let prev = encoding(s, n_levels, (count - 1) as nat, size);
    let pl = padded_plane(s, n_levels, (count - 1) as nat, size);
    let c1 = (count - 1) as nat;
    assert(count * size == c1 * size + size) by (nonlinear_arith)
        requires
            count == c1 + 1,
    ;
    if l == count - 1 {
        assert((prev + pl).subrange((l * size) as int, (l * size + size) as int) =~= pl);
    } else {
        lemma_encoding_level(s, n_levels, (count - 1) as nat, size, l);
        assert(l * size + size <= c1 * size) by (nonlinear_arith)
            requires
                l < c1,
        ;
        assert((prev + pl).subrange((l * size) as int, (l * size + size) as int) =~= prev.subrange((l * size) as int, (l * size + size) as int));
    }
}

pub proof fn lemma_encoding_len(s: Seq<u8>, n_levels: nat, count: nat, size: nat)
    ensures
        encoding(s, n_levels, count, size).len() == count * size,
    decreases count,
{
    if count > 0 {
        let c1 = (count - 1) as nat;
        lemma_encoding_len(s, n_levels, c1, size);
        assert(count * size == c1 * size + size) by (nonlinear_arith)
            requires
                count == c1 + 1,
        ;
        assert(encoding(s, n_levels, count, size).len() == c1 * size + size);
    } else {
        assert(count * size == 0) by (nonlinear_arith)
            requires
                count == 0,
        ;
    }
}

/// The set bits of a padded plane before position `p` are the level's rank.
pub proof fn lemma_padded_plane_rank(s: Seq<u8>, n_levels: nat, l: nat, size: nat, p: int)
    requires
        0 <= p <= s.len(),
        s.len() <= size,
    ensures
        ones_count(padded_plane(s, n_levels, l, size).take(p)) == level_rank(s, n_levels, l, p),
{
    lemma_level_order_len(s, n_levels, l);
    let o = level_order(s, n_levels, l);
    lemma_ones_count_filter(
        padded_plane(s, n_levels, l, size).take(p),
        o.take(p),
        has_bit(level_bit(n_levels, l)),
    );
}

/// Counting the set bits of `[start, p + len)` one word at a time: the word
/// holds the bits of `[p, p + len)` and zeros above them.
pub proof fn lemma_scan_step(bits: Seq<bool>, start: int, p: int, len: int, w: u64)
    requires
        0 <= start <= p,
        1 <= len <= 64,
        p + len <= bits.len(),
        word_bits(w) == bits.subrange(p, p + len) + Seq::new((64 - len) as nat, |j: int| false),
    ensures
        ones_count(bits.subrange(start, p + len)) == ones_count(bits.subrange(start, p))
            + ones_count(word_bits(w)),
        ones_count(bits.subrange(start, p + len)) <= p + len - start,
{
    let chunk = bits.subrange(p, p + len);
    lemma_ones_count_append(chunk, Seq::new((64 - len) as nat, |j: int| false));
    lemma_ones_count_zeros((64 - len) as nat);
    lemma_ones_count_append(bits.subrange(start, p), chunk);
    assert(bits.subrange(start, p) + chunk =~= bits.subrange(start, p + len));
    lemma_ones_count_le(bits.subrange(start, p + len));
}

/// The set bits of a plane stored at `base` before `b`: those before `a`
/// and those of the stored range `[base + a, base + b)`.
pub proof fn lemma_plane_split(bits: Seq<bool>, base: int, plane: Seq<bool>, a: int, b: int)
    requires
        0 <= base,
        base + plane.len() <= bits.len(),
        bits.subrange(base, base + plane.len()) == plane,
        0 <= a <= b <= plane.len(),
    ensures
        ones_count(plane.take(b)) == ones_count(plane.take(a)) + ones_count(
            bits.subrange(base + a, base + b),
        ),
{
    assert(bits.subrange(base + a, base + b) =~= plane.subrange(a, b));
    assert(plane.take(a) + plane.subrange(a, b) =~= plane.take(b));
    lemma_ones_count_append(plane.take(a), plane.subrange(a, b));
}

/// The symbols whose bits above position `h` are those of `v`.
pub open spec fn same_high(v: u8, h: nat) -> spec_fn(u8) -> bool {
    |x: u8| high_bits(x, h) == high_bits(v, h)
}

/// Filtering twice is filtering by both predicates.
pub proof fn lemma_filter_compose(
    s: Seq<u8>,
    p: spec_fn(u8) -> bool,
    q: spec_fn(u8) -> bool,
    r: spec_fn(u8) -> bool,
)
    requires
        forall|x: u8| #[trigger] r(x) == (p(x) && q(x)),
    ensures
        s.filter(p).filter(q) == s.filter(r),
    decreases s.len(),
{
    reveal_with_fuel(Seq::filter, 1);
    if s.len() > 0 {
        lemma_filter_compose(s.drop_last(), p, q, r);
        assert(r(s.last()) == (p(s.last()) && q(s.last())));
        if p(s.last()) {
            assert(s.filter(p).drop_last() =~= s.drop_last().filter(p));
            assert(s.filter(p).last() == s.last());
        }
    }
}

/// A filter that every element passes keeps the whole sequence.
pub proof fn lemma_filter_all(s: Seq<u8>, p: spec_fn(u8) -> bool)
    requires
        forall|j: int| 0 <= j < s.len() ==> #[trigger] p(s[j]),
    ensures
        s.filter(p) == s,
    decreases s.len(),
{
    reveal_with_fuel(Seq::filter, 1);
    if s.len() > 0 {
        assert(p(s[s.len() - 1]));
        lemma_filter_all(s.drop_last(), p);
        assert(s.drop_last().push(s.last()) =~= s);
    }
}

/// A filter that no element passes keeps nothing.
pub proof fn lemma_filter_none(s: Seq<u8>, p: spec_fn(u8) -> bool)
    requires
        forall|j: int| 0 <= j < s.len() ==> !#[trigger] p(s[j]),
    ensures
        s.filter(p).len() == 0,
    decreases s.len(),
{
    reveal_with_fuel(Seq::filter, 1);
    if s.len() > 0 {
        assert(!p(s[s.len() - 1]));
        lemma_filter_none(s.drop_last(), p);
    }
}

/// Predicates that agree on every element filter alike.
pub proof fn lemma_filter_ext(s: Seq<u8>, p: spec_fn(u8) -> bool, q: spec_fn(u8) -> bool)
    requires
        forall|x: u8| #[trigger] p(x) == q(x),
    ensures
        s.filter(p) == s.filter(q),
{
    assert(p =~= q);
}

/// Filtering a prefix gives a prefix of the filtered sequence.
pub proof fn lemma_filter_prefix(s: Seq<u8>, p: spec_fn(u8) -> bool, i: int)
    requires
        0 <= i <= s.len(),
    ensures
        s.take(i).filter(p).len() <= s.filter(p).len(),
        s.filter(p).take(s.take(i).filter(p).len() as int) == s.take(i).filter(p),
{
    assert(s.take(i) + s.skip(i) =~= s);
    Seq::filter_distributes_over_add(s.take(i), s.skip(i), p);
    let a = s.take(i).filter(p);
    let b = s.skip(i).filter(p);
    assert((a + b).take(a.len() as int) =~= a);
}

/// The bits above `k` match those of `v` exactly when the bits above
/// `k + 1` and bit `k` both match.
pub proof fn lemma_same_high_step(v: u8, x: u8, k: u8)
    requires
        k < 8,
    ensures
        (high_bits(x, k as nat) == high_bits(v, k as nat)) == (high_bits(x, (k + 1) as nat)
            == high_bits(v, (k + 1) as nat) && bit_of(x, k) == bit_of(v, k)),
{
    lemma_high_bits_step(v, k);
    lemma_high_bits_step(x, k);
    let a = high_bits(x, (k + 1) as nat);
    let c = high_bits(v, (k + 1) as nat);
    let b: u8 = if bit_of(x, k) {
        1
    } else {
        0
    };
    let d: u8 = if bit_of(v, k) {
        1
    } else {
        0
    };
    assert(a < 128 && c < 128 && b <= 1 && d <= 1 ==> ((((a << 1u8) | b) == ((c << 1u8) | d)) == (a
        == c && b == d))) by (bit_vector);
}

/// One level of the rank descent. The symbols of the current node, `f`,
/// sit contiguously from `cp` in the level order `o`, and `g` is a prefix
/// of them; after the level's partition by bit `k`, the child on side `bv`
/// sits contiguously from the new start, and the prefix's part of it ends
/// at the new end.
pub proof fn lemma_rank_step(o: Seq<u8>, f: Seq<u8>, g: Seq<u8>, cp: int, k: u8, bv: bool)
    requires
        0 <= cp,
        cp + f.len() <= o.len(),
        o.subrange(cp, cp + f.len()) == f,
        g.len() <= f.len(),
        f.take(g.len() as int) == g,
    ensures
        ({
            let rp = o.take(cp).filter(has_bit(k)).len() as int;
            let ri = o.take(cp + g.len()).filter(has_bit(k)).len() as int;
            let z = o.filter(lacks_bit(k)).len() as int;
            let side = if bv {
                has_bit(k)
            } else {
                lacks_bit(k)
            };
            let p2 = if bv {
                z + rp
            } else {
                cp - rp
            };
            let i2 = if bv {
                z + ri
            } else {
                cp + g.len() - ri
            };
            &&& 0 <= rp <= cp
            &&& 0 <= ri <= cp + g.len()
            &&& 0 <= p2 <= i2
            &&& p2 + f.filter(side).len() <= o.len()
            &&& partition_by_bit(o, k).subrange(p2, p2 + f.filter(side).len()) == f.filter(side)
            &&& i2 - p2 == g.filter(side).len()
        }),
{
    let x = o.take(cp);
    let y = o.skip(cp + f.len());
    assert(x + f + y =~= o);
    assert(x + g =~= o.take(cp + g.len()));
    Seq::filter_distributes_over_add(x + f, y, has_bit(k));
    Seq::filter_distributes_over_add(x, f, has_bit(k));
    Seq::filter_distributes_over_add(x + f, y, lacks_bit(k));
    Seq::filter_distributes_over_add(x, f, lacks_bit(k));
    Seq::filter_distributes_over_add(x, g, has_bit(k));
    lemma_filter_split_len(x, k);
    lemma_filter_split_len(g, k);
    lemma_filter_split_len(o, k);
    lemma_filter_split_len(f, k);
    lemma_filter_split_len(y, k);
    let xo = x.filter(has_bit(k));
    let xz = x.filter(lacks_bit(k));
    let fo = f.filter(has_bit(k));
    let fz = f.filter(lacks_bit(k));
    let yo = y.filter(has_bit(k));
    let yz = y.filter(lacks_bit(k));
    let z = o.filter(lacks_bit(k));
    if bv {
        assert(partition_by_bit(o, k) == z + (xo + fo + yo));
        assert((z + (xo + fo + yo)).subrange(
            (z.len() + xo.len()) as int,
            (z.len() + xo.len() + fo.len()) as int,
        ) =~= fo);
    } else {
        assert(partition_by_bit(o, k) == (xz + fz + yz) + o.filter(has_bit(k)));
        assert(((xz + fz + yz) + o.filter(has_bit(k))).subrange(
            xz.len() as int,
            (xz.len() + fz.len()) as int,
        ) =~= fz);
    }
}

} // verus!
