//! The bit vector and the helpers of the `qwt` crate that the trees are
//! built on, with what the library relies on from each.
use qwt::BitVector;
use vstd::prelude::*;

verus! {

#[verifier::external_type_specification]
#[verifier::external_body]
pub struct ExBitVector(qwt::BitVector);

/// The bits held by a `qwt::BitVector`, position 0 first.
pub uninterp spec fn bv_bits(bv: BitVector) -> Seq<bool>;

/// Relies on `BitVector`'s `FromIterator<bool>`: the vector holds the bits
/// in the order given.
#[verifier::external_body]
pub(crate) fn bv_from_bools(bits: Vec<bool>) -> (r: BitVector)
    ensures
        bv_bits(r) == bits@,
{
    bits.into_iter().collect()
}

/// Relies on `qwt::AccessBin::get` for `BitVector`: the bit at `index`, or
/// `None` past the end.
#[verifier::external_body]
pub(crate) fn bv_get(bv: &BitVector, index: usize) -> (r: Option<bool>)
    ensures
        index < bv_bits(*bv).len() ==> r == Some(bv_bits(*bv)[index as int]),
        index >= bv_bits(*bv).len() ==> r.is_none(),
{
    qwt::AccessBin::get(bv, index)
}

/// Relies on `BitVector::get_bits`: the `len` bits from `index` on, as the
/// low bits of a word whose other bits are 0; `None` when `len` is 0, over
/// 64, or the range passes the end.
#[verifier::external_body]
pub(crate) fn bv_get_bits(bv: &BitVector, index: usize, len: usize) -> (r: Option<u64>)
    requires
        index + len <= usize::MAX,
    ensures
        (1 <= len <= 64 && index + len <= bv_bits(*bv).len()) <==> r.is_some(),
        r matches Some(w) ==> crate::model::word_bits(w) == bv_bits(*bv).subrange(
            index as int,
            index + len,
        ) + Seq::new((64 - len) as nat, |j: int| false),
{
    bv.get_bits(index, len)
}

/// Relies on `BitVector::n_lines`: the number of cache lines it occupies.
#[verifier::external_body]
pub(crate) fn bv_n_lines(bv: &BitVector) -> usize {
    bv.n_lines()
}

/// Relies on `BitVector::prefetch_line`: a hint to the processor, with no
/// effect on any value.
#[verifier::external_body]
pub(crate) fn bv_prefetch_line(bv: &BitVector, line: usize) {
    bv.prefetch_line(line)
}

/// Bytes occupied by a `qwt::BitVector`, as its `MemSize` reports them.
pub uninterp spec fn bv_space(bv: BitVector) -> nat;

/// Relies on `qwt`'s `MemSize` for `BitVector`: the bytes it occupies,
/// which depend on the value alone.
#[verifier::external_body]
pub(crate) fn bv_space_usage_byte(bv: &BitVector) -> (r: usize)
    ensures
        r == bv_space(*bv),
{
    qwt::mem_dbg::MemSize::mem_size(bv, qwt::mem_dbg::SizeFlags::default())
}

/// Relies on `u64::count_ones`: the number of set bits of the word.
#[verifier::external_body]
pub(crate) fn word_count_ones(w: u64) -> (r: u32)
    ensures
        r as nat == crate::model::ones_count(crate::model::word_bits(w)),
{
    w.count_ones()
}

/// Relies on `qwt::utils::msb`: the position of the most significant set
/// bit, and 0 for 0.
#[verifier::external_body]
pub(crate) fn symbol_msb(v: u8) -> (r: u32)
    ensures
        r as nat + 1 == crate::model::levels_for(v),
{
    qwt::utils::msb(v)
}

/// Relies on `qwt::utils::stable_partition_of_2`: symbols whose bit `shift`
/// is 0 move to the front and those whose bit is 1 to the back, each group
/// in its previous order.
#[verifier::external_body]
pub(crate) fn partition_by_bit_in_place(sequence: &mut [u8], shift: u8)
    requires
        shift < 8,
    ensures
        final(sequence)@ == crate::model::partition_by_bit(old(sequence)@, shift),
{
    qwt::utils::stable_partition_of_2(sequence, shift as usize)
}

} // verus!
