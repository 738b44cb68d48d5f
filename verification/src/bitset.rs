//! What this library relies on from `fixedbitset::FixedBitSet`, the dense bit
//! store that holds the cells. Nothing in this file is proved: each contract
//! restates what the `fixedbitset` source does.

use fixedbitset::FixedBitSet;
use vstd::prelude::*;

verus! {

/// `fixedbitset::FixedBitSet`, a set of bits of a fixed length. Its fields
/// are hidden; `bits_of` names what it holds.
#[verifier::external_type_specification]
#[verifier::external_body]
pub struct ExFixedBitSet(FixedBitSet);

/// The bits that a set holds, in index order: one entry per bit of its
/// length, `true` where the bit is enabled.
pub uninterp spec fn bits_of(set: FixedBitSet) -> Seq<bool>;

/// `FixedBitSet::with_capacity` makes a set of `bits` bits, all disabled.
pub assume_specification[ FixedBitSet::with_capacity ](bits: usize) -> (set: FixedBitSet)
    ensures
        bits_of(set) == Seq::new(bits as nat, |i: int| false),
;

/// `FixedBitSet::len` is the number of bits, enabled or not.
pub assume_specification[ FixedBitSet::len ](set: &FixedBitSet) -> (n: usize)
    ensures
        n == bits_of(*set).len(),
;

/// `FixedBitSet::contains` reads one bit of the set. Nothing is claimed of a
/// bit past the end: there the source reads the padding of the last block,
/// which a caller of `as_mut_slice` may have written.
pub assume_specification[ FixedBitSet::contains ](set: &FixedBitSet, bit: usize) -> (enabled: bool)
    ensures
        bit < bits_of(*set).len() ==> enabled == bits_of(*set)[bit as int],
;

/// `FixedBitSet::set` writes one bit and leaves the others and the length as
/// they were. It panics when `bit` is past the end, and only then.
pub assume_specification[ FixedBitSet::set ](set: &mut FixedBitSet, bit: usize, enabled: bool)
    requires
        bit < bits_of(*old(set)).len(),
    ensures
        bits_of(*final(set)) == bits_of(*old(set)).update(bit as int, enabled),
;

/// `Clone::clone` for a `FixedBitSet` copies the length and every bit.
pub assume_specification[ <FixedBitSet as Clone>::clone ](set: &FixedBitSet) -> (copy: FixedBitSet)
    ensures
        bits_of(copy) == bits_of(*set),
;

/// Whether bit `i` of a set's contents is the bit `i % 32` of block `i / 32`,
/// for each `i`, and the blocks are just as many as the bits need.
pub open spec fn packed(blocks: Seq<u32>, bits: Seq<bool>) -> bool {
    &&& blocks.len() == (bits.len() + 31) / 32
    &&& forall|i: int|
        0 <= i < bits.len() ==> #[trigger] bits[i] == (((blocks[i / 32] >> ((i % 32) as u32)) & 1)
            == 1)
}

/// `FixedBitSet::as_slice` lends the blocks that store the bits: 32 bits to a
/// block, the lowest bit of a block first.
pub assume_specification[ FixedBitSet::as_slice ](set: &FixedBitSet) -> (blocks: &[u32])
    ensures
        packed(blocks@, bits_of(*set)),
;

/// `FixedBitSet::set_range` over the full range `..` with `false` disables
/// every bit and keeps the length.
#[verifier::external_body]
pub(crate) fn disable_all(set: &mut FixedBitSet)
    ensures
        bits_of(*final(set)) == Seq::new(bits_of(*old(set)).len(), |i: int| false),
{
    set.set_range(.., false);
}

} // verus!
