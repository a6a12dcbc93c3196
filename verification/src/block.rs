//! The block, the unit of 2880 bytes in which a FITS file is laid out.

use vstd::prelude::*;

verus! {

/// The number of bytes in a block.
pub const BLOCK_SIZE: usize = 2880;

/// The number of bytes in a header card.
pub const CARD_SIZE: usize = 80;

/// The number of cards in a header block.
pub const CARDS_PER_BLOCK: usize = 36;

/// The blocks as byte sequences.
pub open spec fn block_views(blocks: Seq<[u8; 2880]>) -> Seq<Seq<u8>> {
    Seq::new(blocks.len(), |i: int| blocks[i]@)
}

/// The bytes of the blocks, one block after the other.
pub open spec fn flat_bytes(blocks: Seq<Seq<u8>>) -> Seq<u8> {
    Seq::new(blocks.len() * 2880, |i: int| blocks[i / 2880][i % 2880])
}

/// Block number `k` of a buffer.
pub open spec fn block_at(buffer: Seq<u8>, k: int) -> Seq<u8> {
    buffer.subrange(k * 2880, k * 2880 + 2880)
}

/// Copies the bytes of the blocks into one vector, in order.
pub fn flatten_blocks(blocks: &Vec<[u8; 2880]>) -> (flat: Vec<u8>)
    ensures
        flat@ == flat_bytes(block_views(blocks@)),
{
    broadcast use vstd::array::group_array_axioms;

    let mut flat: Vec<u8> = Vec::new();
    let mut i: usize = 0;
    while i < blocks.len()
        invariant
            i <= blocks@.len(),
            flat@ == flat_bytes(block_views(blocks@).take(i as int)),
        decreases blocks@.len() - i,
    {
        let mut j: usize = 0;
        while j < BLOCK_SIZE
            invariant
                i < blocks@.len(),
                j <= 2880,
                flat@ == flat_bytes(block_views(blocks@).take(i as int)) + blocks@[i as int]@.take(
                    j as int,
                ),
            decreases 2880 - j,
        {
            flat.push(blocks[i][j]);
            j += 1;
        }
        i += 1;
        assert(flat@ =~= flat_bytes(block_views(blocks@).take(i as int))) by {
            let before = block_views(blocks@).take(i - 1);
            let now = block_views(blocks@).take(i as int);
            assert(now.len() * 2880 == before.len() * 2880 + 2880);
            assert forall|k: int| 0 <= k < now.len() * 2880 implies flat@[k] == flat_bytes(now)[k] by {
                if k < before.len() * 2880 {
                    assert(now[k / 2880] == before[k / 2880]);
                } else {
                    assert(k / 2880 == i - 1);
                    assert(k % 2880 == k - (i - 1) * 2880);
                }
            }
        }
    }
    assert(block_views(blocks@).take(i as int) =~= block_views(blocks@));
    flat
}

/// A copy of the blocks.
pub fn copy_blocks(blocks: &Vec<[u8; 2880]>) -> (copy: Vec<[u8; 2880]>)
    ensures
        copy@ == blocks@,
{
    let mut copy: Vec<[u8; 2880]> = Vec::new();
    let mut i: usize = 0;
    while i < blocks.len()
        invariant
            i <= blocks@.len(),
            copy@ == blocks@.take(i as int),
        decreases blocks@.len() - i,
    {
        copy.push(blocks[i]);
        i += 1;
        assert(copy@ =~= blocks@.take(i as int));
    }
    assert(blocks@.take(i as int) =~= blocks@);
    copy
}

} // verus!
