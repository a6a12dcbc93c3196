//! The block scanner: it cuts a buffer into blocks and groups the blocks
//! into header/data units.

use vstd::prelude::*;
use crate::block::{block_at, BLOCK_SIZE, CARDS_PER_BLOCK, CARD_SIZE};
use crate::data::data::{Data, DataView};
use crate::error::FitsError;
use crate::hdu::{hdu_views, HduView, HDU};
use crate::header::{Header, HeaderType, HeaderView};

verus! {

/// `s` begins with the bytes of `mark`.
pub open spec fn begins_with(s: Seq<u8>, mark: Seq<u8>) -> bool {
    mark.len() <= s.len() && forall|i: int| 0 <= i < mark.len() ==> s[i] == #[trigger] mark[i]
}

/// The bytes of `SIMPLE` and two spaces.
pub open spec fn simple_mark() -> Seq<u8> {
    seq![83u8, 73u8, 77u8, 80u8, 76u8, 69u8, 32u8, 32u8]
}

/// The bytes of `XTENSION`.
pub open spec fn xtension_mark() -> Seq<u8> {
    seq![88u8, 84u8, 69u8, 78u8, 83u8, 73u8, 79u8, 78u8]
}

/// The bytes of `END` and five spaces.
pub open spec fn end_mark() -> Seq<u8> {
    seq![69u8, 78u8, 68u8, 32u8, 32u8, 32u8, 32u8, 32u8]
}

/// A block begins a header if its first 8 bytes are `SIMPLE` and two
/// spaces, or `XTENSION`.
pub open spec fn is_header_start(block: Seq<u8>) -> bool {
    begins_with(block, simple_mark()) || begins_with(block, xtension_mark())
}

/// Card number `j` of the block is the `END` card.
pub open spec fn is_end_card(block: Seq<u8>, j: int) -> bool {
    begins_with(block.subrange(j * 80, j * 80 + 80), end_mark())
}

/// One of the 36 cards of the block is the `END` card.
pub open spec fn has_end_card(block: Seq<u8>) -> bool {
    exists|j: int| 0 <= j < 36 && #[trigger] is_end_card(block, j)
}

/// The blocks that one unit takes of a buffer: header blocks from block
/// number `start` on, then data blocks.
pub struct Extent {
    pub start: nat,
    pub header: nat,
    pub data: nat,
}

/// The scanner's state between two blocks.
pub struct ScanState {
    /// The units that are complete.
    pub done: Seq<Extent>,
    /// The unit that is being filled.
    pub current: Extent,
    /// Whether the blocks that come belong to the header.
    pub reading: bool,
}

/// The scanner's state after the first `n` blocks. A block that begins a
/// header closes the unit being filled, if that has a header, and turns to
/// reading a header; a header block with an `END` card is the header's last;
/// any other block is data.
pub open spec fn scan(buffer: Seq<u8>, n: nat) -> ScanState
    decreases n,
{
    if n == 0 {
        ScanState {
            done: Seq::empty(),
            current: Extent { start: 0, header: 0, data: 0 },
            reading: false,
        }
    } else {
        let prev = scan(buffer, (n - 1) as nat);
        let block = block_at(buffer, n - 1);
        let begins = is_header_start(block);
        let closes = begins && prev.current.header > 0;
        let done = if closes {
            prev.done.push(prev.current)
        } else {
            prev.done
        };
        let current = if closes {
            Extent { start: (n - 1) as nat, header: 0, data: 0 }
        } else {
            prev.current
        };
        if begins || prev.reading {
            ScanState {
                done,
                current: Extent { header: current.header + 1, ..current },
                reading: !has_end_card(block),
            }
        } else {
            ScanState { done, current: Extent { data: current.data + 1, ..current }, reading: false }
        }
    }
}

/// The units of a buffer of whole blocks: those that were closed, and the
/// one being filled when the blocks end. A buffer without blocks has none.
pub open spec fn extents(buffer: Seq<u8>) -> Seq<Extent> {
    let n = buffer.len() / 2880;
    if n == 0 {
        Seq::empty()
    } else {
        scan(buffer, n).done.push(scan(buffer, n).current)
    }
}

/// The units of a buffer, or why it cannot be scanned: its length is no
/// multiple of the block size, or its first block does not begin a header.
pub open spec fn scanned(buffer: Seq<u8>) -> Result<Seq<Extent>, FitsError> {
    if buffer.len() % 2880 != 0 {
        Err(FitsError::BadLength)
    } else if buffer.len() > 0 && !is_header_start(block_at(buffer, 0)) {
        Err(FitsError::MissingHeaderStart)
    } else {
        Ok(extents(buffer))
    }
}

/// `count` blocks of the buffer from block number `start` on.
pub open spec fn blocks_from(buffer: Seq<u8>, start: nat, count: nat) -> Seq<Seq<u8>> {
    Seq::new(count, |j: int| block_at(buffer, start + j))
}

/// The unit that scanning makes of an extent: a header that holds the
/// header blocks and is not yet parsed, and the data blocks, unclassified.
pub open spec fn raw_hdu(buffer: Seq<u8>, e: Extent) -> HduView {
    HduView {
        header: HeaderView {
            blocks: blocks_from(buffer, e.start, e.header),
            initialized: false,
            kind: HeaderType::Primary,
            cards: Seq::empty(),
        },
        data: DataView::Empty(blocks_from(buffer, e.start + e.header, e.data)),
    }
}

/// The units that scanning makes of the extents, in order.
pub open spec fn raw_hdus(buffer: Seq<u8>, extents: Seq<Extent>) -> Seq<HduView> {
    Seq::new(extents.len(), |i: int| raw_hdu(buffer, extents[i]))
}

/// The number of blocks that the extents take together.
pub open spec fn total_blocks(extents: Seq<Extent>) -> nat
    decreases extents.len(),
{
    if extents.len() == 0 {
        0
    } else {
        total_blocks(extents.drop_last()) + extents.last().header + extents.last().data
    }
}

/// Each extent begins where the one before it ends, the first at block
/// `from`; the last ends at block `to`.
pub open spec fn tiles(extents: Seq<Extent>, from: nat, to: nat) -> bool
    decreases extents.len(),
{
    if extents.len() == 0 {
        from == to
    } else {
        let last = extents.last();
        last.start + last.header + last.data == to && tiles(extents.drop_last(), from, last.start)
    }
}

/// Every block is counted once: after `n` blocks the closed units and the
/// one being filled take `n` blocks together.
pub proof fn lemma_scan_counts(buffer: Seq<u8>, n: nat)
    ensures
        total_blocks(scan(buffer, n).done) + scan(buffer, n).current.header + scan(
            buffer,
            n,
        ).current.data == n,
    decreases n,
{
    if n > 0 {
        lemma_scan_counts(buffer, (n - 1) as nat);
        let prev = scan(buffer, (n - 1) as nat);
        assert(prev.done.push(prev.current).drop_last() =~= prev.done);
    }
}

/// Where the first block begins a header, the units lie one after the
/// other from the first block on, each begins with a header block, and data
/// blocks come only once the header is read.
pub proof fn lemma_scan_shape(buffer: Seq<u8>, n: nat)
    requires
        n >= 1,
        is_header_start(block_at(buffer, 0)),
    ensures
        ({
            let s = scan(buffer, n);
            &&& s.current.header >= 1
            &&& s.current.start + s.current.header + s.current.data == n
            &&& (s.reading ==> s.current.data == 0)
            &&& tiles(s.done, 0, s.current.start)
            &&& is_header_start(block_at(buffer, s.current.start as int))
            &&& forall|k: int|
                0 <= k < s.done.len() ==> (#[trigger] s.done[k]).header >= 1 && is_header_start(
                    block_at(buffer, s.done[k].start as int),
                )
        }),
    decreases n,
{
    let s = scan(buffer, n);
    if n == 1 {
        reveal_with_fuel(scan, 2);
        assert(s.done =~= Seq::<Extent>::empty());
    } else {
        lemma_scan_shape(buffer, (n - 1) as nat);
        let prev = scan(buffer, (n - 1) as nat);
        let block = block_at(buffer, n - 1);
        if is_header_start(block) {
            assert(s.done == prev.done.push(prev.current));
            assert(s.done.drop_last() =~= prev.done);
            assert(s.done.last() == prev.current);
            assert forall|k: int| 0 <= k < s.done.len() implies (#[trigger] s.done[k]).header >= 1
                && is_header_start(block_at(buffer, s.done[k].start as int)) by {
                if k < prev.done.len() {
                    assert(s.done[k] == prev.done[k]);
                }
            }
        } else {
            assert(s.done == prev.done);
        }
    }
}

/// The blocks of an extent are cut as the format asks: the first begins a
/// header and no other does; the header blocks before the last hold no
/// `END` card; and the last header block holds one, unless the header is
/// still `reading`, in which case no data block has come.
pub open spec fn well_cut(buffer: Seq<u8>, e: Extent, reading: bool) -> bool {
    &&& e.header >= 1
    &&& is_header_start(block_at(buffer, e.start as int))
    &&& forall|k: int|
        e.start < k < e.start + e.header + e.data ==> !is_header_start(
            #[trigger] block_at(buffer, k),
        )
    &&& forall|k: int|
        e.start <= k < e.start + e.header - 1 ==> !has_end_card(#[trigger] block_at(buffer, k))
    &&& if reading {
        e.data == 0 && !has_end_card(block_at(buffer, e.start + e.header - 1))
    } else {
        has_end_card(block_at(buffer, e.start + e.header - 1))
    }
}

/// The blocks of a complete unit are cut as the format asks, whether or not
/// its header came to an end.
pub open spec fn closed_cut(buffer: Seq<u8>, e: Extent) -> bool {
    well_cut(buffer, e, true) || well_cut(buffer, e, false)
}

/// Where the first block begins a header, every unit is cut as the format
/// asks after any number of blocks.
pub proof fn lemma_scan_cut(buffer: Seq<u8>, n: nat)
    requires
        n >= 1,
        is_header_start(block_at(buffer, 0)),
    ensures
        well_cut(buffer, scan(buffer, n).current, scan(buffer, n).reading),
        forall|i: int|
            0 <= i < scan(buffer, n).done.len() ==> closed_cut(
                buffer,
                #[trigger] scan(buffer, n).done[i],
            ),
    decreases n,
{
    let s = scan(buffer, n);
    lemma_scan_shape(buffer, n);
    if n == 1 {
        reveal_with_fuel(scan, 2);
        assert(s.done =~= Seq::<Extent>::empty());
    } else {
        lemma_scan_cut(buffer, (n - 1) as nat);
        lemma_scan_shape(buffer, (n - 1) as nat);
        let prev = scan(buffer, (n - 1) as nat);
        let block = block_at(buffer, n - 1);
        if is_header_start(block) {
            assert(s.done == prev.done.push(prev.current));
            assert forall|i: int| 0 <= i < s.done.len() implies closed_cut(
                buffer,
                #[trigger] s.done[i],
            ) by {
                if i < prev.done.len() {
                    assert(s.done[i] == prev.done[i]);
                } else {
                    assert(s.done[i] == prev.current);
                }
            }
        } else {
            assert(s.done == prev.done);
            assert(s.current.start == prev.current.start);
        }
    }
}

/// The units of a buffer are cut as the format asks: each begins with a
/// block that begins a header and holds no other such block, and its header
/// runs up to the first block with an `END` card.
pub proof fn lemma_extents_well_cut(buffer: Seq<u8>)
    requires
        scanned(buffer) is Ok,
    ensures
        forall|i: int|
            0 <= i < extents(buffer).len() ==> closed_cut(buffer, #[trigger] extents(buffer)[i]),
{
    let n = buffer.len() / 2880;
    if n > 0 {
        lemma_scan_cut(buffer, n);
        let s = scan(buffer, n);
        assert forall|i: int| 0 <= i < extents(buffer).len() implies closed_cut(
            buffer,
            #[trigger] extents(buffer)[i],
        ) by {
            if i < s.done.len() {
                assert(extents(buffer)[i] == s.done[i]);
            } else {
                assert(extents(buffer)[i] == s.current);
            }
        }
    }
}

/// The number of blocks that the units hold together, header and data.
pub open spec fn held_blocks(hdus: Seq<HduView>) -> nat
    decreases hdus.len(),
{
    if hdus.len() == 0 {
        0
    } else {
        held_blocks(hdus.drop_last()) + hdus.last().header.blocks.len() + hdus.last().data.blocks().len()
    }
}

/// `hdus` is what scanning makes of the buffer.
pub open spec fn is_scan_of(buffer: Seq<u8>, hdus: Seq<HduView>) -> bool {
    scanned(buffer) matches Ok(extents) && hdus == raw_hdus(buffer, extents)
}

/// The units made of extents hold as many blocks as the extents take.
pub proof fn lemma_held_blocks(buffer: Seq<u8>, extents: Seq<Extent>)
    ensures
        held_blocks(raw_hdus(buffer, extents)) == total_blocks(extents),
    decreases extents.len(),
{
    if extents.len() > 0 {
        lemma_held_blocks(buffer, extents.drop_last());
        assert(raw_hdus(buffer, extents).drop_last() =~= raw_hdus(buffer, extents.drop_last()));
    }
}

/// The units that scanning makes of a buffer hold, header and data blocks
/// together, exactly the blocks of the buffer.
pub proof fn lemma_blocks_conserved(buffer: Seq<u8>, hdus: Seq<HduView>)
    requires
        is_scan_of(buffer, hdus),
    ensures
        held_blocks(hdus) == buffer.len() / 2880,
{
    let n = buffer.len() / 2880;
    let extents = extents(buffer);
    lemma_held_blocks(buffer, extents);
    if n > 0 {
        lemma_scan_counts(buffer, n);
        assert(extents.drop_last() =~= scan(buffer, n).done);
    }
}

/// The units that scanning makes of a buffer lie one after the other and
/// cover the buffer from its first block to its last.
pub proof fn lemma_extents_tile(buffer: Seq<u8>)
    requires
        scanned(buffer) is Ok,
    ensures
        tiles(extents(buffer), 0, buffer.len() / 2880),
{
    let n = buffer.len() / 2880;
    if n > 0 {
        lemma_scan_shape(buffer, n);
        assert(extents(buffer).drop_last() =~= scan(buffer, n).done);
    }
}

/// Scanning the same buffer again gives the same units: what two scans
/// make of one buffer is equal.
pub proof fn lemma_rescan_same(buffer: Seq<u8>, first: Seq<HduView>, second: Seq<HduView>)
    requires
        is_scan_of(buffer, first),
        is_scan_of(buffer, second),
    ensures
        first == second,
{
}

/// Tells whether `s` begins with the 8 bytes of `mark`.
fn starts_with(s: &[u8], mark: &[u8; 8]) -> (r: bool)
    ensures
        r == begins_with(s@, mark@),
{
    if s.len() < 8 {
        return false;
    }
    let mut i: usize = 0;
    while i < 8
        invariant
            i <= 8,
            s@.len() >= 8,
            forall|k: int| 0 <= k < i ==> s@[k] == #[trigger] mark@[k],
        decreases 8 - i,
    {
        if s[i] != mark[i] {
            return false;
        }
        i += 1;
    }
    true
}

/// Tells whether the block begins a header.
pub fn check_header_beginning(chunk: &[u8; 2880]) -> (r: bool)
    ensures
        r == is_header_start(chunk@),
{
    let simple: [u8; 8] = [83, 73, 77, 80, 76, 69, 32, 32];
    let xtension: [u8; 8] = [88, 84, 69, 78, 83, 73, 79, 78];
    assert(simple@ =~= simple_mark());
    assert(xtension@ =~= xtension_mark());
    starts_with(chunk.as_slice(), &simple) || starts_with(chunk.as_slice(), &xtension)
}

/// Tells whether one of the block's 36 cards is the `END` card.
pub fn check_end(chunk: &[u8; 2880]) -> (r: bool)
    ensures
        r == has_end_card(chunk@),
{
    let end: [u8; 8] = [69, 78, 68, 32, 32, 32, 32, 32];
    assert(end@ =~= end_mark());
    let block = chunk.as_slice();
    let mut j: usize = 0;
    while j < CARDS_PER_BLOCK
        invariant
            j <= 36,
            block@ == chunk@,
            block@.len() == 2880,
            end@ == end_mark(),
            forall|k: int| 0 <= k < j ==> !is_end_card(chunk@, k),
        decreases 36 - j,
    {
        let card = vstd::slice::slice_subrange(block, j * CARD_SIZE, j * CARD_SIZE + CARD_SIZE);
        if starts_with(card, &end) {
            assert(is_end_card(chunk@, j as int));
            return true;
        }
        j += 1;
    }
    false
}

/// Block number `k` of the buffer.
fn block_of(buffer: &Vec<u8>, k: usize) -> (chunk: [u8; 2880])
    requires
        k * 2880 + 2880 <= buffer@.len(),
    ensures
        chunk@ == block_at(buffer@, k as int),
{
    let mut chunk: [u8; 2880] = [0u8; 2880];
    let len = buffer.len();
    let start = k * BLOCK_SIZE;
    let mut j: usize = 0;
    while j < BLOCK_SIZE
        invariant
            j <= 2880,
            len == buffer@.len(),
            start == k * 2880,
            start + 2880 <= buffer@.len(),
            chunk@.len() == 2880,
            forall|i: int| 0 <= i < j ==> chunk@[i] == buffer@[start + i],
        decreases 2880 - j,
    {
        chunk[j] = buffer[start + j];
        j += 1;
    }
    assert(chunk@ =~= block_at(buffer@, k as int));
    chunk
}

/// Cuts the buffer into blocks of 2880 bytes and groups them into units.
/// Each unit gets its header blocks, unparsed, and its data blocks,
/// unclassified. A buffer without blocks gives no unit.
pub fn bytes_to_hdu(buffer: &Vec<u8>) -> (r: Result<Vec<HDU>, FitsError>)
    ensures
        match r {
            Ok(hdus) => is_scan_of(buffer@, hdu_views(hdus@)) && held_blocks(hdu_views(hdus@))
                == buffer@.len() / 2880,
            Err(e) => scanned(buffer@) == Err::<Seq<Extent>, FitsError>(e),
        },
{
    let len = buffer.len();
    if len % BLOCK_SIZE != 0 {
        return Err(FitsError::BadLength);
    }
    let n_chunks = len / BLOCK_SIZE;
    let mut hdus: Vec<HDU> = Vec::new();
    if n_chunks == 0 {
        assert(hdu_views(hdus@) =~= raw_hdus(buffer@, extents(buffer@)));
        proof {
            lemma_blocks_conserved(buffer@, hdu_views(hdus@));
        }
        return Ok(hdus);
    }
    let first = block_of(buffer, 0);
    if !check_header_beginning(&first) {
        return Err(FitsError::MissingHeaderStart);
    }
    let mut read_header = false;
    let mut current_hdu = HDU { header: Header::new(), data: Data::new() };
    let mut i: usize = 0;
    assert(hdu_views(hdus@) =~= raw_hdus(buffer@, scan(buffer@, 0).done));
    assert(current_hdu@.header.blocks =~= raw_hdu(buffer@, scan(buffer@, 0).current).header.blocks);
    assert(current_hdu@.data.blocks() =~= raw_hdu(buffer@, scan(buffer@, 0).current).data.blocks());
    while i < n_chunks
        invariant
            i <= n_chunks,
            len == buffer@.len(),
            n_chunks == len / 2880,
            len % 2880 == 0,
            is_header_start(block_at(buffer@, 0)),
            hdu_views(hdus@) == raw_hdus(buffer@, scan(buffer@, i as nat).done),
            current_hdu@ == raw_hdu(buffer@, scan(buffer@, i as nat).current),
            read_header == scan(buffer@, i as nat).reading,
        decreases n_chunks - i,
    {
        let ghost prev = scan(buffer@, i as nat);
        let ghost next = scan(buffer@, (i + 1) as nat);
        proof {
            if i >= 1 {
                lemma_scan_shape(buffer@, i as nat);
            }
            lemma_scan_shape(buffer@, (i + 1) as nat);
        }
        let chunk = block_of(buffer, i);
        if check_header_beginning(&chunk) {
            read_header = true;
            if !current_hdu.header.is_empty() {
                let ghost done = hdus@;
                let ghost closed = current_hdu@;
                hdus.push(current_hdu);
                current_hdu = HDU { header: Header::new(), data: Data::new() };
                assert(hdu_views(hdus@) =~= hdu_views(done).push(closed));
                assert(hdu_views(hdus@) =~= raw_hdus(buffer@, next.done));
            }
        }
        if read_header {
            current_hdu.header.append(chunk);
            if check_end(&chunk) {
                read_header = false;
            }
            assert(current_hdu@.header.blocks =~= raw_hdu(buffer@, next.current).header.blocks);
            assert(current_hdu@.data.blocks() =~= raw_hdu(buffer@, next.current).data.blocks());
        } else {
            current_hdu.data.append(chunk);
            assert(current_hdu@.header.blocks =~= raw_hdu(buffer@, next.current).header.blocks);
            assert(current_hdu@.data.blocks() =~= raw_hdu(buffer@, next.current).data.blocks());
        }
        i += 1;
    }
    let ghost done = hdus@;
    let ghost last = current_hdu@;
    hdus.push(current_hdu);
    assert(hdu_views(hdus@) =~= hdu_views(done).push(last));
    assert(hdu_views(hdus@) =~= raw_hdus(buffer@, extents(buffer@)));
    proof {
        lemma_blocks_conserved(buffer@, hdu_views(hdus@));
    }
    Ok(hdus)
}

} // verus!
