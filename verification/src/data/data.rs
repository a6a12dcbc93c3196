//! The payload of a unit in its variants, and the element of an array.

use vstd::prelude::*;
use crate::block::block_views;
use crate::data::array::{array_from_cards, ArrayData, ArrayDataView};
use crate::data::tables::{
    ascii_table_from_cards, binary_table_from_cards, ASCIITable, ASCIITableView, BinaryTable,
    BinaryTableView,
};
use crate::error::FitsError;
use crate::header::{Header, HeaderType, HeaderView};
use crate::ieee::{
    clamped, double_to_integer, double_truncated, residue, single_to_integer, single_truncated, wrap,
    wrapped,
};

verus! {

/// One array element, in the precision that `BITPIX` selects. A
/// floating-point element is held as the bits of its IEEE 754 encoding.
#[derive(Debug, Clone, Copy, PartialEq, Eq, Structural)]
pub enum Precision {
    U8(u8),
    I16(i16),
    I32(i32),
    I64(i64),
    /// The bits of an IEEE 754 single.
    F32(u32),
    /// The bits of an IEEE 754 double.
    F64(u64),
}

impl Precision {
    /// The integer of an element that holds one.
    pub open spec fn integer(self) -> Option<int> {
        match self {
            Precision::U8(v) => Some(v as int),
            Precision::I16(v) => Some(v as int),
            Precision::I32(v) => Some(v as int),
            Precision::I64(v) => Some(v as int),
            Precision::F32(_) => None,
            Precision::F64(_) => None,
        }
    }

    /// The floating-point number of an element that holds one, with its
    /// fraction cut off and limited to the range from `lo` to `hi`.
    pub open spec fn limited(self, lo: int, hi: int) -> int {
        match self {
            Precision::F32(bits) => clamped(single_truncated(bits), lo, hi),
            Precision::F64(bits) => clamped(double_truncated(bits), lo, hi),
            _ => 0,
        }
    }

    /// The element as a byte: an integer is reduced modulo 256, a
    /// floating-point number loses its fraction and is limited to the range
    /// of a byte.
    pub open spec fn spec_to_u8(self) -> int {
        match self.integer() {
            Some(v) => v % 0x100,
            None => self.limited(0, 0xff),
        }
    }

    /// The element as a signed 16-bit number: an integer wraps around, a
    /// floating-point number loses its fraction and is limited to the range.
    pub open spec fn spec_to_i16(self) -> int {
        match self.integer() {
            Some(v) => wrapped(v, 0x1_0000),
            None => self.limited(-0x8000, 0x7fff),
        }
    }

    /// The element as a signed 32-bit number.
    pub open spec fn spec_to_i32(self) -> int {
        match self.integer() {
            Some(v) => wrapped(v, 0x1_0000_0000),
            None => self.limited(-0x8000_0000, 0x7fff_ffff),
        }
    }

    /// The element as a signed 64-bit number, which holds every integer
    /// element as it is.
    pub open spec fn spec_to_i64(self) -> int {
        match self.integer() {
            Some(v) => v,
            None => self.limited(-0x8000_0000_0000_0000, 0x7fff_ffff_ffff_ffff),
        }
    }

    /// The integer element widened to 64 bits.
    fn widened(&self) -> (r: Option<i64>)
        ensures
            match r {
                Some(v) => self.integer() == Some(v as int),
                None => self.integer() is None,
            },
    {
        match self {
            Precision::U8(v) => Some(*v as i64),
            Precision::I16(v) => Some(*v as i64),
            Precision::I32(v) => Some(*v as i64),
            Precision::I64(v) => Some(*v),
            _ => None,
        }
    }

    /// The floating-point element converted to an integer of the range.
    fn limit(&self, lo: i128, hi: i128) -> (r: i128)
        requires
            self.integer() is None,
        ensures
            r == self.limited(lo as int, hi as int),
    {
        match self {
            Precision::F32(bits) => single_to_integer(*bits, lo, hi),
            Precision::F64(bits) => double_to_integer(*bits, lo, hi),
            _ => 0,
        }
    }

    /// Converts the element to a byte.
    pub fn to_u8(&self) -> (r: u8)
        ensures
            r == self.spec_to_u8(),
    {
        match self.widened() {
            Some(v) => residue(v, 0x100) as u8,
            None => self.limit(0, 0xff) as u8,
        }
    }

    /// Converts the element to a signed 16-bit number.
    pub fn to_i16(&self) -> (r: i16)
        ensures
            r == self.spec_to_i16(),
    {
        match self.widened() {
            Some(v) => wrap(v, 0x1_0000) as i16,
            None => self.limit(-0x8000, 0x7fff) as i16,
        }
    }

    /// Converts the element to a signed 32-bit number.
    pub fn to_i32(&self) -> (r: i32)
        ensures
            r == self.spec_to_i32(),
    {
        match self.widened() {
            Some(v) => wrap(v, 0x1_0000_0000) as i32,
            None => self.limit(-0x8000_0000, 0x7fff_ffff) as i32,
        }
    }

    /// Converts the element to a signed 64-bit number.
    pub fn to_i64(&self) -> (r: i64)
        ensures
            r == self.spec_to_i64(),
    {
        match self.widened() {
            Some(v) => v,
            None => self.limit(-0x8000_0000_0000_0000, 0x7fff_ffff_ffff_ffff) as i64,
        }
    }
}

/// The payload of a unit whose header is not yet classified: raw blocks.
#[derive(Debug, Clone, PartialEq)]
pub struct Empty {
    pub fitsblocks: Vec<[u8; 2880]>,
}

impl View for Empty {
    type V = Seq<Seq<u8>>;

    open spec fn view(&self) -> Seq<Seq<u8>> {
        block_views(self.fitsblocks@)
    }
}

/// What a payload holds.
pub enum DataView {
    Empty(Seq<Seq<u8>>),
    Array(ArrayDataView),
    ASCIITable(ASCIITableView),
    BinaryTable(BinaryTableView),
}

impl DataView {
    /// The raw data blocks.
    pub open spec fn blocks(self) -> Seq<Seq<u8>> {
        match self {
            DataView::Empty(blocks) => blocks,
            DataView::Array(a) => a.blocks,
            DataView::ASCIITable(t) => t.blocks,
            DataView::BinaryTable(t) => t.blocks,
        }
    }

    /// The same payload with one more raw block.
    pub open spec fn with_block(self, block: Seq<u8>) -> DataView {
        match self {
            DataView::Empty(blocks) => DataView::Empty(blocks.push(block)),
            DataView::Array(a) => DataView::Array(
                ArrayDataView { blocks: a.blocks.push(block), ..a },
            ),
            DataView::ASCIITable(t) => DataView::ASCIITable(
                ASCIITableView { blocks: t.blocks.push(block), ..t },
            ),
            DataView::BinaryTable(t) => DataView::BinaryTable(
                BinaryTableView { blocks: t.blocks.push(block), ..t },
            ),
        }
    }
}

/// The payload of a header/data unit.
#[derive(Debug, Clone, PartialEq)]
pub enum Data {
    Empty(Empty),
    Array(ArrayData),
    ASCIITable(ASCIITable),
    BinaryTable(BinaryTable),
}

impl View for Data {
    type V = DataView;

    open spec fn view(&self) -> DataView {
        match self {
            Data::Empty(e) => DataView::Empty(e@),
            Data::Array(a) => DataView::Array(a@),
            Data::ASCIITable(t) => DataView::ASCIITable(t@),
            Data::BinaryTable(t) => DataView::BinaryTable(t@),
        }
    }
}

/// The payload that a parsed header describes, over the given blocks: an
/// array for a primary or image unit, with no parameters and one group, or
/// a table of the header's kind.
pub open spec fn data_from_header(blocks: Seq<Seq<u8>>, header: HeaderView) -> Result<
    DataView,
    FitsError,
> {
    if !header.initialized {
        Err(FitsError::HeaderNotInitialized)
    } else {
        match header.kind {
            HeaderType::Primary | HeaderType::Image => match array_from_cards(
                blocks,
                header.cards,
                Some(0usize),
                Some(1usize),
            ) {
                Ok(a) => Ok(DataView::Array(a)),
                Err(e) => Err(e),
            },
            HeaderType::ASCIITable => match ascii_table_from_cards(blocks, header.cards) {
                Ok(t) => Ok(DataView::ASCIITable(t)),
                Err(e) => Err(e),
            },
            HeaderType::BinaryTable => match binary_table_from_cards(blocks, header.cards) {
                Ok(t) => Ok(DataView::BinaryTable(t)),
                Err(e) => Err(e),
            },
        }
    }
}

impl Data {
    /// A payload without blocks, not yet classified.
    pub fn new() -> (d: Data)
        ensures
            d@ == DataView::Empty(Seq::empty()),
    {
        let d = Data::Empty(Empty { fitsblocks: Vec::new() });
        assert(d@.blocks() =~= Seq::<Seq<u8>>::empty());
        d
    }

    /// Appends a raw block.
    pub fn append(&mut self, chunk: [u8; 2880])
        ensures
            final(self)@ == old(self)@.with_block(chunk@),
    {
        match self {
            Data::Empty(empty) => {
                empty.fitsblocks.push(chunk);
                assert(empty@ =~= old(self)@.blocks().push(chunk@));
            },
            Data::Array(array) => array.append(chunk),
            Data::ASCIITable(table) => table.append(chunk),
            Data::BinaryTable(table) => table.append(chunk),
        }
    }

    /// The payload that the header describes, over the given blocks.
    pub fn from_header(fitsblocks: &Vec<[u8; 2880]>, header: &Header) -> (r: Result<
        Data,
        FitsError,
    >)
        ensures
            match r {
                Ok(d) => data_from_header(block_views(fitsblocks@), header@) == Ok::<
                    DataView,
                    FitsError,
                >(d@),
                Err(e) => data_from_header(block_views(fitsblocks@), header@) == Err::<
                    DataView,
                    FitsError,
                >(e),
            },
    {
        if !header.is_initialized() {
            return Err(FitsError::HeaderNotInitialized);
        }
        match header.get_header_type() {
            HeaderType::Primary | HeaderType::Image => match ArrayData::new(
                fitsblocks,
                header,
                Some(0),
                Some(1),
            ) {
                Ok(a) => Ok(Data::Array(a)),
                Err(e) => Err(e),
            },
            HeaderType::ASCIITable => match ASCIITable::new(fitsblocks, header) {
                Ok(t) => Ok(Data::ASCIITable(t)),
                Err(e) => Err(e),
            },
            HeaderType::BinaryTable => match BinaryTable::new(fitsblocks, header) {
                Ok(t) => Ok(Data::BinaryTable(t)),
                Err(e) => Err(e),
            },
        }
    }

    /// The raw blocks.
    pub fn get_fitsblocks(&self) -> (blocks: &Vec<[u8; 2880]>)
        ensures
            block_views(blocks@) == self@.blocks(),
    {
        match self {
            Data::Empty(empty) => &empty.fitsblocks,
            Data::Array(array) => array.get_fitsblocks(),
            Data::ASCIITable(table) => table.get_fitsblocks(),
            Data::BinaryTable(table) => table.get_fitsblocks(),
        }
    }
}

} // verus!
