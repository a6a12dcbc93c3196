//! The payload of a primary unit, whose last data block may be filled up
//! beyond the elements of the array.

use vstd::prelude::*;
use crate::block::{block_views, flat_bytes, flatten_blocks};
use crate::data::array::{
    array_from_cards, bit_depth, checked_product, decode, decoded, grid_items, grid_shape,
    nonzero_product, payload_bits, product, shape_fits, ArrayData, ArrayDataView, Grid,
};
use crate::data::data::Precision;
use crate::error::FitsError;
use crate::header::Header;

verus! {

/// The payload of a primary unit: an array without parameters, in one
/// group.
#[derive(Debug, Clone, PartialEq)]
pub struct Primary {
    array: ArrayData,
}

impl View for Primary {
    type V = ArrayDataView;

    closed spec fn view(&self) -> ArrayDataView {
        self.array@
    }
}

/// The number of elements that the keywords describe, counted by their
/// bits: `|bitpix| * product(naxisn) / 8 / (|bitpix| / 8)`. For a precision
/// of whole bytes this is the product of the axes.
pub open spec fn element_count(bitpix: i8, naxisn: Seq<usize>) -> nat {
    (bit_depth(bitpix) * product(naxisn) / 8 / (bit_depth(bitpix) / 8)) as nat
}

/// The elements of a primary array: the data bytes decoded in the precision
/// of `bitpix`, as many as the axes describe, leaving out what fills up the
/// last block.
pub open spec fn primary_formatted(a: ArrayDataView) -> Result<Seq<Precision>, FitsError> {
    match decoded(flat_bytes(a.blocks), a.bitpix) {
        Err(e) => Err(e),
        Ok(items) => if product(a.naxisn) <= items.len() && nonzero_product(a.naxisn)
            <= isize::MAX {
            Ok(items.take(product(a.naxisn) as int))
        } else {
            Err(FitsError::ShapeMismatch)
        },
    }
}

/// For a precision of whole bytes, the elements counted by their bits are
/// the product of the axes.
pub proof fn lemma_element_count(bitpix: i8, naxisn: Seq<usize>)
    requires
        bit_depth(bitpix) == 8 || bit_depth(bitpix) == 16 || bit_depth(bitpix) == 32 || bit_depth(
            bitpix,
        ) == 64,
    ensures
        element_count(bitpix, naxisn) == product(naxisn),
{
    let d = bit_depth(bitpix);
    let p = product(naxisn);
    let k = d / 8;
    assert(d == 8 * k);
    assert(d * p == 8 * (k * p)) by (nonlinear_arith)
        requires
            d == 8 * k,
    ;
    assert((8 * (k * p)) / 8 == k * p);
    assert((k * p) / k == p) by (nonlinear_arith)
        requires
            k > 0,
            p >= 0,
    ;
}

impl Primary {
    /// The primary array that the header describes, over the given blocks.
    pub fn new(fitsblocks: &Vec<[u8; 2880]>, header: &Header) -> (r: Result<Primary, FitsError>)
        ensures
            match r {
                Ok(primary) => array_from_cards(
                    block_views(fitsblocks@),
                    header@.cards,
                    None,
                    None,
                ) == Ok::<ArrayDataView, FitsError>(primary@),
                Err(e) => array_from_cards(block_views(fitsblocks@), header@.cards, None, None)
                    == Err::<ArrayDataView, FitsError>(e),
            },
    {
        match ArrayData::new(fitsblocks, header, None, None) {
            Ok(array) => Ok(Primary { array }),
            Err(e) => Err(e),
        }
    }

    /// The primary array as an array payload.
    pub fn as_array(&self) -> (array: &ArrayData)
        ensures
            array@ == self@,
    {
        &self.array
    }

    /// The number of bits of the payload, if it fits a `usize`.
    pub fn checked_n_bits(&self) -> (r: Option<usize>)
        ensures
            match r {
                Some(bits) => bits == payload_bits(
                    self@.bitpix,
                    self@.gcount as nat,
                    self@.pcount as nat,
                    self@.naxisn,
                ),
                None => payload_bits(
                    self@.bitpix,
                    self@.gcount as nat,
                    self@.pcount as nat,
                    self@.naxisn,
                ) > usize::MAX,
            },
    {
        self.array.checked_n_bits()
    }

    /// The number of bits of the payload:
    /// `|bitpix| * gcount * (pcount + product(naxisn))`.
    pub fn n_bits(&self) -> (bits: usize)
        requires
            payload_bits(self@.bitpix, self@.gcount as nat, self@.pcount as nat, self@.naxisn)
                <= usize::MAX,
        ensures
            bits == payload_bits(
                self@.bitpix,
                self@.gcount as nat,
                self@.pcount as nat,
                self@.naxisn,
            ),
    {
        self.array.n_bits()
    }

    /// The number of elements that the keywords describe, if the precision
    /// has at least 8 bits and the number of the elements' bits fits a
    /// `usize`.
    pub fn checked_n_bytes(&self) -> (r: Option<usize>)
        ensures
            match r {
                Some(n) => bit_depth(self@.bitpix) >= 8 && bit_depth(self@.bitpix) * product(
                    self@.naxisn,
                ) <= usize::MAX && n == element_count(self@.bitpix, self@.naxisn),
                None => bit_depth(self@.bitpix) < 8 || bit_depth(self@.bitpix) * product(
                    self@.naxisn,
                ) > usize::MAX,
            },
    {
        let bitpix = self.array.bitpix();
        let depth: usize = if bitpix < 0 {
            (-(bitpix as i16)) as usize
        } else {
            bitpix as usize
        };
        if depth < 8 {
            return None;
        }
        let elements = match checked_product(self.array.naxisn()) {
            Some(p) => p,
            None => {
                assert(depth * product(self@.naxisn) > usize::MAX) by (nonlinear_arith)
                    requires
                        depth >= 8,
                        product(self@.naxisn) > usize::MAX,
                ;
                return None;
            },
        };
        match depth.checked_mul(elements) {
            Some(bits) => Some(bits / 8 / (depth / 8)),
            None => None,
        }
    }

    /// The number of elements that the keywords describe:
    /// `|bitpix| * product(naxisn) / 8 / (|bitpix| / 8)`.
    pub fn n_bytes(&self) -> (n: usize)
        requires
            bit_depth(self@.bitpix) >= 8,
            bit_depth(self@.bitpix) * product(self@.naxisn) <= usize::MAX,
        ensures
            n == element_count(self@.bitpix, self@.naxisn),
    {
        match self.checked_n_bytes() {
            Some(n) => n,
            None => 0,
        }
    }

    /// Decodes the data bytes in the precision of `bitpix`, takes as many
    /// elements as the axes describe and arranges them in the shape of the
    /// axes, outermost axis first.
    pub fn format_data(&self) -> (r: Result<Grid, FitsError>)
        ensures
            match r {
                Ok(grid) => primary_formatted(self@) == Ok::<Seq<Precision>, FitsError>(
                    grid_items(grid),
                ) && grid_shape(grid) == self@.naxisn,
                Err(e) => primary_formatted(self@) == Err::<Seq<Precision>, FitsError>(e),
            },
    {
        let flat = flatten_blocks(self.array.get_fitsblocks());
        let mut items = match decode(flat.as_slice(), self.array.bitpix()) {
            Ok(items) => items,
            Err(e) => {
                return Err(e);
            },
        };
        let held = items.len();
        let count = match checked_product(self.array.naxisn()) {
            Some(count) => count,
            None => {
                return Err(FitsError::ShapeMismatch);
            },
        };
        if count > held {
            return Err(FitsError::ShapeMismatch);
        }
        let ghost all = items@;
        items.truncate(count);
        assert(items@ =~= all.take(count as int));
        let shape = self.array.naxisn().clone();
        assert(shape@ =~= self@.naxisn);
        assert(shape_fits(shape@, items@.len()) == (nonzero_product(self@.naxisn) <= isize::MAX));
        Grid::new(shape, items)
    }
}

} // verus!
