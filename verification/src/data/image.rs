//! The payload of an image extension.

use vstd::prelude::*;
use crate::block::block_views;
use crate::data::array::{
    array_from_cards, formatted, grid_items, grid_shape, payload_bits, ArrayData, ArrayDataView,
    Grid,
};
use crate::data::data::Precision;
use crate::error::FitsError;
use crate::header::Header;

verus! {

/// The payload of an image extension: an array without parameters, in one
/// group.
#[derive(Debug, Clone, PartialEq)]
pub struct Image {
    array: ArrayData,
}

impl View for Image {
    type V = ArrayDataView;

    closed spec fn view(&self) -> ArrayDataView {
        self.array@
    }
}

impl Image {
    /// The image that the header describes, over the given blocks.
    pub fn new(fitsblocks: &Vec<[u8; 2880]>, header: &Header) -> (r: Result<Image, FitsError>)
        ensures
            match r {
                Ok(image) => array_from_cards(
                    block_views(fitsblocks@),
                    header@.cards,
                    None,
                    None,
                ) == Ok::<ArrayDataView, FitsError>(image@),
                Err(e) => array_from_cards(block_views(fitsblocks@), header@.cards, None, None)
                    == Err::<ArrayDataView, FitsError>(e),
            },
    {
        match ArrayData::new(fitsblocks, header, None, None) {
            Ok(array) => Ok(Image { array }),
            Err(e) => Err(e),
        }
    }

    /// The image as an array payload.
    pub fn as_array(&self) -> (array: &ArrayData)
        ensures
            array@ == self@,
    {
        &self.array
    }

    /// The number of bits of the payload, if it fits a `usize`.
    pub fn checked_n_bits(&self) -> (r: Option<usize>)
        ensures
            match r {
                Some(bits) => bits == payload_bits(
                    self@.bitpix,
                    self@.gcount as nat,
                    self@.pcount as nat,
                    self@.naxisn,
                ),
                None => payload_bits(
                    self@.bitpix,
                    self@.gcount as nat,
                    self@.pcount as nat,
                    self@.naxisn,
                ) > usize::MAX,
            },
    {
        self.array.checked_n_bits()
    }

    /// The number of bits of the payload:
    /// `|bitpix| * gcount * (pcount + product(naxisn))`.
    pub fn n_bits(&self) -> (bits: usize)
        requires
            payload_bits(self@.bitpix, self@.gcount as nat, self@.pcount as nat, self@.naxisn)
                <= usize::MAX,
        ensures
            bits == payload_bits(
                self@.bitpix,
                self@.gcount as nat,
                self@.pcount as nat,
                self@.naxisn,
            ),
    {
        self.array.n_bits()
    }

    /// Decodes the data bytes in the precision of `bitpix` and arranges the
    /// elements in the shape of the axes, outermost axis first.
    pub fn format_data(&self) -> (r: Result<Grid, FitsError>)
        ensures
            match r {
                Ok(grid) => formatted(self@) == Ok::<Seq<Precision>, FitsError>(grid_items(grid))
                    && grid_shape(grid) == self@.naxisn,
                Err(e) => formatted(self@) == Err::<Seq<Precision>, FitsError>(e),
            },
    {
        self.array.format_data()
    }
}

} // verus!
