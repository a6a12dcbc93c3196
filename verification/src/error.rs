//! The ways in which a buffer can fail to be a readable FITS file.

use vstd::prelude::*;

verus! {

/// A structural expectation that the input did not meet.
#[derive(Debug, Clone, Copy, PartialEq, Eq, Structural)]
pub enum FitsError {
    /// The buffer's length is not a multiple of the block size.
    BadLength,
    /// The first block does not begin a header.
    MissingHeaderStart,
    /// A header block holds a byte outside ASCII.
    NonAsciiHeader,
    /// The header has neither a `SIMPLE` nor an `XTENSION` card.
    UnclassifiedHeader,
    /// `XTENSION` names an extension other than `IMAGE`, `TABLE` or `BINTABLE`.
    UnknownExtension,
    /// The header's type was asked for before its cards were parsed.
    HeaderNotInitialized,
    /// A keyword that the unit's kind requires is absent.
    MissingKeyword,
    /// A required keyword's value is not a number of the expected range.
    BadKeywordValue,
    /// `BITPIX` is none of 8, 16, 32, 64, -32, -64.
    UnsupportedBitpix,
    /// The payload's length is not a multiple of the element width.
    TruncatedData,
    /// The axes do not describe exactly the elements that were decoded.
    ShapeMismatch,
    /// A table is described by fewer than two axes.
    MissingAxis,
    /// A table row or one of its columns does not lie within the data.
    OutOfBounds,
    /// An ASCII table field is not ASCII text, or not a number where one is expected.
    BadField,
    /// A binary table column format is not a repeat count followed by a type code.
    BadFormat,
    /// A binary table column has a type code that is not known.
    UnknownTypeCode,
}

} // verus!
