//! Array payloads: the elements that `BITPIX` selects, in the shape that
//! the `NAXISn` keywords give.

use vstd::prelude::*;
use crate::bigendian::{be_value, read_i16, read_i32, read_i64, read_u32, read_u64, twos_complement};
use crate::block::{block_views, copy_blocks, flat_bytes, flatten_blocks};
use crate::data::data::Precision;
use crate::error::FitsError;
use crate::header::{
    indexed_ints, lemma_indexed_ints_len, read_indexed_ints, read_int, required_int, CardText,
    Header,
};

verus! {

/// What an array payload shows.
#[derive(Debug, Clone, Copy, PartialEq, Eq)]
pub enum ArrayType {
    Primary,
    Image,
    Spectrum,
    Cube,
}

/// The number of bytes of one element, for the values of `BITPIX` that are
/// supported.
pub open spec fn element_width(bitpix: i8) -> Option<nat> {
    if bitpix == 8 {
        Some(1)
    } else if bitpix == 16 {
        Some(2)
    } else if bitpix == 32 || bitpix == -32 {
        Some(4)
    } else if bitpix == 64 || bitpix == -64 {
        Some(8)
    } else {
        None
    }
}

/// The element that the bytes of `chunk` encode, most significant byte first.
pub open spec fn element_of(chunk: Seq<u8>, bitpix: i8) -> Precision {
    if bitpix == 8 {
        Precision::U8(chunk[0])
    } else if bitpix == 16 {
        Precision::I16(twos_complement(be_value(chunk), 0x1_0000) as i16)
    } else if bitpix == 32 {
        Precision::I32(twos_complement(be_value(chunk), 0x1_0000_0000) as i32)
    } else if bitpix == 64 {
        Precision::I64(twos_complement(be_value(chunk), 0x1_0000_0000_0000_0000) as i64)
    } else if bitpix == -32 {
        Precision::F32(be_value(chunk) as u32)
    } else {
        Precision::F64(be_value(chunk) as u64)
    }
}

/// The elements that `bytes` encode: one for each run of as many bytes as
/// an element is wide.
pub open spec fn decoded(bytes: Seq<u8>, bitpix: i8) -> Result<Seq<Precision>, FitsError> {
    match element_width(bitpix) {
        None => Err(FitsError::UnsupportedBitpix),
        Some(w) => if bytes.len() % w != 0 {
            Err(FitsError::TruncatedData)
        } else {
            Ok(
                Seq::new(
                    bytes.len() / w,
                    |i: int| element_of(bytes.subrange(i * w, i * w + w), bitpix),
                ),
            )
        },
    }
}

/// Decodes the elements that `bytes` encode in the precision of `bitpix`.
pub fn decode(bytes: &[u8], bitpix: i8) -> (r: Result<Vec<Precision>, FitsError>)
    ensures
        match r {
            Ok(items) => decoded(bytes@, bitpix) == Ok::<Seq<Precision>, FitsError>(items@),
            Err(e) => decoded(bytes@, bitpix) == Err::<Seq<Precision>, FitsError>(e),
        },
{
    let w: usize = if bitpix == 8 {
        1
    } else if bitpix == 16 {
        2
    } else if bitpix == 32 || bitpix == -32 {
        4
    } else if bitpix == 64 || bitpix == -64 {
        8
    } else {
        return Err(FitsError::UnsupportedBitpix);
    };
    if bytes.len() % w != 0 {
        return Err(FitsError::TruncatedData);
    }
    let len = bytes.len();
    let n = len / w;
    let mut items: Vec<Precision> = Vec::new();
    let mut i: usize = 0;
    while i < n
        invariant
            i <= n,
            len == bytes@.len(),
            w == 1 || w == 2 || w == 4 || w == 8,
            element_width(bitpix) == Some(w as nat),
            n == bytes@.len() / (w as nat),
            bytes@.len() % (w as nat) == 0,
            items@.len() == i,
            forall|k: int|
                0 <= k < i ==> #[trigger] items@[k] == element_of(
                    bytes@.subrange(k * w, k * w + w),
                    bitpix,
                ),
        decreases n - i,
    {
        assert(0 <= i * w && i * w + w <= bytes@.len()) by (nonlinear_arith)
            requires
                i < n,
                n == bytes@.len() / (w as nat),
                bytes@.len() % (w as nat) == 0,
                w > 0,
        ;
        let chunk = vstd::slice::slice_subrange(bytes, i * w, i * w + w);
        assert(chunk@.take(w as int) =~= chunk@);
        let item = if bitpix == 8 {
            Precision::U8(chunk[0])
        } else if bitpix == 16 {
            Precision::I16(read_i16(chunk))
        } else if bitpix == 32 {
            Precision::I32(read_i32(chunk))
        } else if bitpix == 64 {
            Precision::I64(read_i64(chunk))
        } else if bitpix == -32 {
            Precision::F32(read_u32(chunk))
        } else {
            Precision::F64(read_u64(chunk))
        };
        items.push(item);
        i += 1;
    }
    assert(items@ =~= decoded(bytes@, bitpix)->Ok_0);
    Ok(items)
}

/// The two bytes that encode `v` in two's complement, most significant
/// first.
pub open spec fn encoded_i16(v: i16) -> Seq<u8> {
    let u = if v < 0 {
        v + 0x1_0000
    } else {
        v as int
    };
    seq![(u / 256) as u8, (u % 256) as u8]
}

/// The bytes that encode the values, two for each, in order.
pub open spec fn encoded_i16s(values: Seq<i16>) -> Seq<u8> {
    Seq::new(2 * values.len(), |k: int| encoded_i16(values[k / 2])[k % 2])
}

/// Decoding with `BITPIX` 16 gives back the values that the bytes encode:
/// `2 * N` bytes that encode `N` signed 16-bit values, most significant
/// byte first, decode to exactly these values.
pub proof fn lemma_decode_inverts_encoding(values: Seq<i16>)
    ensures
        decoded(encoded_i16s(values), 16) == Ok::<Seq<Precision>, FitsError>(
            Seq::new(values.len(), |i: int| Precision::I16(values[i])),
        ),
{
    let bytes = encoded_i16s(values);
    let items = decoded(bytes, 16)->Ok_0;
    let expected = Seq::new(values.len(), |i: int| Precision::I16(values[i]));
    assert(bytes.len() == 2 * values.len());
    assert(element_width(16i8) == Some(2nat));
    assert(bytes.len() % 2 == 0);
    assert(bytes.len() / 2 == values.len());
    assert(decoded(bytes, 16) is Ok);
    assert(items.len() == values.len());
    assert forall|i: int| 0 <= i < values.len() implies items[i] == expected[i] by {
        let chunk = bytes.subrange(i * 2, i * 2 + 2);
        assert(items[i] == element_of(chunk, 16));
        let pair = encoded_i16(values[i]);
        assert(chunk[0] == bytes[2 * i]);
        assert(chunk[1] == bytes[2 * i + 1]);
        assert((2 * i) / 2 == i && (2 * i) % 2 == 0);
        assert((2 * i + 1) / 2 == i && (2 * i + 1) % 2 == 1);
        assert(chunk[0] == pair[0] && chunk[1] == pair[1]);
        reveal_with_fuel(be_value, 3);
        assert(chunk.drop_last().last() == chunk[0]);
        assert(chunk.last() == chunk[1]);
        assert(be_value(chunk) == chunk[0] * 256 + chunk[1]);
    }
    assert(items =~= expected);
}

/// The number of elements that a shape describes: the product of its axes.
pub open spec fn product(shape: Seq<usize>) -> nat
    decreases shape.len(),
{
    if shape.len() == 0 {
        1
    } else {
        product(shape.drop_last()) * shape.last() as nat
    }
}

/// The product of the axes that are not zero.
pub open spec fn nonzero_product(shape: Seq<usize>) -> nat
    decreases shape.len(),
{
    if shape.len() == 0 {
        1
    } else if shape.last() == 0 {
        nonzero_product(shape.drop_last())
    } else {
        nonzero_product(shape.drop_last()) * shape.last() as nat
    }
}

/// `n` elements fill the shape, and the shape can be addressed.
pub open spec fn shape_fits(shape: Seq<usize>, n: nat) -> bool {
    nonzero_product(shape) <= isize::MAX && product(shape) == n
}

/// The index names an element of the shape.
pub open spec fn in_bounds(shape: Seq<usize>, index: Seq<usize>) -> bool {
    index.len() == shape.len() && forall|k: int|
        0 <= k < shape.len() ==> #[trigger] index[k] < shape[k]
}

/// The place of the element at `index` when the last axis varies fastest.
pub open spec fn row_major_offset(shape: Seq<usize>, index: Seq<usize>) -> nat
    decreases shape.len(),
{
    if shape.len() == 0 {
        0
    } else {
        row_major_offset(shape.drop_last(), index.drop_last()) * shape.last() as nat
            + index.last() as nat
    }
}

/// The element at `index`, if the index names one.
pub open spec fn item_at(shape: Seq<usize>, items: Seq<Precision>, index: Seq<usize>) -> Option<
    Precision,
> {
    if in_bounds(shape, index) {
        Some(items[row_major_offset(shape, index) as int])
    } else {
        None
    }
}

/// An index within the shape names one of the shape's elements.
pub proof fn lemma_offset_in_bounds(shape: Seq<usize>, index: Seq<usize>)
    requires
        in_bounds(shape, index),
    ensures
        row_major_offset(shape, index) < product(shape),
    decreases shape.len(),
{
    if shape.len() > 0 {
        let front = shape.drop_last();
        let at = index.drop_last();
        assert forall|k: int| 0 <= k < front.len() implies #[trigger] at[k] < front[k] by {
            assert(index[k] < shape[k]);
        }
        lemma_offset_in_bounds(front, at);
        let d = shape.last() as nat;
        let i = index.last() as nat;
        assert(index[shape.len() - 1] < shape[shape.len() - 1]);
        let off = row_major_offset(front, at);
        let total = product(front);
        assert(off * d + i < total * d) by (nonlinear_arith)
            requires
                off < total,
                i < d,
        ;
    }
}

/// `ndarray::ShapeError`, the error with which `ndarray` refuses a shape.
/// Nothing is said of what it holds.
#[verifier::external_type_specification]
#[verifier::external_body]
pub struct ExShapeError(ndarray::ShapeError);

/// An n-dimensional array of elements: an `ndarray::ArrayD`, of which the
/// verifier sees the shape and the items only by the names `grid_shape` and
/// `grid_items`.
#[verifier::external_body]
pub struct Grid {
    inner: ndarray::ArrayD<Precision>,
}

/// The lengths of the grid's axes, outermost first.
pub uninterp spec fn grid_shape(grid: Grid) -> Seq<usize>;

/// The grid's elements, the last axis varying fastest.
pub uninterp spec fn grid_items(grid: Grid) -> Seq<Precision>;

/// `ndarray::ArrayBase::from_shape_vec` with a shape given as a vector: it
/// succeeds exactly when the product of the axes that are not zero does not
/// exceed `isize::MAX` and the product of all axes is the number of items;
/// the array then has that shape and holds the items in their order, the
/// last axis varying fastest.
#[verifier::external_body]
fn from_shape_vec(shape: Vec<usize>, items: Vec<Precision>) -> (r: Result<
    Grid,
    ndarray::ShapeError,
>)
    ensures
        r is Ok <==> shape_fits(shape@, items@.len()),
        r matches Ok(grid) ==> grid_shape(grid) == shape@ && grid_items(grid) == items@,
{
    match ndarray::ArrayD::from_shape_vec(shape, items) {
        Ok(inner) => Ok(Grid { inner }),
        Err(e) => Err(e),
    }
}

/// `ndarray::ArrayBase::shape`: the lengths of the axes.
#[verifier::external_body]
fn shape_of(grid: &Grid) -> (shape: Vec<usize>)
    ensures
        shape@ == grid_shape(*grid),
{
    grid.inner.shape().to_vec()
}

/// `ndarray::ArrayBase::get` with an index given as a slice: the element at
/// the index, or nothing where the index has another number of axes than
/// the array or exceeds one of them.
#[verifier::external_body]
fn item_of(grid: &Grid, index: &[usize]) -> (item: Option<Precision>)
    ensures
        item == item_at(grid_shape(*grid), grid_items(*grid), index@),
{
    grid.inner.get(index).copied()
}

/// `ndarray::ArrayBase::iter`: the elements in the array's logical order,
/// the last axis varying fastest, here copied into a vector.
#[verifier::external_body]
fn items_of(grid: &Grid) -> (items: Vec<Precision>)
    ensures
        items@ == grid_items(*grid),
{
    grid.inner.iter().copied().collect()
}

impl Grid {
    /// Arranges the items in the shape, the last axis varying fastest.
    pub fn new(shape: Vec<usize>, items: Vec<Precision>) -> (r: Result<Grid, FitsError>)
        ensures
            match r {
                Ok(grid) => shape_fits(shape@, items@.len()) && grid_shape(grid) == shape@
                    && grid_items(grid) == items@,
                Err(e) => e == FitsError::ShapeMismatch && !shape_fits(shape@, items@.len()),
            },
    {
        match from_shape_vec(shape, items) {
            Ok(grid) => Ok(grid),
            Err(_) => Err(FitsError::ShapeMismatch),
        }
    }

    /// The lengths of the axes, outermost first.
    pub fn shape(&self) -> (shape: Vec<usize>)
        ensures
            shape@ == grid_shape(*self),
    {
        shape_of(self)
    }

    /// The elements, the last axis varying fastest.
    pub fn items(&self) -> (items: Vec<Precision>)
        ensures
            items@ == grid_items(*self),
    {
        items_of(self)
    }

    /// The element at `index`, if the index names one.
    pub fn get(&self, index: &[usize]) -> (item: Option<Precision>)
        ensures
            item == item_at(grid_shape(*self), grid_items(*self), index@),
    {
        item_of(self, index)
    }
}

/// What an array payload holds.
pub struct ArrayDataView {
    /// The raw data blocks.
    pub blocks: Seq<Seq<u8>>,
    /// The code of the elements' precision.
    pub bitpix: i8,
    /// The length of each axis, outermost first.
    pub naxisn: Seq<usize>,
    /// The number of parameters that precede each group.
    pub pcount: usize,
    /// The number of groups.
    pub gcount: usize,
}

impl ArrayDataView {
    /// The number of axes.
    pub open spec fn naxis(self) -> nat {
        self.naxisn.len()
    }
}

/// The integers as lengths.
pub open spec fn as_lengths(s: Seq<int>) -> Seq<usize> {
    Seq::new(s.len(), |i: int| s[i] as usize)
}

/// The precision code and the axis lengths that the cards give: `BITPIX`,
/// `NAXIS` and as many `NAXISn` as `NAXIS` says are required, no axis
/// longer than `hi`.
pub open spec fn shape_from_cards(cards: Seq<CardText>, hi: int) -> Result<
    (i8, Seq<usize>),
    FitsError,
> {
    match required_int(cards, "BITPIX"@, true, i8::MIN as int, i8::MAX as int) {
        Err(e) => Err(e),
        Ok(bitpix) => match required_int(cards, "NAXIS"@, false, 0, u8::MAX as int) {
            Err(e) => Err(e),
            Ok(naxis) => match indexed_ints(cards, "NAXIS"@, naxis as nat, hi) {
                Err(e) => Err(e),
                Ok(axes) => Ok((bitpix as i8, as_lengths(axes))),
            },
        },
    }
}

/// The array payload that the cards describe, over the given blocks;
/// `pcount` is 0 and `gcount` is 1 unless given.
pub open spec fn array_from_cards(
    blocks: Seq<Seq<u8>>,
    cards: Seq<CardText>,
    pcount: Option<usize>,
    gcount: Option<usize>,
) -> Result<ArrayDataView, FitsError> {
    match shape_from_cards(cards, usize::MAX as int) {
        Err(e) => Err(e),
        Ok(shape) => Ok(
            ArrayDataView {
                blocks,
                bitpix: shape.0,
                naxisn: shape.1,
                pcount: match pcount {
                    Some(p) => p,
                    None => 0,
                },
                gcount: match gcount {
                    Some(g) => g,
                    None => 1,
                },
            },
        ),
    }
}

/// The shape that the cards give has as many axes as `NAXIS` says, none
/// longer than `hi`.
pub proof fn lemma_shape_from_cards(cards: Seq<CardText>, hi: int)
    requires
        0 <= hi <= usize::MAX,
    ensures
        shape_from_cards(cards, hi) matches Ok(shape) ==> required_int(
            cards,
            "NAXIS"@,
            false,
            0,
            u8::MAX as int,
        ) == Ok::<int, FitsError>(shape.1.len() as int) && forall|i: int|
            0 <= i < shape.1.len() ==> #[trigger] shape.1[i] <= hi,
{
    if let Ok(naxis) = required_int(cards, "NAXIS"@, false, 0, u8::MAX as int) {
        lemma_indexed_ints_len(cards, "NAXIS"@, naxis as nat, hi);
    }
}

/// Reads the precision code and the axis lengths, none longer than `hi`.
pub fn read_shape(header: &Header, hi: usize) -> (r: Result<(i8, Vec<usize>), FitsError>)
    ensures
        match r {
            Ok(shape) => shape_from_cards(header@.cards, hi as int) == Ok::<
                (i8, Seq<usize>),
                FitsError,
            >((shape.0, shape.1@)),
            Err(e) => shape_from_cards(header@.cards, hi as int) == Err::<
                (i8, Seq<usize>),
                FitsError,
            >(e),
        },
{
    let bitpix = match read_int(header, "BITPIX", true, -128, 127) {
        Ok(v) => v as i8,
        Err(e) => {
            return Err(e);
        },
    };
    let naxis = match read_int(header, "NAXIS", false, 0, 255) {
        Ok(v) => v as u8,
        Err(e) => {
            return Err(e);
        },
    };
    let naxisn = match read_indexed_ints(header, "NAXIS", naxis as u32, hi) {
        Ok(v) => v,
        Err(e) => {
            return Err(e);
        },
    };
    proof {
        lemma_indexed_ints_len(header@.cards, "NAXIS"@, naxis as nat, hi as int);
        let axes = indexed_ints(header@.cards, "NAXIS"@, naxis as nat, hi as int)->Ok_0;
        assert(naxisn@ =~= as_lengths(axes));
    }
    Ok((bitpix, naxisn))
}

/// The absolute value of the precision code.
pub open spec fn bit_depth(bitpix: i8) -> nat {
    if bitpix < 0 {
        (-bitpix) as nat
    } else {
        bitpix as nat
    }
}

/// The number of bits of the payload that the keywords describe:
/// `|bitpix| * gcount * (pcount + product(naxisn))`.
pub open spec fn payload_bits(bitpix: i8, gcount: nat, pcount: nat, naxisn: Seq<usize>) -> nat {
    bit_depth(bitpix) * gcount * (pcount + product(naxisn))
}

/// The elements of an array payload: the data bytes decoded in the
/// precision of `bitpix`, if they fill the shape.
pub open spec fn formatted(a: ArrayDataView) -> Result<Seq<Precision>, FitsError> {
    match decoded(flat_bytes(a.blocks), a.bitpix) {
        Err(e) => Err(e),
        Ok(items) => if shape_fits(a.naxisn, items.len()) {
            Ok(items)
        } else {
            Err(FitsError::ShapeMismatch)
        },
    }
}

/// The formula counts what is decoded: where the elements of an array
/// without parameters, in one group, fill the shape of its axes, the bits
/// of the payload are the bits of its data bytes.
pub proof fn lemma_formatted_fills_payload(a: ArrayDataView)
    requires
        formatted(a) is Ok,
        a.pcount == 0,
        a.gcount == 1,
    ensures
        payload_bits(a.bitpix, 1, 0, a.naxisn) == 8 * flat_bytes(a.blocks).len(),
{
    let bytes = flat_bytes(a.blocks);
    let w = element_width(a.bitpix)->Some_0;
    let n = bytes.len();
    let count = product(a.naxisn);
    assert(decoded(bytes, a.bitpix) is Ok);
    assert(count == n / w);
    assert(n % w == 0);
    assert(bit_depth(a.bitpix) == 8 * w);
    assert(w * (n / w) == n) by (nonlinear_arith)
        requires
            w > 0,
            n % w == 0,
    ;
    assert(bit_depth(a.bitpix) * 1 * (0 + count) == 8 * n) by (nonlinear_arith)
        requires
            bit_depth(a.bitpix) == 8 * w,
            w * count == n,
    ;
}

/// With no axis of length zero, the product of the first axes is at most
/// the product of all.
pub proof fn lemma_product_grows(shape: Seq<usize>, k: int)
    requires
        0 <= k <= shape.len(),
        forall|i: int| 0 <= i < shape.len() ==> #[trigger] shape[i] > 0,
    ensures
        1 <= product(shape.take(k)) <= product(shape),
    decreases shape.len() - k,
{
    if k == shape.len() {
        assert(shape.take(k) =~= shape);
        lemma_product_positive(shape);
    } else {
        lemma_product_grows(shape, k + 1);
        assert(shape.take(k + 1).drop_last() =~= shape.take(k));
        let p = product(shape.take(k));
        let d = shape[k] as nat;
        assert(shape.take(k + 1).last() == shape[k]);
        lemma_product_positive(shape.take(k));
        assert(p <= p * d) by (nonlinear_arith)
            requires
                d >= 1,
        ;
    }
}

/// With no axis of length zero, the product is at least one.
pub proof fn lemma_product_positive(shape: Seq<usize>)
    requires
        forall|i: int| 0 <= i < shape.len() ==> #[trigger] shape[i] > 0,
    ensures
        product(shape) >= 1,
    decreases shape.len(),
{
    if shape.len() > 0 {
        let front = shape.drop_last();
        assert forall|i: int| 0 <= i < front.len() implies #[trigger] front[i] > 0 by {
            assert(front[i] == shape[i]);
        }
        lemma_product_positive(front);
        let p = product(front);
        let d = shape.last() as nat;
        assert(shape[shape.len() - 1] > 0);
        assert(p * d >= 1) by (nonlinear_arith)
            requires
                p >= 1,
                d >= 1,
        ;
    }
}

/// With an axis of length zero, the product is zero.
pub proof fn lemma_product_zero(shape: Seq<usize>, k: int)
    requires
        0 <= k < shape.len(),
        shape[k] == 0,
    ensures
        product(shape) == 0,
    decreases shape.len(),
{
    if k == shape.len() - 1 {
        assert(product(shape.drop_last()) * 0 == 0);
    } else {
        lemma_product_zero(shape.drop_last(), k);
        assert(0 * (shape.last() as nat) == 0);
    }
}

/// The product of the axes, if it fits a `usize`.
pub fn checked_product(shape: &Vec<usize>) -> (r: Option<usize>)
    ensures
        match r {
            Some(p) => p == product(shape@),
            None => product(shape@) > usize::MAX,
        },
{
    let n = shape.len();
    let mut z: usize = 0;
    while z < n
        invariant
            z <= n,
            n == shape@.len(),
            forall|i: int| 0 <= i < z ==> #[trigger] shape@[i] > 0,
        decreases n - z,
    {
        if shape[z] == 0 {
            proof {
                lemma_product_zero(shape@, z as int);
            }
            return Some(0);
        }
        z += 1;
    }
    let mut acc: usize = 1;
    let mut i: usize = 0;
    assert(shape@.take(0) =~= Seq::<usize>::empty());
    while i < n
        invariant
            i <= n,
            n == shape@.len(),
            forall|k: int| 0 <= k < n ==> #[trigger] shape@[k] > 0,
            acc == product(shape@.take(i as int)),
        decreases n - i,
    {
        proof {
            assert(shape@.take(i + 1).drop_last() =~= shape@.take(i as int));
            assert(shape@.take(i + 1).last() == shape@[i as int]);
            lemma_product_grows(shape@, i + 1);
        }
        match acc.checked_mul(shape[i]) {
            Some(next) => {
                acc = next;
            },
            None => {
                return None;
            },
        }
        i += 1;
    }
    assert(shape@.take(n as int) =~= shape@);
    Some(acc)
}

/// `|bitpix| * gcount * (pcount + product(naxisn))`, if it fits a `usize`.
pub fn checked_payload_bits(bitpix: i8, gcount: usize, pcount: usize, naxisn: &Vec<usize>) -> (r:
    Option<usize>)
    ensures
        match r {
            Some(bits) => bits == payload_bits(bitpix, gcount as nat, pcount as nat, naxisn@),
            None => payload_bits(bitpix, gcount as nat, pcount as nat, naxisn@) > usize::MAX,
        },
{
    let depth: usize = if bitpix < 0 {
        (-(bitpix as i16)) as usize
    } else {
        bitpix as usize
    };
    assert(depth == bit_depth(bitpix));
    let ghost total = payload_bits(bitpix, gcount as nat, pcount as nat, naxisn@);
    if depth == 0 || gcount == 0 {
        assert(total == 0) by (nonlinear_arith)
            requires
                total == bit_depth(bitpix) * (gcount as nat) * (pcount as nat + product(naxisn@)),
                bit_depth(bitpix) == 0 || gcount == 0,
        ;
        return Some(0);
    }
    let ghost elements = product(naxisn@);
    assert(total >= pcount + elements) by (nonlinear_arith)
        requires
            total == (depth as nat) * (gcount as nat) * (pcount as nat + elements),
            depth >= 1,
            gcount >= 1,
    ;
    let p = match checked_product(naxisn) {
        Some(p) => p,
        None => {
            return None;
        },
    };
    let sum = match pcount.checked_add(p) {
        Some(sum) => sum,
        None => {
            return None;
        },
    };
    if sum == 0 {
        assert(total == 0) by (nonlinear_arith)
            requires
                total == (depth as nat) * (gcount as nat) * (pcount as nat + elements),
                pcount + elements == 0,
        ;
        return Some(0);
    }
    let groups = match depth.checked_mul(gcount) {
        Some(groups) => groups,
        None => {
            assert(total > usize::MAX) by (nonlinear_arith)
                requires
                    total == (depth as nat) * (gcount as nat) * (sum as nat),
                    (depth as nat) * (gcount as nat) > usize::MAX,
                    sum >= 1,
            ;
            return None;
        },
    };
    assert(total == groups * sum) by (nonlinear_arith)
        requires
            total == (depth as nat) * (gcount as nat) * (sum as nat),
            groups == depth * gcount,
    ;
    groups.checked_mul(sum)
}

/// The payload of a primary or image unit: raw blocks, to be read as an
/// n-dimensional array.
#[derive(Debug, Clone, PartialEq)]
pub struct ArrayData {
    fitsblocks: Vec<[u8; 2880]>,
    bitpix: i8,
    naxisn: Vec<usize>,
    pcount: usize,
    gcount: usize,
}

impl View for ArrayData {
    type V = ArrayDataView;

    closed spec fn view(&self) -> ArrayDataView {
        ArrayDataView {
            blocks: block_views(self.fitsblocks@),
            bitpix: self.bitpix,
            naxisn: self.naxisn@,
            pcount: self.pcount,
            gcount: self.gcount,
        }
    }
}

impl ArrayData {
    /// The array payload that the header describes, over the given blocks.
    pub fn new(
        fitsblocks: &Vec<[u8; 2880]>,
        header: &Header,
        pcount: Option<usize>,
        gcount: Option<usize>,
    ) -> (r: Result<ArrayData, FitsError>)
        ensures
            match r {
                Ok(a) => array_from_cards(
                    block_views(fitsblocks@),
                    header@.cards,
                    pcount,
                    gcount,
                ) == Ok::<ArrayDataView, FitsError>(a@),
                Err(e) => array_from_cards(
                    block_views(fitsblocks@),
                    header@.cards,
                    pcount,
                    gcount,
                ) == Err::<ArrayDataView, FitsError>(e),
            },
    {
        let (bitpix, naxisn) = match read_shape(header, usize::MAX) {
            Ok(shape) => shape,
            Err(e) => {
                return Err(e);
            },
        };
        let pcount = match pcount {
            Some(p) => p,
            None => 0,
        };
        let gcount = match gcount {
            Some(g) => g,
            None => 1,
        };
        Ok(ArrayData { fitsblocks: copy_blocks(fitsblocks), bitpix, naxisn, pcount, gcount })
    }

    /// Appends a raw block.
    pub fn append(&mut self, chunk: [u8; 2880])
        ensures
            final(self)@ == (ArrayDataView {
                blocks: old(self)@.blocks.push(chunk@),
                ..old(self)@
            }),
    {
        self.fitsblocks.push(chunk);
        assert(self@.blocks =~= old(self)@.blocks.push(chunk@));
    }

    /// The raw blocks.
    pub fn get_fitsblocks(&self) -> (blocks: &Vec<[u8; 2880]>)
        ensures
            block_views(blocks@) == self@.blocks,
    {
        &self.fitsblocks
    }

    /// The code of the elements' precision.
    pub fn bitpix(&self) -> (bitpix: i8)
        ensures
            bitpix == self@.bitpix,
    {
        self.bitpix
    }

    /// The number of axes.
    pub fn naxis(&self) -> (naxis: usize)
        ensures
            naxis == self@.naxis(),
    {
        self.naxisn.len()
    }

    /// The length of each axis, outermost first.
    pub fn naxisn(&self) -> (naxisn: &Vec<usize>)
        ensures
            naxisn@ == self@.naxisn,
    {
        &self.naxisn
    }

    /// The number of parameters that precede each group.
    pub fn pcount(&self) -> (pcount: usize)
        ensures
            pcount == self@.pcount,
    {
        self.pcount
    }

    /// The number of groups.
    pub fn gcount(&self) -> (gcount: usize)
        ensures
            gcount == self@.gcount,
    {
        self.gcount
    }

    /// The number of bits of the payload, if it fits a `usize`.
    pub fn checked_n_bits(&self) -> (r: Option<usize>)
        ensures
            match r {
                Some(bits) => bits == payload_bits(
                    self@.bitpix,
                    self@.gcount as nat,
                    self@.pcount as nat,
                    self@.naxisn,
                ),
                None => payload_bits(
                    self@.bitpix,
                    self@.gcount as nat,
                    self@.pcount as nat,
                    self@.naxisn,
                ) > usize::MAX,
            },
    {
        checked_payload_bits(self.bitpix, self.gcount, self.pcount, &self.naxisn)
    }

    /// The number of bits of the payload:
    /// `|bitpix| * gcount * (pcount + product(naxisn))`.
    pub fn n_bits(&self) -> (bits: usize)
        requires
            payload_bits(self@.bitpix, self@.gcount as nat, self@.pcount as nat, self@.naxisn)
                <= usize::MAX,
        ensures
            bits == payload_bits(
                self@.bitpix,
                self@.gcount as nat,
                self@.pcount as nat,
                self@.naxisn,
            ),
    {
        match self.checked_n_bits() {
            Some(bits) => bits,
            None => 0,
        }
    }

    /// Decodes the data bytes in the precision of `bitpix` and arranges the
    /// elements in the shape of the axes, outermost axis first.
    pub fn format_data(&self) -> (r: Result<Grid, FitsError>)
        ensures
            match r {
                Ok(grid) => formatted(self@) == Ok::<Seq<Precision>, FitsError>(grid_items(grid))
                    && grid_shape(grid) == self@.naxisn,
                Err(e) => formatted(self@) == Err::<Seq<Precision>, FitsError>(e),
            },
    {
        let flat = flatten_blocks(&self.fitsblocks);
        let items = match decode(flat.as_slice(), self.bitpix) {
            Ok(items) => items,
            Err(e) => {
                return Err(e);
            },
        };
        let shape = self.naxisn.clone();
        assert(shape@ =~= self.naxisn@);
        Grid::new(shape, items)
    }
}

} // verus!
