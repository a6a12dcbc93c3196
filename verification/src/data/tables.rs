//! Table payloads: rows of typed fields, decoded by the formats of their
//! columns, and the matrix that holds the decoded rows.

use vstd::prelude::*;
use vstd::string::*;
use vstd::utf8::*;
use crate::block::{block_views, copy_blocks, flat_bytes, flatten_blocks};
use crate::data::array::{
    checked_payload_bits, lemma_shape_from_cards, payload_bits, read_shape, shape_from_cards,
    as_lengths,
};
use crate::bigendian::{be_value, read_i16, read_i32, read_i64, read_u32, read_u64, twos_complement};
use crate::decimal::{
    all_digits, check_float_text, digits_value, integer_value, is_float_text, parse_integer,
    text_bytes, within,
};
use crate::error::FitsError;
use crate::header::{
    indexed_ints, indexed_texts, lemma_indexed_ints_len, lemma_indexed_texts_len,
    read_indexed_ints, read_indexed_texts, read_int, required_int, CardText, Header,
};
use crate::text::{all_ascii, ascii_string, ascii_text, is_ascii_bytes, trim, trim_bounds};

verus! {

/// What a matrix holds.
pub struct Matrix2DView<T> {
    /// The elements, row after row.
    pub data: Seq<T>,
    /// The number of rows.
    pub n_row: u32,
    /// The number of elements in a row.
    pub n_column: u32,
}

impl<T> Matrix2DView<T> {
    /// Row number `row` exists and is held in full.
    pub open spec fn has_row(self, row: u32) -> bool {
        row < self.n_row && (row + 1) * self.n_column <= self.data.len()
    }

    /// Column number `column` exists, and every row is held in full.
    pub open spec fn has_column(self, column: u32) -> bool {
        column < self.n_column && self.n_row * self.n_column <= self.data.len()
    }
}

/// A row-major matrix: `n_row` rows of `n_column` elements each.
#[derive(Debug, Clone, PartialEq)]
pub struct Matrix2D<T> {
    data: Vec<T>,
    n_row: u32,
    n_column: u32,
}

impl<T> View for Matrix2D<T> {
    type V = Matrix2DView<T>;

    closed spec fn view(&self) -> Matrix2DView<T> {
        Matrix2DView { data: self.data@, n_row: self.n_row, n_column: self.n_column }
    }
}

impl<T: Clone> Matrix2D<T> {
    /// A matrix over the given elements.
    pub fn new(data: Vec<T>, n_row: u32, n_column: u32) -> (m: Matrix2D<T>)
        ensures
            m@ == (Matrix2DView { data: data@, n_row, n_column }),
    {
        Matrix2D { data, n_row, n_column }
    }

    /// The number of rows.
    pub fn n_row(&self) -> (n: u32)
        ensures
            n == self@.n_row,
    {
        self.n_row
    }

    /// The number of elements in a row.
    pub fn n_column(&self) -> (n: u32)
        ensures
            n == self@.n_column,
    {
        self.n_column
    }

    /// A copy of row number `row`, counted from zero.
    pub fn get_row(&self, row: u32) -> (r: Result<Vec<T>, FitsError>)
        ensures
            match r {
                Ok(v) => self@.has_row(row) && v@.len() == self@.n_column && forall|j: int|
                    0 <= j < self@.n_column ==> cloned(
                        #[trigger] self@.data[row * self@.n_column + j],
                        v@[j],
                    ),
                Err(e) => e == FitsError::OutOfBounds && !self@.has_row(row),
            },
    {
        let width = self.n_column as u64;
        assert((row + 1) * width <= 0xffff_ffff_ffff_ffff && 0 <= row * width <= (row + 1)
            * width) by (nonlinear_arith)
            requires
                0 <= row <= 0xffff_ffff,
                0 <= width <= 0xffff_ffff,
        ;
        let end = (row as u64 + 1) * width;
        if row >= self.n_row || end > self.data.len() as u64 {
            return Err(FitsError::OutOfBounds);
        }
        let start = (row as u64 * width) as usize;
        assert(start + self.n_column == (row + 1) * width) by (nonlinear_arith)
            requires
                start == row * width,
                width == self.n_column,
        ;
        let len = self.data.len();
        let mut v: Vec<T> = Vec::new();
        let mut j: usize = 0;
        while j < self.n_column as usize
            invariant
                j <= self.n_column,
                len == self.data@.len(),
                start == row * self.n_column,
                start + self.n_column <= self.data@.len(),
                v@.len() == j,
                forall|k: int| 0 <= k < j ==> cloned(#[trigger] self.data@[start + k], v@[k]),
            decreases self.n_column - j,
        {
            v.push(self.data[start + j].clone());
            j += 1;
        }
        Ok(v)
    }

    /// A copy of column number `column`, counted from zero: one element of
    /// each row.
    pub fn get_column(&self, column: u32) -> (r: Result<Vec<T>, FitsError>)
        ensures
            match r {
                Ok(v) => self@.has_column(column) && v@.len() == self@.n_row && forall|i: int|
                    0 <= i < self@.n_row ==> cloned(
                        #[trigger] self@.data[i * self@.n_column + column],
                        v@[i],
                    ),
                Err(e) => e == FitsError::OutOfBounds && !self@.has_column(column),
            },
    {
        let width = self.n_column as u64;
        assert(0 <= self.n_row * width <= 0xffff_ffff_ffff_ffff) by (nonlinear_arith)
            requires
                0 <= self.n_row <= 0xffff_ffff,
                0 <= width <= 0xffff_ffff,
        ;
        let total = self.n_row as u64 * width;
        if column >= self.n_column || total > self.data.len() as u64 {
            return Err(FitsError::OutOfBounds);
        }
        let len = self.data.len();
        let mut v: Vec<T> = Vec::new();
        let mut i: usize = 0;
        while i < self.n_row as usize
            invariant
                i <= self.n_row,
                len == self.data@.len(),
                column < self.n_column,
                self.n_row * self.n_column <= self.data@.len(),
                v@.len() == i,
                forall|k: int|
                    0 <= k < i ==> cloned(
                        #[trigger] self.data@[k * self.n_column + column],
                        v@[k],
                    ),
            decreases self.n_row - i,
        {
            assert(0 <= i * self.n_column && i * self.n_column + column < self.n_row
                * self.n_column) by (nonlinear_arith)
                requires
                    0 <= i < self.n_row,
                    0 <= column < self.n_column,
            ;
            let at = i * (self.n_column as usize) + column as usize;
            v.push(self.data[at].clone());
            i += 1;
        }
        Ok(v)
    }

    /// The elements, row after row.
    pub fn data(&self) -> (data: &Vec<T>)
        ensures
            data@ == self@.data,
    {
        &self.data
    }

    /// Takes the first row out of the matrix, which then has one row less.
    /// A matrix without elements, or without a first row held in full,
    /// gives nothing and stays as it is.
    pub fn next(&mut self) -> (r: Option<Vec<T>>)
        ensures
            match r {
                Some(row) => old(self)@.data.len() > 0 && old(self)@.has_row(0) && row@ == old(
                    self,
                )@.data.take(old(self)@.n_column as int) && final(self)@ == (Matrix2DView {
                    data: old(self)@.data.skip(old(self)@.n_column as int),
                    n_row: (old(self)@.n_row - 1) as u32,
                    n_column: old(self)@.n_column,
                }),
                None => final(self)@ == old(self)@ && (old(self)@.data.len() == 0 || !old(
                    self,
                )@.has_row(0)),
            },
    {
        let width = self.n_column as usize;
        if self.data.len() == 0 || self.n_row == 0 || self.data.len() < width {
            return None;
        }
        let rest = self.data.split_off(width);
        let mut row = rest;
        std::mem::swap(&mut row, &mut self.data);
        self.n_row = self.n_row - 1;
        assert(row@ =~= old(self)@.data.take(old(self)@.n_column as int));
        assert(self.data@ =~= old(self)@.data.skip(old(self)@.n_column as int));
        Some(row)
    }

    /// Appends the elements of `row` after those held.
    pub fn append_row(&mut self, row: Vec<T>)
        ensures
            final(self)@ == (Matrix2DView { data: old(self)@.data + row@, ..old(self)@ }),
    {
        let mut row = row;
        self.data.append(&mut row);
    }
}

/// What a field of an ASCII table holds.
pub enum ASCIIFieldView {
    Character(Seq<char>),
    Integer(i32),
    FloatDecimal(Seq<char>),
    FloatExponential(Seq<char>),
    DoubleExponential(Seq<char>),
}

/// One field of an ASCII table row. A number with a fraction is kept as its
/// text, which is known to denote such a number.
#[derive(Debug, PartialEq, Eq)]
pub enum ASCIIField {
    Character(String),
    Integer(i32),
    FloatDecimal(String),
    FloatExponential(String),
    DoubleExponential(String),
}

impl View for ASCIIField {
    type V = ASCIIFieldView;

    open spec fn view(&self) -> ASCIIFieldView {
        match self {
            ASCIIField::Character(s) => ASCIIFieldView::Character(s@),
            ASCIIField::Integer(v) => ASCIIFieldView::Integer(*v),
            ASCIIField::FloatDecimal(s) => ASCIIFieldView::FloatDecimal(s@),
            ASCIIField::FloatExponential(s) => ASCIIFieldView::FloatExponential(s@),
            ASCIIField::DoubleExponential(s) => ASCIIFieldView::DoubleExponential(s@),
        }
    }
}

impl Clone for ASCIIField {
    fn clone(&self) -> (r: Self)
        ensures
            r == *self,
    {
        match self {
            ASCIIField::Character(s) => ASCIIField::Character(s.clone()),
            ASCIIField::Integer(v) => ASCIIField::Integer(*v),
            ASCIIField::FloatDecimal(s) => ASCIIField::FloatDecimal(s.clone()),
            ASCIIField::FloatExponential(s) => ASCIIField::FloatExponential(s.clone()),
            ASCIIField::DoubleExponential(s) => ASCIIField::DoubleExponential(s.clone()),
        }
    }
}

/// The letter that a column format begins with, or `A` for an empty format.
pub open spec fn format_letter(format: Seq<char>) -> char {
    if format.len() > 0 {
        format[0]
    } else {
        'A'
    }
}

/// The field that the bytes of a column hold under a format, by the
/// format's first letter: `I` makes an integer; `F`, `E` and `D` make a
/// number with a fraction, kept as its text; any other letter makes text.
/// The white space around the field is left out, and text that is no number
/// where one is expected fails.
pub open spec fn ascii_field(data: Seq<u8>, format: Seq<char>) -> Result<
    ASCIIFieldView,
    FitsError,
> {
    if !is_ascii_bytes(data) {
        Err(FitsError::BadField)
    } else {
        let text = trim(data);
        let letter = format_letter(format);
        if letter == 'I' {
            match within(integer_value(text, true), i32::MIN as int, i32::MAX as int) {
                Some(v) => Ok(ASCIIFieldView::Integer(v as i32)),
                None => Err(FitsError::BadField),
            }
        } else if letter == 'F' || letter == 'E' || letter == 'D' {
            if !is_float_text(text) {
                Err(FitsError::BadField)
            } else if letter == 'F' {
                Ok(ASCIIFieldView::FloatDecimal(ascii_text(text)))
            } else if letter == 'E' {
                Ok(ASCIIFieldView::FloatExponential(ascii_text(text)))
            } else {
                Ok(ASCIIFieldView::DoubleExponential(ascii_text(text)))
            }
        } else {
            Ok(ASCIIFieldView::Character(ascii_text(text)))
        }
    }
}

impl ASCIIField {
    /// Decodes the bytes of one column under the column's format.
    pub fn new(data: &[u8], format: String) -> (r: Result<ASCIIField, FitsError>)
        ensures
            match r {
                Ok(field) => ascii_field(data@, format@) == Ok::<ASCIIFieldView, FitsError>(
                    field@,
                ),
                Err(e) => ascii_field(data@, format@) == Err::<ASCIIFieldView, FitsError>(e),
            },
    {
        if !all_ascii(data) {
            return Err(FitsError::BadField);
        }
        let (a, b) = trim_bounds(data);
        let text = vstd::slice::slice_subrange(data, a, b);
        let letter = if format.as_str().unicode_len() > 0 {
            format.as_str().get_char(0)
        } else {
            'A'
        };
        if letter == 'I' {
            match parse_integer(text, true, -0x8000_0000, 0x7fff_ffff) {
                Some(v) => Ok(ASCIIField::Integer(v as i32)),
                None => Err(FitsError::BadField),
            }
        } else if letter == 'F' || letter == 'E' || letter == 'D' {
            if !check_float_text(text) {
                Err(FitsError::BadField)
            } else if letter == 'F' {
                Ok(ASCIIField::FloatDecimal(ascii_string(text)))
            } else if letter == 'E' {
                Ok(ASCIIField::FloatExponential(ascii_string(text)))
            } else {
                Ok(ASCIIField::DoubleExponential(ascii_string(text)))
            }
        } else {
            Ok(ASCIIField::Character(ascii_string(text)))
        }
    }
}

/// The texts of the strings.
pub open spec fn texts(v: Seq<String>) -> Seq<Seq<char>> {
    Seq::new(v.len(), |i: int| v[i]@)
}

/// What the fields hold.
pub open spec fn field_views(v: Seq<ASCIIField>) -> Seq<ASCIIFieldView> {
    Seq::new(v.len(), |i: int| v[i]@)
}

/// What an ASCII table payload holds.
pub struct ASCIITableView {
    /// The raw data blocks.
    pub blocks: Seq<Seq<u8>>,
    /// The code of the elements' precision.
    pub bitpix: i8,
    /// The length of each axis: the bytes of a row, then the number of rows.
    pub naxisn: Seq<usize>,
    /// The number of parameters that precede each group.
    pub pcount: usize,
    /// The number of groups.
    pub gcount: usize,
    /// The format of each column.
    pub tformn: Seq<Seq<char>>,
    /// The byte at which each column starts in a row, counted from one.
    pub tbcoln: Seq<usize>,
}

impl ASCIITableView {
    /// The number of columns.
    pub open spec fn tfields(self) -> nat {
        self.tformn.len()
    }

    /// Each column has a format and a start, and the numbers fit 32 bits.
    pub open spec fn well_formed(self) -> bool {
        &&& self.tbcoln.len() == self.tformn.len()
        &&& self.tformn.len() <= u32::MAX
        &&& forall|i: int| 0 <= i < self.naxisn.len() ==> #[trigger] self.naxisn[i] <= u32::MAX
    }
}

/// The ASCII table payload that the cards describe, over the given blocks:
/// the shape, `TFIELDS`, and a `TFORMn` and a `TBCOLn` for each column are
/// required.
pub open spec fn ascii_table_from_cards(blocks: Seq<Seq<u8>>, cards: Seq<CardText>) -> Result<
    ASCIITableView,
    FitsError,
> {
    match shape_from_cards(cards, u32::MAX as int) {
        Err(e) => Err(e),
        Ok(shape) => match required_int(cards, "TFIELDS"@, false, 0, u32::MAX as int) {
            Err(e) => Err(e),
            Ok(tfields) => match indexed_texts(cards, "TFORM"@, tfields as nat) {
                Err(e) => Err(e),
                Ok(tformn) => match indexed_ints(
                    cards,
                    "TBCOL"@,
                    tfields as nat,
                    u32::MAX as int,
                ) {
                    Err(e) => Err(e),
                    Ok(tbcoln) => Ok(
                        ASCIITableView {
                            blocks,
                            bitpix: shape.0,
                            naxisn: shape.1,
                            pcount: 0,
                            gcount: 1,
                            tformn,
                            tbcoln: as_lengths(tbcoln),
                        },
                    ),
                },
            },
        },
    }
}

/// Where column `k` ends in a row of `row_len` bytes: before the start of
/// the next column, or with the row.
pub open spec fn column_end(t: ASCIITableView, row_len: int, k: int) -> int {
    if k + 1 < t.tformn.len() {
        t.tbcoln[k + 1] - 1
    } else {
        row_len
    }
}

/// The field of column `k` in a row.
pub open spec fn ascii_cell(t: ASCIITableView, row: Seq<u8>, k: int) -> Result<
    ASCIIFieldView,
    FitsError,
> {
    let start = t.tbcoln[k] - 1;
    let end = column_end(t, row.len() as int, k);
    if 0 <= start && start <= end && end <= row.len() {
        ascii_field(row.subrange(start, end), t.tformn[k])
    } else {
        Err(FitsError::OutOfBounds)
    }
}

/// The fields of the first `n` columns in a row, or the error of the first
/// column that fails.
pub open spec fn ascii_cells(t: ASCIITableView, row: Seq<u8>, n: nat) -> Result<
    Seq<ASCIIFieldView>,
    FitsError,
>
    decreases n,
{
    if n == 0 {
        Ok(Seq::empty())
    } else {
        match ascii_cells(t, row, (n - 1) as nat) {
            Err(e) => Err(e),
            Ok(front) => match ascii_cell(t, row, n - 1) {
                Err(e) => Err(e),
                Ok(field) => Ok(front.push(field)),
            },
        }
    }
}

/// The fields of the first `n` rows of `row_len` bytes each, row after
/// row, or the error of the first row that fails.
pub open spec fn ascii_rows(t: ASCIITableView, bytes: Seq<u8>, row_len: nat, n: nat) -> Result<
    Seq<ASCIIFieldView>,
    FitsError,
>
    decreases n,
{
    if n == 0 {
        Ok(Seq::empty())
    } else {
        match ascii_rows(t, bytes, row_len, (n - 1) as nat) {
            Err(e) => Err(e),
            Ok(front) => match ascii_cells(
                t,
                bytes.subrange((n - 1) * row_len, (n * row_len) as int),
                t.tfields(),
            ) {
                Err(e) => Err(e),
                Ok(row) => Ok(front + row),
            },
        }
    }
}

/// The decoded table: `NAXIS2` rows of `NAXIS1` bytes each, taken from the
/// data bytes in order, with one field for each column.
pub open spec fn ascii_formatted(t: ASCIITableView) -> Result<
    Matrix2DView<ASCIIFieldView>,
    FitsError,
> {
    if t.naxisn.len() < 2 {
        Err(FitsError::MissingAxis)
    } else if t.naxisn[0] * t.naxisn[1] > flat_bytes(t.blocks).len() {
        Err(FitsError::OutOfBounds)
    } else {
        match ascii_rows(t, flat_bytes(t.blocks), t.naxisn[0] as nat, t.naxisn[1] as nat) {
            Err(e) => Err(e),
            Ok(data) => Ok(
                Matrix2DView { data, n_row: t.naxisn[1] as u32, n_column: t.tfields() as u32 },
            ),
        }
    }
}

/// Once a column fails, so does every longer run of columns.
pub proof fn lemma_ascii_cells_error(t: ASCIITableView, row: Seq<u8>, i: nat, n: nat)
    requires
        i <= n,
        ascii_cells(t, row, i) is Err,
    ensures
        ascii_cells(t, row, n) == ascii_cells(t, row, i),
    decreases n,
{
    if i < n {
        lemma_ascii_cells_error(t, row, i, (n - 1) as nat);
    }
}

/// Once a row fails, so does every longer run of rows.
pub proof fn lemma_ascii_rows_error(
    t: ASCIITableView,
    bytes: Seq<u8>,
    row_len: nat,
    i: nat,
    n: nat,
)
    requires
        i <= n,
        ascii_rows(t, bytes, row_len, i) is Err,
    ensures
        ascii_rows(t, bytes, row_len, n) == ascii_rows(t, bytes, row_len, i),
    decreases n,
{
    if i < n {
        lemma_ascii_rows_error(t, bytes, row_len, i, (n - 1) as nat);
    }
}

/// As many fields are decoded as columns are asked for.
pub proof fn lemma_ascii_cells_len(t: ASCIITableView, row: Seq<u8>, n: nat)
    ensures
        ascii_cells(t, row, n) matches Ok(fields) ==> fields.len() == n,
    decreases n,
{
    if n > 0 {
        lemma_ascii_cells_len(t, row, (n - 1) as nat);
    }
}

/// Each decoded row has a field for each column.
pub proof fn lemma_ascii_rows_len(t: ASCIITableView, bytes: Seq<u8>, row_len: nat, n: nat)
    ensures
        ascii_rows(t, bytes, row_len, n) matches Ok(fields) ==> fields.len() == n * t.tfields(),
    decreases n,
{
    if n > 0 {
        lemma_ascii_rows_len(t, bytes, row_len, (n - 1) as nat);
        lemma_ascii_cells_len(t, bytes.subrange((n - 1) * row_len, (n * row_len) as int), t.tfields());
        let columns = t.tfields();
        let before = (n - 1) as nat;
        assert(before * columns + columns == n * columns) by (nonlinear_arith)
            requires
                before + 1 == n,
        ;
    } else {
        assert(0 * t.tfields() == 0);
    }
}

/// A decoded table is a full matrix: it has the rows and columns that the
/// header gives, and every row is held in full.
pub proof fn lemma_ascii_formatted_complete(t: ASCIITableView)
    requires
        t.well_formed(),
    ensures
        ascii_formatted(t) matches Ok(m) ==> m.n_row == t.naxisn[1] && m.n_column == t.tfields()
            && m.data.len() == m.n_row * m.n_column && forall|row: u32|
            row < m.n_row ==> #[trigger] m.has_row(row),
{
    if let Ok(m) = ascii_formatted(t) {
        lemma_ascii_rows_len(t, flat_bytes(t.blocks), t.naxisn[0] as nat, t.naxisn[1] as nat);
        assert forall|row: u32| row < m.n_row implies #[trigger] m.has_row(row) by {
            assert((row + 1) * m.n_column <= m.n_row * m.n_column) by (nonlinear_arith)
                requires
                    row + 1 <= m.n_row,
                    m.n_column >= 0,
            ;
        }
    }
}

/// The table that the cards describe is well formed.
pub proof fn lemma_ascii_table_well_formed(blocks: Seq<Seq<u8>>, cards: Seq<CardText>)
    ensures
        ascii_table_from_cards(blocks, cards) matches Ok(t) ==> t.well_formed(),
{
    lemma_shape_from_cards(cards, u32::MAX as int);
    if let Ok(tfields) = required_int(cards, "TFIELDS"@, false, 0, u32::MAX as int) {
        lemma_indexed_texts_len(cards, "TFORM"@, tfields as nat);
        lemma_indexed_ints_len(cards, "TBCOL"@, tfields as nat, u32::MAX as int);
    }
}

/// The axes and columns of an ASCII table.
#[derive(Debug, PartialEq)]
struct AsciiLayout {
    naxisn: Vec<usize>,
    tformn: Vec<String>,
    tbcoln: Vec<usize>,
}

impl AsciiLayout {
    #[verifier::type_invariant]
    spec fn well_formed(self) -> bool {
        &&& self.tbcoln@.len() == self.tformn@.len()
        &&& self.tformn@.len() <= u32::MAX
        &&& forall|i: int| 0 <= i < self.naxisn@.len() ==> #[trigger] self.naxisn@[i] <= u32::MAX
    }
}

impl Clone for AsciiLayout {
    fn clone(&self) -> (r: Self) {
        proof {
            use_type_invariant(self);
        }
        let naxisn = self.naxisn.clone();
        let tbcoln = self.tbcoln.clone();
        assert(naxisn@ =~= self.naxisn@);
        assert(tbcoln@ =~= self.tbcoln@);
        AsciiLayout { naxisn, tformn: self.tformn.clone(), tbcoln }
    }
}

/// The payload of an ASCII table unit.
#[derive(Debug, Clone, PartialEq)]
pub struct ASCIITable {
    fitsblocks: Vec<[u8; 2880]>,
    bitpix: i8,
    pcount: usize,
    gcount: usize,
    layout: AsciiLayout,
}

impl View for ASCIITable {
    type V = ASCIITableView;

    closed spec fn view(&self) -> ASCIITableView {
        ASCIITableView {
            blocks: block_views(self.fitsblocks@),
            bitpix: self.bitpix,
            naxisn: self.layout.naxisn@,
            pcount: self.pcount,
            gcount: self.gcount,
            tformn: texts(self.layout.tformn@),
            tbcoln: self.layout.tbcoln@,
        }
    }
}

impl ASCIITable {
    /// The ASCII table payload that the header describes, over the given
    /// blocks.
    pub fn new(fitsblocks: &Vec<[u8; 2880]>, header: &Header) -> (r: Result<ASCIITable, FitsError>)
        ensures
            match r {
                Ok(t) => ascii_table_from_cards(block_views(fitsblocks@), header@.cards) == Ok::<
                    ASCIITableView,
                    FitsError,
                >(t@) && t@.well_formed(),
                Err(e) => ascii_table_from_cards(block_views(fitsblocks@), header@.cards) == Err::<
                    ASCIITableView,
                    FitsError,
                >(e),
            },
    {
        let (bitpix, naxisn) = match read_shape(header, u32::MAX as usize) {
            Ok(shape) => shape,
            Err(e) => {
                return Err(e);
            },
        };
        let tfields = match read_int(header, "TFIELDS", false, 0, 0xffff_ffff) {
            Ok(v) => v as u32,
            Err(e) => {
                return Err(e);
            },
        };
        let tformn = match read_indexed_texts(header, "TFORM", tfields) {
            Ok(v) => v,
            Err(e) => {
                return Err(e);
            },
        };
        let tbcoln = match read_indexed_ints(header, "TBCOL", tfields, u32::MAX as usize) {
            Ok(v) => v,
            Err(e) => {
                return Err(e);
            },
        };
        proof {
            let cards = header@.cards;
            lemma_shape_from_cards(cards, u32::MAX as int);
            lemma_indexed_texts_len(cards, "TFORM"@, tfields as nat);
            lemma_indexed_ints_len(cards, "TBCOL"@, tfields as nat, u32::MAX as int);
            lemma_ascii_table_well_formed(block_views(fitsblocks@), cards);
            assert(texts(tformn@) =~= indexed_texts(cards, "TFORM"@, tfields as nat)->Ok_0);
            assert(tbcoln@ =~= as_lengths(
                indexed_ints(cards, "TBCOL"@, tfields as nat, u32::MAX as int)->Ok_0,
            ));
        }
        let layout = AsciiLayout { naxisn, tformn, tbcoln };
        Ok(ASCIITable { fitsblocks: copy_blocks(fitsblocks), bitpix, pcount: 0, gcount: 1, layout })
    }

    /// Appends a raw block.
    pub fn append(&mut self, chunk: [u8; 2880])
        ensures
            final(self)@ == (ASCIITableView {
                blocks: old(self)@.blocks.push(chunk@),
                ..old(self)@
            }),
    {
        self.fitsblocks.push(chunk);
        assert(self@.blocks =~= old(self)@.blocks.push(chunk@));
    }

    /// The raw blocks.
    pub fn get_fitsblocks(&self) -> (blocks: &Vec<[u8; 2880]>)
        ensures
            block_views(blocks@) == self@.blocks,
    {
        &self.fitsblocks
    }

    /// The code of the elements' precision.
    pub fn bitpix(&self) -> (bitpix: i8)
        ensures
            bitpix == self@.bitpix,
    {
        self.bitpix
    }

    /// The number of axes.
    pub fn naxis(&self) -> (naxis: usize)
        ensures
            naxis == self@.naxisn.len(),
    {
        self.layout.naxisn.len()
    }

    /// The length of each axis: the bytes of a row, then the number of rows.
    pub fn naxisn(&self) -> (naxisn: &Vec<usize>)
        ensures
            naxisn@ == self@.naxisn,
    {
        &self.layout.naxisn
    }

    /// The number of parameters that precede each group.
    pub fn pcount(&self) -> (pcount: usize)
        ensures
            pcount == self@.pcount,
    {
        self.pcount
    }

    /// The number of groups.
    pub fn gcount(&self) -> (gcount: usize)
        ensures
            gcount == self@.gcount,
    {
        self.gcount
    }

    /// The number of columns.
    pub fn tfields(&self) -> (tfields: usize)
        ensures
            tfields == self@.tfields(),
    {
        self.layout.tformn.len()
    }

    /// The format of each column.
    pub fn tformn(&self) -> (tformn: &Vec<String>)
        ensures
            texts(tformn@) == self@.tformn,
    {
        &self.layout.tformn
    }

    /// The byte at which each column starts in a row, counted from one.
    pub fn tbcoln(&self) -> (tbcoln: &Vec<usize>)
        ensures
            tbcoln@ == self@.tbcoln,
    {
        &self.layout.tbcoln
    }

    /// The number of bits of the payload, if it fits 32 bits.
    pub fn checked_n_bits(&self) -> (r: Option<u32>)
        ensures
            match r {
                Some(bits) => bits == payload_bits(
                    self@.bitpix,
                    self@.gcount as nat,
                    self@.pcount as nat,
                    self@.naxisn,
                ),
                None => payload_bits(
                    self@.bitpix,
                    self@.gcount as nat,
                    self@.pcount as nat,
                    self@.naxisn,
                ) > u32::MAX,
            },
    {
        match checked_payload_bits(self.bitpix, self.gcount, self.pcount, &self.layout.naxisn) {
            Some(bits) => if bits <= u32::MAX as usize {
                Some(bits as u32)
            } else {
                None
            },
            None => None,
        }
    }

    /// The number of bits of the payload:
    /// `|bitpix| * gcount * (pcount + product(naxisn))`.
    pub fn n_bits(&self) -> (bits: u32)
        requires
            payload_bits(self@.bitpix, self@.gcount as nat, self@.pcount as nat, self@.naxisn)
                <= u32::MAX,
        ensures
            bits == payload_bits(
                self@.bitpix,
                self@.gcount as nat,
                self@.pcount as nat,
                self@.naxisn,
            ),
    {
        match self.checked_n_bits() {
            Some(bits) => bits,
            None => 0,
        }
    }

    /// Decodes one row into a field for each column. Column `k` runs from
    /// its start to the start of the next column, the last one to the end of
    /// the row.
    pub fn parse_row(&self, data: &[u8]) -> (r: Result<Vec<ASCIIField>, FitsError>)
        ensures
            match r {
                Ok(fields) => ascii_cells(self@, data@, self@.tfields()) == Ok::<
                    Seq<ASCIIFieldView>,
                    FitsError,
                >(field_views(fields@)),
                Err(e) => ascii_cells(self@, data@, self@.tfields()) == Err::<
                    Seq<ASCIIFieldView>,
                    FitsError,
                >(e),
            },
    {
        proof {
            use_type_invariant(&self.layout);
        }
        let n = self.layout.tformn.len();
        let len = data.len();
        let mut fields: Vec<ASCIIField> = Vec::new();
        let mut k: usize = 0;
        assert(field_views(fields@) =~= Seq::<ASCIIFieldView>::empty());
        while k < n
            invariant
                k <= n,
                n == self@.tfields(),
                n == self.layout.tformn@.len(),
                n == self.layout.tbcoln@.len(),
                len == data@.len(),
                self@.tformn == texts(self.layout.tformn@),
                self@.tbcoln == self.layout.tbcoln@,
                ascii_cells(self@, data@, k as nat) == Ok::<Seq<ASCIIFieldView>, FitsError>(
                    field_views(fields@),
                ),
            decreases n - k,
        {
            let first = self.layout.tbcoln[k];
            let end = if k + 1 < n {
                let next = self.layout.tbcoln[k + 1];
                if next == 0 {
                    proof {
                        lemma_ascii_cells_error(self@, data@, (k + 1) as nat, n as nat);
                    }
                    return Err(FitsError::OutOfBounds);
                }
                next - 1
            } else {
                len
            };
            if first == 0 || first - 1 > end || end > len {
                proof {
                    lemma_ascii_cells_error(self@, data@, (k + 1) as nat, n as nat);
                }
                return Err(FitsError::OutOfBounds);
            }
            let cell = vstd::slice::slice_subrange(data, first - 1, end);
            match ASCIIField::new(cell, self.layout.tformn[k].clone()) {
                Ok(field) => {
                    let ghost before = fields@;
                    let ghost view = field@;
                    fields.push(field);
                    assert(field_views(fields@) =~= field_views(before).push(view));
                },
                Err(e) => {
                    proof {
                        lemma_ascii_cells_error(self@, data@, (k + 1) as nat, n as nat);
                    }
                    return Err(e);
                },
            }
            k += 1;
        }
        Ok(fields)
    }

    /// Decodes every row of the table into a matrix of fields, a row of the
    /// matrix for each row of the table.
    #[verifier::loop_isolation(false)]
    pub fn format_data(&self) -> (r: Result<Matrix2D<ASCIIField>, FitsError>)
        ensures
            match r {
                Ok(m) => ascii_formatted(self@) == Ok::<Matrix2DView<ASCIIFieldView>, FitsError>(
                    Matrix2DView {
                        data: field_views(m@.data),
                        n_row: m@.n_row,
                        n_column: m@.n_column,
                    },
                ),
                Err(e) => ascii_formatted(self@) == Err::<Matrix2DView<ASCIIFieldView>, FitsError>(
                    e,
                ),
            },
    {
        proof {
            use_type_invariant(&self.layout);
        }
        let flat = flatten_blocks(&self.fitsblocks);
        if self.layout.naxisn.len() < 2 {
            return Err(FitsError::MissingAxis);
        }
        let row_len = self.layout.naxisn[0];
        let n_row = self.layout.naxisn[1];
        assert(0 <= row_len * n_row <= 0xffff_ffff_ffff_ffff) by (nonlinear_arith)
            requires
                0 <= row_len <= 0xffff_ffff,
                0 <= n_row <= 0xffff_ffff,
        ;
        if (row_len as u64) * (n_row as u64) > flat.len() as u64 {
            return Err(FitsError::OutOfBounds);
        }
        let flat_len = flat.len();
        let n_column = self.layout.tformn.len() as u32;
        let mut m: Matrix2D<ASCIIField> = Matrix2D::new(Vec::new(), n_row as u32, n_column);
        let ghost bytes = flat_bytes(self@.blocks);
        assert(field_views(m@.data) =~= Seq::<ASCIIFieldView>::empty());
        let mut i: usize = 0;
        while i < n_row
            invariant
                i <= n_row,
                flat@ == bytes,
                row_len * n_row <= flat@.len(),
                m@.n_row == n_row,
                m@.n_column == n_column,
                ascii_rows(self@, bytes, row_len as nat, i as nat) == Ok::<
                    Seq<ASCIIFieldView>,
                    FitsError,
                >(field_views(m@.data)),
            decreases n_row - i,
        {
            assert(0 <= i * row_len && (i + 1) * row_len <= row_len * n_row && (i + 1) * row_len
                == i * row_len + row_len) by (nonlinear_arith)
                requires
                    0 <= i < n_row,
                    0 <= row_len,
            ;
            let row = vstd::slice::slice_subrange(flat.as_slice(), i * row_len, i * row_len + row_len);
            match self.parse_row(row) {
                Ok(fields) => {
                    let ghost before = m@.data;
                    m.append_row(fields);
                    assert(field_views(m@.data) =~= field_views(before) + field_views(fields@));
                },
                Err(e) => {
                    proof {
                        lemma_ascii_rows_error(
                            self@,
                            bytes,
                            row_len as nat,
                            (i + 1) as nat,
                            n_row as nat,
                        );
                    }
                    return Err(e);
                },
            }
            i += 1;
        }
        Ok(m)
    }
}

/// One field of a binary table row. A floating-point value is held as the
/// bits of its IEEE 754 encoding.
#[derive(Debug, Clone, Copy, PartialEq, Eq, Structural)]
pub enum BinaryField {
    Logical(bool),
    Bit(u8),
    Byte(u8),
    I16(i16),
    I32(i32),
    I64(i64),
    Character(u8),
    /// The bits of a single.
    F32(u32),
    /// The bits of a double.
    F64(u64),
    /// The bits of two singles.
    Complex32(u32, u32),
    /// The bits of two doubles.
    Complex64(u64, u64),
    /// An array descriptor of two 32-bit words.
    Array32(u32, u32),
    /// An array descriptor of two 64-bit words.
    Array64(u64, u64),
}

/// The type codes of binary table columns.
pub open spec fn is_type_code(code: char) -> bool {
    code == 'L' || code == 'X' || code == 'B' || code == 'I' || code == 'J' || code == 'K' || code
        == 'A' || code == 'E' || code == 'D' || code == 'C' || code == 'M' || code == 'P' || code
        == 'Q'
}

/// The number of bytes by which one element of a type code advances
/// through a row; 1 for a letter that is no type code.
pub open spec fn field_width(code: char) -> nat {
    if code == 'I' {
        2
    } else if code == 'J' || code == 'E' || code == 'P' {
        4
    } else if code == 'K' || code == 'D' || code == 'C' {
        8
    } else if code == 'M' || code == 'Q' {
        16
    } else {
        1
    }
}

/// The number of bytes from which the value of a type code is read.
pub open spec fn value_width(code: char) -> nat {
    if code == 'I' {
        2
    } else if code == 'J' || code == 'E' {
        4
    } else if code == 'K' || code == 'D' || code == 'C' || code == 'P' {
        8
    } else if code == 'M' || code == 'Q' {
        16
    } else {
        1
    }
}

/// The value of a type code that the first bytes of `data` encode, most
/// significant byte first.
pub open spec fn binary_value(data: Seq<u8>, code: char) -> BinaryField {
    if code == 'L' {
        BinaryField::Logical(data[0] != 0)
    } else if code == 'X' {
        BinaryField::Bit(data[0])
    } else if code == 'B' {
        BinaryField::Byte(data[0])
    } else if code == 'A' {
        BinaryField::Character(data[0])
    } else if code == 'I' {
        BinaryField::I16(twos_complement(be_value(data.take(2)), 0x1_0000) as i16)
    } else if code == 'J' {
        BinaryField::I32(twos_complement(be_value(data.take(4)), 0x1_0000_0000) as i32)
    } else if code == 'K' {
        BinaryField::I64(twos_complement(be_value(data.take(8)), 0x1_0000_0000_0000_0000) as i64)
    } else if code == 'E' {
        BinaryField::F32(be_value(data.take(4)) as u32)
    } else if code == 'D' {
        BinaryField::F64(be_value(data.take(8)) as u64)
    } else if code == 'C' {
        BinaryField::Complex32(
            be_value(data.take(4)) as u32,
            be_value(data.subrange(4, 8)) as u32,
        )
    } else if code == 'M' {
        BinaryField::Complex64(
            be_value(data.take(8)) as u64,
            be_value(data.subrange(8, 16)) as u64,
        )
    } else if code == 'P' {
        BinaryField::Array32(be_value(data.take(4)) as u32, be_value(data.subrange(4, 8)) as u32)
    } else {
        BinaryField::Array64(be_value(data.take(8)) as u64, be_value(data.subrange(8, 16)) as u64)
    }
}

/// The value that `data` holds for a type code, if the code is known and
/// `data` is long enough.
pub open spec fn binary_cell(data: Seq<u8>, code: char) -> Result<BinaryField, FitsError> {
    if !is_type_code(code) {
        Err(FitsError::UnknownTypeCode)
    } else if data.len() < value_width(code) {
        Err(FitsError::OutOfBounds)
    } else {
        Ok(binary_value(data, code))
    }
}

/// The value that `data` holds under a format of one letter, the type code.
pub open spec fn binary_field(data: Seq<u8>, format: Seq<char>) -> Result<BinaryField, FitsError> {
    if format.len() != 1 {
        Err(FitsError::UnknownTypeCode)
    } else {
        binary_cell(data, format[0])
    }
}

/// The repeat count and the type code of a column format: digits, then one
/// letter.
pub open spec fn binary_format(tform: Seq<char>) -> Result<(nat, char), FitsError> {
    if !is_ascii_chars(tform) || tform.len() < 2 {
        Err(FitsError::BadFormat)
    } else {
        let digits = text_bytes(tform.drop_last());
        if !all_digits(digits) || digits_value(digits) > usize::MAX {
            Err(FitsError::BadFormat)
        } else if !is_type_code(tform.last()) {
            Err(FitsError::UnknownTypeCode)
        } else {
            Ok((digits_value(digits), tform.last()))
        }
    }
}

/// Tells whether a letter is a type code.
pub fn known_type_code(code: char) -> (r: bool)
    ensures
        r == is_type_code(code),
{
    code == 'L' || code == 'X' || code == 'B' || code == 'I' || code == 'J' || code == 'K' || code
        == 'A' || code == 'E' || code == 'D' || code == 'C' || code == 'M' || code == 'P' || code
        == 'Q'
}

/// Reads the repeat count and the type code of a column format.
pub fn parse_format(tform: &str) -> (r: Result<(usize, char), FitsError>)
    ensures
        match r {
            Ok(f) => binary_format(tform@) == Ok::<(nat, char), FitsError>((f.0 as nat, f.1)),
            Err(e) => binary_format(tform@) == Err::<(nat, char), FitsError>(e),
        },
{
    if !tform.is_ascii() {
        return Err(FitsError::BadFormat);
    }
    let bytes = tform.as_bytes();
    proof {
        is_ascii_spec_bytes(tform);
        assert(bytes@ =~= text_bytes(tform@));
    }
    let n = bytes.len();
    if n < 2 {
        return Err(FitsError::BadFormat);
    }
    let digits = vstd::slice::slice_subrange(bytes, 0, n - 1);
    assert(digits@ =~= text_bytes(tform@.drop_last()));
    if digits[0] == 43 {
        return Err(FitsError::BadFormat);
    }
    let repeat = match parse_integer(digits, false, 0, usize::MAX as i128) {
        Some(v) => v as usize,
        None => {
            return Err(FitsError::BadFormat);
        },
    };
    let code = bytes[n - 1] as char;
    assert(code == tform@.last());
    if !known_type_code(code) {
        return Err(FitsError::UnknownTypeCode);
    }
    Ok((repeat, code))
}

impl BinaryField {
    /// Decodes the value of a type code from the first bytes of `data`.
    pub fn decode(data: &[u8], code: char) -> (r: Result<BinaryField, FitsError>)
        ensures
            match r {
                Ok(field) => binary_cell(data@, code) == Ok::<BinaryField, FitsError>(field),
                Err(e) => binary_cell(data@, code) == Err::<BinaryField, FitsError>(e),
            },
    {
        if !known_type_code(code) {
            return Err(FitsError::UnknownTypeCode);
        }
        let need: usize = if code == 'I' {
            2
        } else if code == 'J' || code == 'E' {
            4
        } else if code == 'K' || code == 'D' || code == 'C' || code == 'P' {
            8
        } else if code == 'M' || code == 'Q' {
            16
        } else {
            1
        };
        if data.len() < need {
            return Err(FitsError::OutOfBounds);
        }
        let field = if code == 'L' {
            BinaryField::Logical(data[0] != 0)
        } else if code == 'X' {
            BinaryField::Bit(data[0])
        } else if code == 'B' {
            BinaryField::Byte(data[0])
        } else if code == 'A' {
            BinaryField::Character(data[0])
        } else if code == 'I' {
            BinaryField::I16(read_i16(data))
        } else if code == 'J' {
            BinaryField::I32(read_i32(data))
        } else if code == 'K' {
            BinaryField::I64(read_i64(data))
        } else if code == 'E' {
            BinaryField::F32(read_u32(data))
        } else if code == 'D' {
            BinaryField::F64(read_u64(data))
        } else if code == 'C' || code == 'P' {
            let second = vstd::slice::slice_subrange(data, 4, data.len());
            assert(second@.take(4) =~= data@.subrange(4, 8));
            let a = read_u32(data);
            let b = read_u32(second);
            if code == 'C' {
                BinaryField::Complex32(a, b)
            } else {
                BinaryField::Array32(a, b)
            }
        } else {
            let second = vstd::slice::slice_subrange(data, 8, data.len());
            assert(second@.take(8) =~= data@.subrange(8, 16));
            let a = read_u64(data);
            let b = read_u64(second);
            if code == 'M' {
                BinaryField::Complex64(a, b)
            } else {
                BinaryField::Array64(a, b)
            }
        };
        Ok(field)
    }

    /// Decodes the value that `data` holds under a format of one letter.
    pub fn new(data: &[u8], format: String) -> (r: Result<BinaryField, FitsError>)
        ensures
            match r {
                Ok(field) => binary_field(data@, format@) == Ok::<BinaryField, FitsError>(field),
                Err(e) => binary_field(data@, format@) == Err::<BinaryField, FitsError>(e),
            },
    {
        if format.as_str().unicode_len() != 1 {
            return Err(FitsError::UnknownTypeCode);
        }
        BinaryField::decode(data, format.as_str().get_char(0))
    }

    /// The number of bytes by which one element of a type code advances
    /// through a row.
    pub fn n_bits(format: char) -> (width: usize)
        ensures
            width == field_width(format),
    {
        if format == 'I' {
            2
        } else if format == 'J' || format == 'E' || format == 'P' {
            4
        } else if format == 'K' || format == 'D' || format == 'C' {
            8
        } else if format == 'M' || format == 'Q' {
            16
        } else {
            1
        }
    }
}

/// What a binary table payload holds.
pub struct BinaryTableView {
    /// The raw data blocks.
    pub blocks: Seq<Seq<u8>>,
    /// The code of the elements' precision.
    pub bitpix: i8,
    /// The length of each axis: the bytes of a row, then the number of rows.
    pub naxisn: Seq<usize>,
    /// The number of parameters that precede each group.
    pub pcount: usize,
    /// The number of groups.
    pub gcount: usize,
    /// The format of each column: a repeat count and a type code.
    pub tformn: Seq<Seq<char>>,
}

impl BinaryTableView {
    /// The number of columns.
    pub open spec fn tfields(self) -> nat {
        self.tformn.len()
    }

    /// The numbers fit 32 bits.
    pub open spec fn well_formed(self) -> bool {
        &&& self.tformn.len() <= u32::MAX
        &&& forall|i: int| 0 <= i < self.naxisn.len() ==> #[trigger] self.naxisn[i] <= u32::MAX
    }
}

/// The binary table payload that the cards describe, over the given blocks:
/// the shape, `TFIELDS`, and a `TFORMn` for each column are required.
pub open spec fn binary_table_from_cards(blocks: Seq<Seq<u8>>, cards: Seq<CardText>) -> Result<
    BinaryTableView,
    FitsError,
> {
    match shape_from_cards(cards, u32::MAX as int) {
        Err(e) => Err(e),
        Ok(shape) => match required_int(cards, "TFIELDS"@, false, 0, u32::MAX as int) {
            Err(e) => Err(e),
            Ok(tfields) => match indexed_texts(cards, "TFORM"@, tfields as nat) {
                Err(e) => Err(e),
                Ok(tformn) => Ok(
                    BinaryTableView {
                        blocks,
                        bitpix: shape.0,
                        naxisn: shape.1,
                        pcount: 0,
                        gcount: 1,
                        tformn,
                    },
                ),
            },
        },
    }
}

/// The fields of the first `n` columns in a row, with the place in the row
/// that follows them. A column takes as many bytes as its repeat count
/// times the width of its type code; its value is read where it begins.
pub open spec fn binary_cells(t: BinaryTableView, row: Seq<u8>, n: nat) -> Result<
    (Seq<BinaryField>, nat),
    FitsError,
>
    decreases n,
{
    if n == 0 {
        Ok((Seq::empty(), 0))
    } else {
        match binary_cells(t, row, (n - 1) as nat) {
            Err(e) => Err(e),
            Ok(front) => match binary_format(t.tformn[n - 1]) {
                Err(e) => Err(e),
                Ok(f) => {
                    let end = front.1 + f.0 * field_width(f.1);
                    if end > row.len() {
                        Err(FitsError::OutOfBounds)
                    } else {
                        match binary_cell(row.subrange(front.1 as int, end as int), f.1) {
                            Err(e) => Err(e),
                            Ok(field) => Ok((front.0.push(field), end)),
                        }
                    }
                },
            },
        }
    }
}

/// The fields of a row, one for each column.
pub open spec fn binary_row(t: BinaryTableView, row: Seq<u8>) -> Result<
    Seq<BinaryField>,
    FitsError,
> {
    match binary_cells(t, row, t.tfields()) {
        Err(e) => Err(e),
        Ok(cells) => Ok(cells.0),
    }
}

/// The fields of the first `n` rows of `row_len` bytes each, row after
/// row, or the error of the first row that fails.
pub open spec fn binary_rows(t: BinaryTableView, bytes: Seq<u8>, row_len: nat, n: nat) -> Result<
    Seq<BinaryField>,
    FitsError,
>
    decreases n,
{
    if n == 0 {
        Ok(Seq::empty())
    } else {
        match binary_rows(t, bytes, row_len, (n - 1) as nat) {
            Err(e) => Err(e),
            Ok(front) => match binary_row(
                t,
                bytes.subrange((n - 1) * row_len, (n * row_len) as int),
            ) {
                Err(e) => Err(e),
                Ok(row) => Ok(front + row),
            },
        }
    }
}

/// The decoded table: `NAXIS2` rows of `NAXIS1` bytes each, taken from the
/// data bytes in order, with one field for each column.
pub open spec fn binary_formatted(t: BinaryTableView) -> Result<
    Matrix2DView<BinaryField>,
    FitsError,
> {
    if t.naxisn.len() < 2 {
        Err(FitsError::MissingAxis)
    } else if t.naxisn[0] * t.naxisn[1] > flat_bytes(t.blocks).len() {
        Err(FitsError::OutOfBounds)
    } else {
        match binary_rows(t, flat_bytes(t.blocks), t.naxisn[0] as nat, t.naxisn[1] as nat) {
            Err(e) => Err(e),
            Ok(data) => Ok(
                Matrix2DView { data, n_row: t.naxisn[1] as u32, n_column: t.tfields() as u32 },
            ),
        }
    }
}

/// Once a column fails, so does every longer run of columns.
pub proof fn lemma_binary_cells_error(t: BinaryTableView, row: Seq<u8>, i: nat, n: nat)
    requires
        i <= n,
        binary_cells(t, row, i) is Err,
    ensures
        binary_cells(t, row, n) == binary_cells(t, row, i),
    decreases n,
{
    if i < n {
        lemma_binary_cells_error(t, row, i, (n - 1) as nat);
    }
}

/// Once a row fails, so does every longer run of rows.
pub proof fn lemma_binary_rows_error(
    t: BinaryTableView,
    bytes: Seq<u8>,
    row_len: nat,
    i: nat,
    n: nat,
)
    requires
        i <= n,
        binary_rows(t, bytes, row_len, i) is Err,
    ensures
        binary_rows(t, bytes, row_len, n) == binary_rows(t, bytes, row_len, i),
    decreases n,
{
    if i < n {
        lemma_binary_rows_error(t, bytes, row_len, i, (n - 1) as nat);
    }
}

/// As many fields are decoded as columns are asked for.
pub proof fn lemma_binary_cells_len(t: BinaryTableView, row: Seq<u8>, n: nat)
    ensures
        binary_cells(t, row, n) matches Ok(cells) ==> cells.0.len() == n && cells.1 <= row.len(),
    decreases n,
{
    if n > 0 {
        lemma_binary_cells_len(t, row, (n - 1) as nat);
    }
}

/// Each decoded row has a field for each column.
pub proof fn lemma_binary_rows_len(t: BinaryTableView, bytes: Seq<u8>, row_len: nat, n: nat)
    ensures
        binary_rows(t, bytes, row_len, n) matches Ok(fields) ==> fields.len() == n * t.tfields(),
    decreases n,
{
    if n > 0 {
        lemma_binary_rows_len(t, bytes, row_len, (n - 1) as nat);
        lemma_binary_cells_len(
            t,
            bytes.subrange((n - 1) * row_len, (n * row_len) as int),
            t.tfields(),
        );
        let columns = t.tfields();
        let before = (n - 1) as nat;
        assert(before * columns + columns == n * columns) by (nonlinear_arith)
            requires
                before + 1 == n,
        ;
    } else {
        assert(0 * t.tfields() == 0);
    }
}

/// A decoded table is a full matrix: it has the rows and columns that the
/// header gives, and every row is held in full.
pub proof fn lemma_binary_formatted_complete(t: BinaryTableView)
    requires
        t.well_formed(),
    ensures
        binary_formatted(t) matches Ok(m) ==> m.n_row == t.naxisn[1] && m.n_column == t.tfields()
            && m.data.len() == m.n_row * m.n_column && forall|row: u32|
            row < m.n_row ==> #[trigger] m.has_row(row),
{
    if let Ok(m) = binary_formatted(t) {
        lemma_binary_rows_len(t, flat_bytes(t.blocks), t.naxisn[0] as nat, t.naxisn[1] as nat);
        assert forall|row: u32| row < m.n_row implies #[trigger] m.has_row(row) by {
            assert((row + 1) * m.n_column <= m.n_row * m.n_column) by (nonlinear_arith)
                requires
                    row + 1 <= m.n_row,
                    m.n_column >= 0,
            ;
        }
    }
}

/// The table that the cards describe is well formed.
pub proof fn lemma_binary_table_well_formed(blocks: Seq<Seq<u8>>, cards: Seq<CardText>)
    ensures
        binary_table_from_cards(blocks, cards) matches Ok(t) ==> t.well_formed(),
{
    lemma_shape_from_cards(cards, u32::MAX as int);
    if let Ok(tfields) = required_int(cards, "TFIELDS"@, false, 0, u32::MAX as int) {
        lemma_indexed_texts_len(cards, "TFORM"@, tfields as nat);
    }
}

/// The axes and columns of a binary table.
#[derive(Debug, PartialEq)]
struct BinaryLayout {
    naxisn: Vec<usize>,
    tformn: Vec<String>,
}

impl BinaryLayout {
    #[verifier::type_invariant]
    spec fn well_formed(self) -> bool {
        &&& self.tformn@.len() <= u32::MAX
        &&& forall|i: int| 0 <= i < self.naxisn@.len() ==> #[trigger] self.naxisn@[i] <= u32::MAX
    }
}

impl Clone for BinaryLayout {
    fn clone(&self) -> (r: Self) {
        proof {
            use_type_invariant(self);
        }
        let naxisn = self.naxisn.clone();
        assert(naxisn@ =~= self.naxisn@);
        BinaryLayout { naxisn, tformn: self.tformn.clone() }
    }
}

/// The payload of a binary table unit.
#[derive(Debug, Clone, PartialEq)]
pub struct BinaryTable {
    fitsblocks: Vec<[u8; 2880]>,
    bitpix: i8,
    pcount: usize,
    gcount: usize,
    layout: BinaryLayout,
}

impl View for BinaryTable {
    type V = BinaryTableView;

    closed spec fn view(&self) -> BinaryTableView {
        BinaryTableView {
            blocks: block_views(self.fitsblocks@),
            bitpix: self.bitpix,
            naxisn: self.layout.naxisn@,
            pcount: self.pcount,
            gcount: self.gcount,
            tformn: texts(self.layout.tformn@),
        }
    }
}

impl BinaryTable {
    /// The binary table payload that the header describes, over the given
    /// blocks.
    pub fn new(fitsblocks: &Vec<[u8; 2880]>, header: &Header) -> (r: Result<
        BinaryTable,
        FitsError,
    >)
        ensures
            match r {
                Ok(t) => binary_table_from_cards(block_views(fitsblocks@), header@.cards) == Ok::<
                    BinaryTableView,
                    FitsError,
                >(t@) && t@.well_formed(),
                Err(e) => binary_table_from_cards(block_views(fitsblocks@), header@.cards)
                    == Err::<BinaryTableView, FitsError>(e),
            },
    {
        let (bitpix, naxisn) = match read_shape(header, u32::MAX as usize) {
            Ok(shape) => shape,
            Err(e) => {
                return Err(e);
            },
        };
        let tfields = match read_int(header, "TFIELDS", false, 0, 0xffff_ffff) {
            Ok(v) => v as u32,
            Err(e) => {
                return Err(e);
            },
        };
        let tformn = match read_indexed_texts(header, "TFORM", tfields) {
            Ok(v) => v,
            Err(e) => {
                return Err(e);
            },
        };
        proof {
            let cards = header@.cards;
            lemma_shape_from_cards(cards, u32::MAX as int);
            lemma_indexed_texts_len(cards, "TFORM"@, tfields as nat);
            lemma_binary_table_well_formed(block_views(fitsblocks@), cards);
            assert(texts(tformn@) =~= indexed_texts(cards, "TFORM"@, tfields as nat)->Ok_0);
        }
        let layout = BinaryLayout { naxisn, tformn };
        Ok(BinaryTable { fitsblocks: copy_blocks(fitsblocks), bitpix, pcount: 0, gcount: 1, layout })
    }

    /// Appends a raw block.
    pub fn append(&mut self, chunk: [u8; 2880])
        ensures
            final(self)@ == (BinaryTableView {
                blocks: old(self)@.blocks.push(chunk@),
                ..old(self)@
            }),
    {
        self.fitsblocks.push(chunk);
        assert(self@.blocks =~= old(self)@.blocks.push(chunk@));
    }

    /// The raw blocks.
    pub fn get_fitsblocks(&self) -> (blocks: &Vec<[u8; 2880]>)
        ensures
            block_views(blocks@) == self@.blocks,
    {
        &self.fitsblocks
    }

    /// The code of the elements' precision.
    pub fn bitpix(&self) -> (bitpix: i8)
        ensures
            bitpix == self@.bitpix,
    {
        self.bitpix
    }

    /// The number of axes.
    pub fn naxis(&self) -> (naxis: usize)
        ensures
            naxis == self@.naxisn.len(),
    {
        self.layout.naxisn.len()
    }

    /// The length of each axis: the bytes of a row, then the number of rows.
    pub fn naxisn(&self) -> (naxisn: &Vec<usize>)
        ensures
            naxisn@ == self@.naxisn,
    {
        &self.layout.naxisn
    }

    /// The number of parameters that precede each group.
    pub fn pcount(&self) -> (pcount: usize)
        ensures
            pcount == self@.pcount,
    {
        self.pcount
    }

    /// The number of groups.
    pub fn gcount(&self) -> (gcount: usize)
        ensures
            gcount == self@.gcount,
    {
        self.gcount
    }

    /// The number of columns.
    pub fn tfields(&self) -> (tfields: usize)
        ensures
            tfields == self@.tfields(),
    {
        self.layout.tformn.len()
    }

    /// The format of each column.
    pub fn tformn(&self) -> (tformn: &Vec<String>)
        ensures
            texts(tformn@) == self@.tformn,
    {
        &self.layout.tformn
    }

    /// The number of bits of the payload, if it fits 32 bits.
    pub fn checked_n_bits(&self) -> (r: Option<u32>)
        ensures
            match r {
                Some(bits) => bits == payload_bits(
                    self@.bitpix,
                    self@.gcount as nat,
                    self@.pcount as nat,
                    self@.naxisn,
                ),
                None => payload_bits(
                    self@.bitpix,
                    self@.gcount as nat,
                    self@.pcount as nat,
                    self@.naxisn,
                ) > u32::MAX,
            },
    {
        match checked_payload_bits(self.bitpix, self.gcount, self.pcount, &self.layout.naxisn) {
            Some(bits) => if bits <= u32::MAX as usize {
                Some(bits as u32)
            } else {
                None
            },
            None => None,
        }
    }

    /// The number of bits of the payload:
    /// `|bitpix| * gcount * (pcount + product(naxisn))`.
    pub fn n_bits(&self) -> (bits: u32)
        requires
            payload_bits(self@.bitpix, self@.gcount as nat, self@.pcount as nat, self@.naxisn)
                <= u32::MAX,
        ensures
            bits == payload_bits(
                self@.bitpix,
                self@.gcount as nat,
                self@.pcount as nat,
                self@.naxisn,
            ),
    {
        match self.checked_n_bits() {
            Some(bits) => bits,
            None => 0,
        }
    }

    /// Decodes one row into a field for each column, going through the row
    /// by the columns' repeat counts and widths.
    #[verifier::loop_isolation(false)]
    pub fn parse_row(&self, data: &[u8]) -> (r: Result<Vec<BinaryField>, FitsError>)
        ensures
            match r {
                Ok(fields) => binary_row(self@, data@) == Ok::<Seq<BinaryField>, FitsError>(
                    fields@,
                ),
                Err(e) => binary_row(self@, data@) == Err::<Seq<BinaryField>, FitsError>(e),
            },
    {
        let n = self.layout.tformn.len();
        let len = data.len();
        let mut fields: Vec<BinaryField> = Vec::new();
        let mut cursor: usize = 0;
        let mut k: usize = 0;
        while k < n
            invariant
                k <= n,
                cursor <= len,
                binary_cells(self@, data@, k as nat) == Ok::<(Seq<BinaryField>, nat), FitsError>(
                    (fields@, cursor as nat),
                ),
            decreases n - k,
        {
            assert(self@.tformn[k as int] == self.layout.tformn@[k as int]@);
            let (repeat, code) = match parse_format(self.layout.tformn[k].as_str()) {
                Ok(f) => f,
                Err(e) => {
                    proof {
                        lemma_binary_cells_error(self@, data@, (k + 1) as nat, n as nat);
                    }
                    return Err(e);
                },
            };
            let width = BinaryField::n_bits(code);
            let end = match repeat.checked_mul(width) {
                Some(span) => match cursor.checked_add(span) {
                    Some(end) => if end > len {
                        None
                    } else {
                        Some(end)
                    },
                    None => None,
                },
                None => None,
            };
            let end = match end {
                Some(end) => end,
                None => {
                    proof {
                        lemma_binary_cells_error(self@, data@, (k + 1) as nat, n as nat);
                    }
                    return Err(FitsError::OutOfBounds);
                },
            };
            let span = vstd::slice::slice_subrange(data, cursor, end);
            match BinaryField::decode(span, code) {
                Ok(field) => {
                    fields.push(field);
                },
                Err(e) => {
                    proof {
                        lemma_binary_cells_error(self@, data@, (k + 1) as nat, n as nat);
                    }
                    return Err(e);
                },
            }
            cursor = end;
            k += 1;
        }
        Ok(fields)
    }

    /// Decodes every row of the table into a matrix of fields, a row of the
    /// matrix for each row of the table.
    #[verifier::loop_isolation(false)]
    pub fn format_data(&self) -> (r: Result<Matrix2D<BinaryField>, FitsError>)
        ensures
            match r {
                Ok(m) => binary_formatted(self@) == Ok::<Matrix2DView<BinaryField>, FitsError>(m@),
                Err(e) => binary_formatted(self@) == Err::<Matrix2DView<BinaryField>, FitsError>(e),
            },
    {
        proof {
            use_type_invariant(&self.layout);
        }
        let flat = flatten_blocks(&self.fitsblocks);
        if self.layout.naxisn.len() < 2 {
            return Err(FitsError::MissingAxis);
        }
        let row_len = self.layout.naxisn[0];
        let n_row = self.layout.naxisn[1];
        assert(0 <= row_len * n_row <= 0xffff_ffff_ffff_ffff) by (nonlinear_arith)
            requires
                0 <= row_len <= 0xffff_ffff,
                0 <= n_row <= 0xffff_ffff,
        ;
        if (row_len as u64) * (n_row as u64) > flat.len() as u64 {
            return Err(FitsError::OutOfBounds);
        }
        let flat_len = flat.len();
        let n_column = self.layout.tformn.len() as u32;
        let mut m: Matrix2D<BinaryField> = Matrix2D::new(Vec::new(), n_row as u32, n_column);
        let ghost bytes = flat_bytes(self@.blocks);
        let mut i: usize = 0;
        while i < n_row
            invariant
                i <= n_row,
                m@.n_row == n_row,
                m@.n_column == n_column,
                binary_rows(self@, bytes, row_len as nat, i as nat) == Ok::<
                    Seq<BinaryField>,
                    FitsError,
                >(m@.data),
            decreases n_row - i,
        {
            assert(0 <= i * row_len && (i + 1) * row_len <= row_len * n_row && (i + 1) * row_len
                == i * row_len + row_len) by (nonlinear_arith)
                requires
                    0 <= i < n_row,
                    0 <= row_len,
            ;
            let row = vstd::slice::slice_subrange(flat.as_slice(), i * row_len, i * row_len + row_len);
            match self.parse_row(row) {
                Ok(fields) => {
                    m.append_row(fields);
                },
                Err(e) => {
                    proof {
                        lemma_binary_rows_error(
                            self@,
                            bytes,
                            row_len as nat,
                            (i + 1) as nat,
                            n_row as nat,
                        );
                    }
                    return Err(e);
                },
            }
            i += 1;
        }
        Ok(m)
    }
}

} // verus!
