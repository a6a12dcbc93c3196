use rustfits::data::data::Data;
use rustfits::data::tables::{
    known_type_code, parse_format, ASCIIField, ASCIITable, BinaryField, BinaryTable, Matrix2D,
};
use rustfits::error::FitsError;
use rustfits::header::Header;

fn block_of_cards(cards: &[&str]) -> [u8; 2880] {
    let mut block = Vec::new();
    for c in cards {
        let mut line = c.as_bytes().to_vec();
        assert!(line.len() <= 80);
        line.resize(80, 32);
        block.extend(line);
    }
    block.resize(2880, 32);
    let mut out = [0u8; 2880];
    out.copy_from_slice(&block);
    out
}

fn header_of(cards: &[&str]) -> Header {
    let mut header = Header::new();
    header.append(block_of_cards(cards));
    assert_eq!(header.initialize_header(), Ok(()));
    header
}

fn block_of_bytes(bytes: &[u8], fill: u8) -> [u8; 2880] {
    let mut out = [fill; 2880];
    out[..bytes.len()].copy_from_slice(bytes);
    out
}

#[test]
fn matrix_rows_and_columns() {
    let m = Matrix2D::new(vec![1, 2, 3, 4, 5, 6], 2, 3);
    assert_eq!(m.n_row(), 2);
    assert_eq!(m.n_column(), 3);
    assert_eq!(m.data(), &vec![1, 2, 3, 4, 5, 6]);
    assert_eq!(m.get_row(0), Ok(vec![1, 2, 3]));
    assert_eq!(m.get_row(1), Ok(vec![4, 5, 6]));
    assert_eq!(m.get_row(2), Err(FitsError::OutOfBounds));
    assert_eq!(m.get_column(0), Ok(vec![1, 4]));
    assert_eq!(m.get_column(2), Ok(vec![3, 6]));
    assert_eq!(m.get_column(3), Err(FitsError::OutOfBounds));
}

#[test]
fn matrix_grows_by_rows() {
    let mut m: Matrix2D<u8> = Matrix2D::new(Vec::new(), 2, 2);
    assert_eq!(m.get_row(0), Err(FitsError::OutOfBounds));
    assert_eq!(m.get_column(0), Err(FitsError::OutOfBounds));
    m.append_row(vec![1, 2]);
    assert_eq!(m.get_row(0), Ok(vec![1, 2]));
    assert_eq!(m.get_row(1), Err(FitsError::OutOfBounds));
    assert_eq!(m.get_column(1), Err(FitsError::OutOfBounds));
    m.append_row(vec![3, 4]);
    assert_eq!(m.get_row(1), Ok(vec![3, 4]));
    assert_eq!(m.get_column(1), Ok(vec![2, 4]));
    assert_eq!(m.n_row(), 2);
}

#[test]
fn matrix_without_rows_or_columns() {
    let m: Matrix2D<u8> = Matrix2D::new(vec![1, 2], 0, 2);
    assert_eq!(m.get_row(0), Err(FitsError::OutOfBounds));
    assert_eq!(m.get_column(0), Ok(vec![]));
    let m: Matrix2D<u8> = Matrix2D::new(vec![], 3, 0);
    assert_eq!(m.get_row(2), Ok(vec![]));
    assert_eq!(m.get_column(0), Err(FitsError::OutOfBounds));
    let big: Matrix2D<u8> = Matrix2D::new(vec![0; 4], u32::MAX, u32::MAX);
    assert_eq!(big.get_row(u32::MAX - 1), Err(FitsError::OutOfBounds));
    assert_eq!(big.get_column(0), Err(FitsError::OutOfBounds));
}

#[test]
fn matrix_gives_its_rows_one_by_one() {
    let mut m = Matrix2D::new(vec![1, 2, 3, 4, 5, 6], 3, 2);
    assert_eq!(m.next(), Some(vec![1, 2]));
    assert_eq!(m.n_row(), 2);
    assert_eq!(m.get_row(0), Ok(vec![3, 4]));
    assert_eq!(m.next(), Some(vec![3, 4]));
    assert_eq!(m.next(), Some(vec![5, 6]));
    assert_eq!(m.next(), None);
    assert_eq!(m.n_row(), 0);
    let mut short = Matrix2D::new(vec![1], 1, 2);
    assert_eq!(short.next(), None);
    assert_eq!(short.data(), &vec![1]);
}

#[test]
fn ascii_integer_field() {
    assert_eq!(ASCIIField::new(b"  123", "I5".to_string()), Ok(ASCIIField::Integer(123)));
    assert_eq!(ASCIIField::new(b" -42 ", "I5".to_string()), Ok(ASCIIField::Integer(-42)));
    assert_eq!(ASCIIField::new(b"+7", "I2".to_string()), Ok(ASCIIField::Integer(7)));
    assert_eq!(
        ASCIIField::new(b"2147483647", "I10".to_string()),
        Ok(ASCIIField::Integer(i32::MAX))
    );
    assert_eq!(
        ASCIIField::new(b"-2147483648", "I11".to_string()),
        Ok(ASCIIField::Integer(i32::MIN))
    );
}

#[test]
fn ascii_text_field() {
    assert_eq!(ASCIIField::new(b"abc", "A3".to_string()), Ok(ASCIIField::Character("abc".to_string())));
    assert_eq!(
        ASCIIField::new(b"  a b  ", "A7".to_string()),
        Ok(ASCIIField::Character("a b".to_string()))
    );
    assert_eq!(ASCIIField::new(b"   ", "A3".to_string()), Ok(ASCIIField::Character(String::new())));
    assert_eq!(ASCIIField::new(b"", "A0".to_string()), Ok(ASCIIField::Character(String::new())));
}

#[test]
fn ascii_field_of_a_number_with_a_fraction_keeps_its_text() {
    assert_eq!(
        ASCIIField::new(b"  1.50 ", "F7.2".to_string()),
        Ok(ASCIIField::FloatDecimal("1.50".to_string()))
    );
    assert_eq!(
        ASCIIField::new(b" 1.5E+03", "E8.1".to_string()),
        Ok(ASCIIField::FloatExponential("1.5E+03".to_string()))
    );
    assert_eq!(
        ASCIIField::new(b"-2.5E-01 ", "D9.1".to_string()),
        Ok(ASCIIField::DoubleExponential("-2.5E-01".to_string()))
    );
    assert_eq!(
        ASCIIField::new(b"   12", "F5.0".to_string()),
        Ok(ASCIIField::FloatDecimal("12".to_string()))
    );
    assert_eq!(
        ASCIIField::new(b" -inf", "E5.0".to_string()),
        Ok(ASCIIField::FloatExponential("-inf".to_string()))
    );
    match ASCIIField::new(b"-2.5E-01 ", "D9.1".to_string()).unwrap() {
        ASCIIField::DoubleExponential(text) => assert_eq!(text.parse::<f64>(), Ok(-0.25)),
        _ => panic!("not a double"),
    }
    match ASCIIField::new(b" 1.5E+03", "E8.1".to_string()).unwrap() {
        ASCIIField::FloatExponential(text) => assert_eq!(text.parse::<f32>(), Ok(1500.0)),
        _ => panic!("not an exponential"),
    }
}

#[test]
fn ascii_field_goes_by_the_first_letter_of_the_format() {
    assert_eq!(ASCIIField::new(b"12", "IA".to_string()), Ok(ASCIIField::Integer(12)));
    assert_eq!(ASCIIField::new(b"12", "AI".to_string()), Ok(ASCIIField::Character("12".to_string())));
    assert_eq!(ASCIIField::new(b"12", "".to_string()), Ok(ASCIIField::Character("12".to_string())));
    assert_eq!(ASCIIField::new(b"12", "X2".to_string()), Ok(ASCIIField::Character("12".to_string())));
    assert_eq!(ASCIIField::new(b"12", "i2".to_string()), Ok(ASCIIField::Character("12".to_string())));
    assert_eq!(ASCIIField::new(b"12", "2I".to_string()), Ok(ASCIIField::Character("12".to_string())));
}

#[test]
fn ascii_field_that_fails() {
    assert_eq!(ASCIIField::new(b"12a", "I3".to_string()), Err(FitsError::BadField));
    assert_eq!(ASCIIField::new(b"   ", "I3".to_string()), Err(FitsError::BadField));
    assert_eq!(ASCIIField::new(b"1.5", "I3".to_string()), Err(FitsError::BadField));
    assert_eq!(ASCIIField::new(b"2147483648", "I10".to_string()), Err(FitsError::BadField));
    assert_eq!(ASCIIField::new(&[97, 200], "A2".to_string()), Err(FitsError::BadField));
    assert_eq!(ASCIIField::new(&[49, 200], "I2".to_string()), Err(FitsError::BadField));
    assert_eq!(ASCIIField::new(b"-2.5D-01 ", "D9.1".to_string()), Err(FitsError::BadField));
    assert_eq!(ASCIIField::new(b"     ", "F5.2".to_string()), Err(FitsError::BadField));
    assert_eq!(ASCIIField::new(b"1.5 2", "F5.2".to_string()), Err(FitsError::BadField));
    assert_eq!(ASCIIField::new(b"abc", "E3".to_string()), Err(FitsError::BadField));
    assert_eq!(ASCIIField::new(b"1e", "E2".to_string()), Err(FitsError::BadField));
    assert_eq!(ASCIIField::new(b".", "D1".to_string()), Err(FitsError::BadField));
}

#[test]
fn ascii_field_is_cloned_with_its_content() {
    let f = ASCIIField::Character("abc".to_string());
    assert_eq!(f.clone(), f);
    let g = ASCIIField::Integer(-5);
    assert_eq!(g.clone(), g);
}

#[test]
fn binary_single_is_read_big_endian() {
    let field = BinaryField::new(&[0x3F, 0x80, 0x00, 0x00], "E".to_string()).unwrap();
    assert_eq!(field, BinaryField::F32(0x3F800000));
    match field {
        BinaryField::F32(bits) => assert_eq!(f32::from_bits(bits), 1.0),
        _ => panic!("not a single"),
    }
}

#[test]
fn binary_fields_of_every_type_code() {
    let data: Vec<u8> = vec![
        0x81, 0x02, 0x03, 0x04, 0x05, 0x06, 0x07, 0x08, 0x09, 0x0A, 0x0B, 0x0C, 0x0D, 0x0E, 0x0F, 0x10,
    ];
    assert_eq!(BinaryField::decode(&data, 'L'), Ok(BinaryField::Logical(true)));
    assert_eq!(BinaryField::decode(&[0], 'L'), Ok(BinaryField::Logical(false)));
    assert_eq!(BinaryField::decode(&data, 'X'), Ok(BinaryField::Bit(0x81)));
    assert_eq!(BinaryField::decode(&data, 'B'), Ok(BinaryField::Byte(0x81)));
    assert_eq!(BinaryField::decode(&data, 'A'), Ok(BinaryField::Character(0x81)));
    assert_eq!(
        BinaryField::decode(&data, 'I'),
        Ok(BinaryField::I16(i16::from_be_bytes([0x81, 0x02])))
    );
    assert_eq!(
        BinaryField::decode(&data, 'J'),
        Ok(BinaryField::I32(i32::from_be_bytes([0x81, 0x02, 0x03, 0x04])))
    );
    assert_eq!(
        BinaryField::decode(&data, 'K'),
        Ok(BinaryField::I64(i64::from_be_bytes([0x81, 2, 3, 4, 5, 6, 7, 8])))
    );
    assert_eq!(BinaryField::decode(&data, 'E'), Ok(BinaryField::F32(0x81020304)));
    assert_eq!(BinaryField::decode(&data, 'D'), Ok(BinaryField::F64(0x8102030405060708)));
    assert_eq!(
        BinaryField::decode(&data, 'C'),
        Ok(BinaryField::Complex32(0x81020304, 0x05060708))
    );
    assert_eq!(
        BinaryField::decode(&data, 'M'),
        Ok(BinaryField::Complex64(0x8102030405060708, 0x090A0B0C0D0E0F10))
    );
    assert_eq!(BinaryField::decode(&data, 'P'), Ok(BinaryField::Array32(0x81020304, 0x05060708)));
    assert_eq!(
        BinaryField::decode(&data, 'Q'),
        Ok(BinaryField::Array64(0x8102030405060708, 0x090A0B0C0D0E0F10))
    );
}

#[test]
fn binary_field_needs_a_known_code_and_enough_bytes() {
    assert_eq!(BinaryField::decode(&[1, 2], 'Z'), Err(FitsError::UnknownTypeCode));
    assert_eq!(BinaryField::decode(&[1, 2], 'e'), Err(FitsError::UnknownTypeCode));
    assert_eq!(BinaryField::new(&[1, 2], "".to_string()), Err(FitsError::UnknownTypeCode));
    assert_eq!(BinaryField::new(&[1, 2], "EE".to_string()), Err(FitsError::UnknownTypeCode));
    assert_eq!(BinaryField::new(&[1, 2], "1E".to_string()), Err(FitsError::UnknownTypeCode));
    assert_eq!(BinaryField::decode(&[], 'L'), Err(FitsError::OutOfBounds));
    assert_eq!(BinaryField::decode(&[1], 'I'), Err(FitsError::OutOfBounds));
    assert_eq!(BinaryField::decode(&[1, 2, 3], 'J'), Err(FitsError::OutOfBounds));
    assert_eq!(BinaryField::decode(&[1, 2, 3], 'E'), Err(FitsError::OutOfBounds));
    assert_eq!(BinaryField::decode(&[0; 7], 'K'), Err(FitsError::OutOfBounds));
    assert_eq!(BinaryField::decode(&[0; 7], 'D'), Err(FitsError::OutOfBounds));
    assert_eq!(BinaryField::decode(&[0; 7], 'C'), Err(FitsError::OutOfBounds));
    assert_eq!(BinaryField::decode(&[0; 7], 'P'), Err(FitsError::OutOfBounds));
    assert_eq!(BinaryField::decode(&[0; 15], 'M'), Err(FitsError::OutOfBounds));
    assert_eq!(BinaryField::decode(&[0; 15], 'Q'), Err(FitsError::OutOfBounds));
}

#[test]
fn widths_of_type_codes() {
    for (code, width) in [
        ('L', 1usize), ('X', 1), ('B', 1), ('A', 1), ('I', 2), ('J', 4), ('E', 4), ('P', 4),
        ('K', 8), ('D', 8), ('C', 8), ('M', 16), ('Q', 16),
    ] {
        assert_eq!(BinaryField::n_bits(code), width, "{}", code);
        assert!(known_type_code(code));
    }
    assert_eq!(BinaryField::n_bits('Z'), 1);
    assert!(!known_type_code('Z'));
    assert!(!known_type_code('l'));
}

#[test]
fn column_formats() {
    assert_eq!(parse_format("1E"), Ok((1, 'E')));
    assert_eq!(parse_format("16A"), Ok((16, 'A')));
    assert_eq!(parse_format("0J"), Ok((0, 'J')));
    assert_eq!(parse_format("007K"), Ok((7, 'K')));
    assert_eq!(parse_format("E"), Err(FitsError::BadFormat));
    assert_eq!(parse_format(""), Err(FitsError::BadFormat));
    assert_eq!(parse_format("+1E"), Err(FitsError::BadFormat));
    assert_eq!(parse_format("1EE"), Err(FitsError::BadFormat));
    assert_eq!(parse_format("1PE(7)"), Err(FitsError::BadFormat));
    assert_eq!(parse_format("1 E"), Err(FitsError::BadFormat));
    assert_eq!(parse_format("1é"), Err(FitsError::BadFormat));
    assert_eq!(parse_format("99999999999999999999999E"), Err(FitsError::BadFormat));
    assert_eq!(parse_format("1Z"), Err(FitsError::UnknownTypeCode));
    assert_eq!(parse_format("12"), Err(FitsError::UnknownTypeCode));
    assert_eq!(parse_format("1e"), Err(FitsError::UnknownTypeCode));
}

fn ascii_header() -> Header {
    header_of(&[
        "XTENSION= 'TABLE   '",
        "BITPIX  =                    8",
        "NAXIS   =                    2",
        "NAXIS1  =                   12",
        "NAXIS2  =                    3",
        "PCOUNT  =                    0",
        "GCOUNT  =                    1",
        "TFIELDS =                    3",
        "TFORM1  = 'A4      '",
        "TBCOL1  =                    1",
        "TFORM2  = 'I3      '",
        "TBCOL2  =                    5",
        "TFORM3  = 'F5.2    '",
        "TBCOL3  =                    8",
        "END",
    ])
}

#[test]
fn ascii_table_is_described_by_the_header() {
    let blocks = vec![block_of_bytes(b"", 32)];
    let t = ASCIITable::new(&blocks, &ascii_header()).unwrap();
    assert_eq!(t.bitpix(), 8);
    assert_eq!(t.naxis(), 2);
    assert_eq!(t.naxisn(), &vec![12, 3]);
    assert_eq!(t.pcount(), 0);
    assert_eq!(t.gcount(), 1);
    assert_eq!(t.tfields(), 3);
    assert_eq!(t.tformn(), &vec!["A4".to_string(), "I3".to_string(), "F5.2".to_string()]);
    assert_eq!(t.tbcoln(), &vec![1, 5, 8]);
    assert_eq!(t.n_bits(), 8 * 36);
    assert_eq!(t.checked_n_bits(), Some(288));
    assert_eq!(t.get_fitsblocks(), &blocks);
}

#[test]
fn ascii_rows_are_cut_at_the_column_starts() {
    let t = ASCIITable::new(&Vec::new(), &ascii_header()).unwrap();
    assert_eq!(
        t.parse_row(b"ab   12 1.25"),
        Ok(vec![
            ASCIIField::Character("ab".to_string()),
            ASCIIField::Integer(12),
            ASCIIField::FloatDecimal("1.25".to_string()),
        ])
    );
    assert_eq!(
        t.parse_row(b"wxyz-7 3.5e+2      "),
        Ok(vec![
            ASCIIField::Character("wxyz".to_string()),
            ASCIIField::Integer(-7),
            ASCIIField::FloatDecimal("3.5e+2".to_string()),
        ])
    );
    assert_eq!(t.parse_row(b"wxyz-7 3.5 trailing"), Err(FitsError::BadField));
    assert_eq!(t.parse_row(b"ab   xx 1.25"), Err(FitsError::BadField));
    assert_eq!(t.parse_row(b"ab   1"), Err(FitsError::OutOfBounds));
    assert_eq!(t.parse_row(b""), Err(FitsError::OutOfBounds));
    assert_eq!(t.parse_row(b"ab   12"), Err(FitsError::BadField));
    assert_eq!(
        t.parse_row(b"ab   127"),
        Ok(vec![
            ASCIIField::Character("ab".to_string()),
            ASCIIField::Integer(12),
            ASCIIField::FloatDecimal("7".to_string()),
        ])
    );
}

#[test]
fn ascii_table_is_decoded_row_by_row() {
    let rows = b"ab   12 1.25cd  345 2.50ef    6 -0.5";
    let mut t = ASCIITable::new(&Vec::new(), &ascii_header()).unwrap();
    assert_eq!(t.format_data().err(), Some(FitsError::OutOfBounds));
    t.append(block_of_bytes(rows, 32));
    let mut m = t.format_data().unwrap();
    assert_eq!(m.n_row(), 3);
    assert_eq!(m.n_column(), 3);
    assert_eq!(
        m.get_row(1),
        Ok(vec![
            ASCIIField::Character("cd".to_string()),
            ASCIIField::Integer(345),
            ASCIIField::FloatDecimal("2.50".to_string()),
        ])
    );
    assert_eq!(
        m.get_column(1),
        Ok(vec![ASCIIField::Integer(12), ASCIIField::Integer(345), ASCIIField::Integer(6)])
    );
    assert_eq!(
        m.next(),
        Some(vec![
            ASCIIField::Character("ab".to_string()),
            ASCIIField::Integer(12),
            ASCIIField::FloatDecimal("1.25".to_string()),
        ])
    );
    assert_eq!(m.n_row(), 2);
}

#[test]
fn ascii_table_that_fails() {
    let mut bad = ASCIITable::new(&Vec::new(), &ascii_header()).unwrap();
    bad.append(block_of_bytes(b"ab   12 1.25cd  3x5 2.50ef    6 -0.5", 32));
    assert_eq!(bad.format_data().err(), Some(FitsError::BadField));
    let one_axis = header_of(&[
        "XTENSION= 'TABLE   '",
        "BITPIX  =                    8",
        "NAXIS   =                    1",
        "NAXIS1  =                   12",
        "TFIELDS =                    0",
        "END",
    ]);
    let t = ASCIITable::new(&vec![block_of_bytes(b"", 32)], &one_axis).unwrap();
    assert_eq!(t.format_data().err(), Some(FitsError::MissingAxis));
    let zero_start = header_of(&[
        "XTENSION= 'TABLE   '",
        "BITPIX  =                    8",
        "NAXIS   =                    2",
        "NAXIS1  =                    4",
        "NAXIS2  =                    1",
        "TFIELDS =                    1",
        "TFORM1  = 'A4      '",
        "TBCOL1  =                    0",
        "END",
    ]);
    let t = ASCIITable::new(&vec![block_of_bytes(b"abcd", 32)], &zero_start).unwrap();
    assert_eq!(t.format_data().err(), Some(FitsError::OutOfBounds));
    let backwards = header_of(&[
        "XTENSION= 'TABLE   '",
        "BITPIX  =                    8",
        "NAXIS   =                    2",
        "NAXIS1  =                    8",
        "NAXIS2  =                    1",
        "TFIELDS =                    2",
        "TFORM1  = 'A4      '",
        "TBCOL1  =                    5",
        "TFORM2  = 'A4      '",
        "TBCOL2  =                    1",
        "END",
    ]);
    let t = ASCIITable::new(&vec![block_of_bytes(b"abcdefgh", 32)], &backwards).unwrap();
    assert_eq!(t.format_data().err(), Some(FitsError::OutOfBounds));
}

#[test]
fn ascii_table_needs_its_keywords() {
    let blocks: Vec<[u8; 2880]> = Vec::new();
    let no_fields = header_of(&[
        "XTENSION= 'TABLE   '",
        "BITPIX  =                    8",
        "NAXIS   =                    0",
        "END",
    ]);
    assert_eq!(ASCIITable::new(&blocks, &no_fields).err(), Some(FitsError::MissingKeyword));
    let no_form = header_of(&[
        "XTENSION= 'TABLE   '",
        "BITPIX  =                    8",
        "NAXIS   =                    0",
        "TFIELDS =                    1",
        "TBCOL1  =                    1",
        "END",
    ]);
    assert_eq!(ASCIITable::new(&blocks, &no_form).err(), Some(FitsError::MissingKeyword));
    let no_col = header_of(&[
        "XTENSION= 'TABLE   '",
        "BITPIX  =                    8",
        "NAXIS   =                    0",
        "TFIELDS =                    1",
        "TFORM1  = 'A4      '",
        "END",
    ]);
    assert_eq!(ASCIITable::new(&blocks, &no_col).err(), Some(FitsError::MissingKeyword));
    let bad_col = header_of(&[
        "XTENSION= 'TABLE   '",
        "BITPIX  =                    8",
        "NAXIS   =                    0",
        "TFIELDS =                    1",
        "TFORM1  = 'A4      '",
        "TBCOL1  =                   -1",
        "END",
    ]);
    assert_eq!(ASCIITable::new(&blocks, &bad_col).err(), Some(FitsError::BadKeywordValue));
    let wide = header_of(&[
        "XTENSION= 'TABLE   '",
        "BITPIX  =                    8",
        "NAXIS   =                    1",
        "NAXIS1  =           4294967296",
        "TFIELDS =                    0",
        "END",
    ]);
    assert_eq!(ASCIITable::new(&blocks, &wide).err(), Some(FitsError::BadKeywordValue));
}

#[test]
fn table_without_columns_has_empty_rows() {
    let header = header_of(&[
        "XTENSION= 'TABLE   '",
        "BITPIX  =                    8",
        "NAXIS   =                    2",
        "NAXIS1  =                    4",
        "NAXIS2  =                    2",
        "TFIELDS =                    0",
        "END",
    ]);
    let t = ASCIITable::new(&vec![block_of_bytes(b"", 32)], &header).unwrap();
    assert_eq!(t.parse_row(b"abcd"), Ok(vec![]));
    let m = t.format_data().unwrap();
    assert_eq!(m.n_row(), 2);
    assert_eq!(m.n_column(), 0);
    assert_eq!(m.data().len(), 0);
}

fn binary_header() -> Header {
    header_of(&[
        "XTENSION= 'BINTABLE'",
        "BITPIX  =                    8",
        "NAXIS   =                    2",
        "NAXIS1  =                   11",
        "NAXIS2  =                    2",
        "PCOUNT  =                    0",
        "GCOUNT  =                    1",
        "TFIELDS =                    4",
        "TFORM1  = '1I      '",
        "TFORM2  = '4A      '",
        "TFORM3  = '1E      '",
        "TFORM4  = '1L      '",
        "END",
    ])
}

#[test]
fn binary_table_is_described_by_the_header() {
    let t = BinaryTable::new(&Vec::new(), &binary_header()).unwrap();
    assert_eq!(t.bitpix(), 8);
    assert_eq!(t.naxis(), 2);
    assert_eq!(t.naxisn(), &vec![11, 2]);
    assert_eq!(t.pcount(), 0);
    assert_eq!(t.gcount(), 1);
    assert_eq!(t.tfields(), 4);
    assert_eq!(
        t.tformn(),
        &vec!["1I".to_string(), "4A".to_string(), "1E".to_string(), "1L".to_string()]
    );
    assert_eq!(t.n_bits(), 8 * 22);
    assert_eq!(t.checked_n_bits(), Some(176));
}

#[test]
fn binary_rows_advance_by_repeat_count_and_width() {
    let t = BinaryTable::new(&Vec::new(), &binary_header()).unwrap();
    let row = [0xFF, 0xFE, b'w', b'x', b'y', b'z', 0x3F, 0x80, 0x00, 0x00, 0x01];
    assert_eq!(
        t.parse_row(&row),
        Ok(vec![
            BinaryField::I16(-2),
            BinaryField::Character(b'w'),
            BinaryField::F32(0x3F800000),
            BinaryField::Logical(true),
        ])
    );
    let longer = [0xFF, 0xFE, b'w', b'x', b'y', b'z', 0x3F, 0x80, 0x00, 0x00, 0x00, 0x55];
    assert_eq!(
        t.parse_row(&longer),
        Ok(vec![
            BinaryField::I16(-2),
            BinaryField::Character(b'w'),
            BinaryField::F32(0x3F800000),
            BinaryField::Logical(false),
        ])
    );
    assert_eq!(t.parse_row(&row[..10]), Err(FitsError::OutOfBounds));
    assert_eq!(t.parse_row(&row[..8]), Err(FitsError::OutOfBounds));
    assert_eq!(t.parse_row(&[]), Err(FitsError::OutOfBounds));
}

#[test]
fn binary_table_is_decoded_row_by_row() {
    let mut bytes = vec![0x00, 0x01, b'a', b'b', b'c', b'd', 0x40, 0x00, 0x00, 0x00, 0x00];
    bytes.extend([0x80, 0x00, b'e', b'f', b'g', b'h', 0xBF, 0x80, 0x00, 0x00, 0x07]);
    let mut t = BinaryTable::new(&Vec::new(), &binary_header()).unwrap();
    assert_eq!(t.format_data().err(), Some(FitsError::OutOfBounds));
    t.append(block_of_bytes(&bytes, 0));
    let m = t.format_data().unwrap();
    assert_eq!(m.n_row(), 2);
    assert_eq!(m.n_column(), 4);
    assert_eq!(
        m.get_row(0),
        Ok(vec![
            BinaryField::I16(1),
            BinaryField::Character(b'a'),
            BinaryField::F32(0x40000000),
            BinaryField::Logical(false),
        ])
    );
    assert_eq!(
        m.get_row(1),
        Ok(vec![
            BinaryField::I16(i16::MIN),
            BinaryField::Character(b'e'),
            BinaryField::F32(0xBF800000),
            BinaryField::Logical(true),
        ])
    );
    assert_eq!(
        m.get_column(2),
        Ok(vec![BinaryField::F32(0x40000000), BinaryField::F32(0xBF800000)])
    );
}

#[test]
fn binary_table_that_fails() {
    let unknown = header_of(&[
        "XTENSION= 'BINTABLE'",
        "BITPIX  =                    8",
        "NAXIS   =                    2",
        "NAXIS1  =                    4",
        "NAXIS2  =                    1",
        "TFIELDS =                    1",
        "TFORM1  = '1Z      '",
        "END",
    ]);
    let t = BinaryTable::new(&vec![block_of_bytes(b"", 0)], &unknown).unwrap();
    assert_eq!(t.format_data().err(), Some(FitsError::UnknownTypeCode));
    let malformed = header_of(&[
        "XTENSION= 'BINTABLE'",
        "BITPIX  =                    8",
        "NAXIS   =                    2",
        "NAXIS1  =                    4",
        "NAXIS2  =                    1",
        "TFIELDS =                    1",
        "TFORM1  = 'E       '",
        "END",
    ]);
    let t = BinaryTable::new(&vec![block_of_bytes(b"", 0)], &malformed).unwrap();
    assert_eq!(t.format_data().err(), Some(FitsError::BadFormat));
    let empty_field = header_of(&[
        "XTENSION= 'BINTABLE'",
        "BITPIX  =                    8",
        "NAXIS   =                    2",
        "NAXIS1  =                    4",
        "NAXIS2  =                    1",
        "TFIELDS =                    1",
        "TFORM1  = '0E      '",
        "END",
    ]);
    let t = BinaryTable::new(&vec![block_of_bytes(b"", 0)], &empty_field).unwrap();
    assert_eq!(t.format_data().err(), Some(FitsError::OutOfBounds));
    let one_descriptor = header_of(&[
        "XTENSION= 'BINTABLE'",
        "BITPIX  =                    8",
        "NAXIS   =                    2",
        "NAXIS1  =                    8",
        "NAXIS2  =                    1",
        "TFIELDS =                    1",
        "TFORM1  = '1P      '",
        "END",
    ]);
    let t = BinaryTable::new(&vec![block_of_bytes(b"", 0)], &one_descriptor).unwrap();
    assert_eq!(t.parse_row(&[0; 8]), Err(FitsError::OutOfBounds));
    let huge = header_of(&[
        "XTENSION= 'BINTABLE'",
        "BITPIX  =                    8",
        "NAXIS   =                    2",
        "NAXIS1  =                    8",
        "NAXIS2  =                    1",
        "TFIELDS =                    1",
        "TFORM1  = '18446744073709551615M'",
        "END",
    ]);
    let t = BinaryTable::new(&vec![block_of_bytes(b"", 0)], &huge).unwrap();
    assert_eq!(t.parse_row(&[0; 8]), Err(FitsError::OutOfBounds));
    let no_axis = header_of(&[
        "XTENSION= 'BINTABLE'",
        "BITPIX  =                    8",
        "NAXIS   =                    0",
        "TFIELDS =                    0",
        "END",
    ]);
    let t = BinaryTable::new(&Vec::new(), &no_axis).unwrap();
    assert_eq!(t.format_data().err(), Some(FitsError::MissingAxis));
    let no_form = header_of(&[
        "XTENSION= 'BINTABLE'",
        "BITPIX  =                    8",
        "NAXIS   =                    0",
        "TFIELDS =                    2",
        "TFORM1  = '1E      '",
        "END",
    ]);
    assert_eq!(BinaryTable::new(&Vec::new(), &no_form).err(), Some(FitsError::MissingKeyword));
}

#[test]
fn two_descriptors_make_room_for_one_value() {
    let header = header_of(&[
        "XTENSION= 'BINTABLE'",
        "BITPIX  =                    8",
        "NAXIS   =                    2",
        "NAXIS1  =                    9",
        "NAXIS2  =                    1",
        "TFIELDS =                    2",
        "TFORM1  = '2P      '",
        "TFORM2  = '1B      '",
        "END",
    ]);
    let t = BinaryTable::new(&Vec::new(), &header).unwrap();
    assert_eq!(
        t.parse_row(&[0, 0, 0, 5, 0, 0, 1, 0, 77]),
        Ok(vec![BinaryField::Array32(5, 256), BinaryField::Byte(77)])
    );
}

#[test]
fn tables_follow_the_kind_of_the_header() {
    let blocks = vec![block_of_bytes(b"", 32)];
    assert!(matches!(Data::from_header(&blocks, &ascii_header()), Ok(Data::ASCIITable(_))));
    assert!(matches!(Data::from_header(&blocks, &binary_header()), Ok(Data::BinaryTable(_))));
    let mut data = Data::from_header(&blocks, &binary_header()).unwrap();
    data.append(block_of_bytes(b"x", 0));
    assert_eq!(data.get_fitsblocks().len(), 2);
    let mut data = Data::from_header(&blocks, &ascii_header()).unwrap();
    data.append(block_of_bytes(b"x", 0));
    assert_eq!(data.get_fitsblocks().len(), 2);
}
