use rustfits::data::data::{Data, Precision};
use rustfits::data::tables::{ASCIIField, BinaryField};
use rustfits::error::FitsError;
use rustfits::fits::{FITS, HDU};
use rustfits::header::HeaderType;

fn block_of_cards(cards: &[&str]) -> Vec<u8> {
    let mut block = Vec::new();
    for c in cards {
        let mut line = c.as_bytes().to_vec();
        assert!(line.len() <= 80);
        line.resize(80, 32);
        block.extend(line);
    }
    block.resize(2880, 32);
    block
}

fn block_of_bytes(bytes: &[u8], fill: u8) -> Vec<u8> {
    let mut out = vec![fill; 2880];
    out[..bytes.len()].copy_from_slice(bytes);
    out
}

fn sample() -> Vec<u8> {
    let mut buffer = block_of_cards(&[
        "SIMPLE  =                    T / conforms",
        "BITPIX  =                   16 / bits",
        "NAXIS   =                    2",
        "NAXIS1  =                   40",
        "NAXIS2  =                   36",
        "END",
    ]);
    let mut image = vec![0u8; 2880];
    for i in 0..1440usize {
        let v = (i as i16) - 700;
        image[2 * i..2 * i + 2].copy_from_slice(&v.to_be_bytes());
    }
    buffer.extend(image);
    buffer.extend(block_of_cards(&[
        "XTENSION= 'TABLE   '",
        "BITPIX  =                    8",
        "NAXIS   =                    2",
        "NAXIS1  =                    8",
        "NAXIS2  =                    2",
        "PCOUNT  =                    0",
        "GCOUNT  =                    1",
        "TFIELDS =                    2",
        "TFORM1  = 'A4      '",
        "TBCOL1  =                    1",
        "TFORM2  = 'I4      '",
        "TBCOL2  =                    5",
        "END",
    ]));
    buffer.extend(block_of_bytes(b"ab    17cdef-204", 32));
    buffer.extend(block_of_cards(&[
        "XTENSION= 'BINTABLE'",
        "BITPIX  =                    8",
        "NAXIS   =                    2",
        "NAXIS1  =                    6",
        "NAXIS2  =                    1",
        "PCOUNT  =                    0",
        "GCOUNT  =                    1",
        "TFIELDS =                    2",
        "TFORM1  = '1J      '",
        "TFORM2  = '2B      '",
        "END",
    ]));
    buffer.extend(block_of_bytes(&[0xFF, 0xFF, 0xFF, 0xFB, 9, 8], 0));
    buffer.extend(block_of_cards(&[
        "XTENSION= 'IMAGE   '",
        "BITPIX  =                  -32",
        "NAXIS   =                    0",
        "END",
    ]));
    buffer
}

#[test]
fn a_file_is_read_unit_by_unit() {
    let fits = FITS::new_from_buffer(&sample()).unwrap();
    assert_eq!(fits.hdus.len(), 4);
    let kinds: Vec<HeaderType> = fits.hdus.iter().map(|h| h.header.get_header_type()).collect();
    assert_eq!(
        kinds,
        vec![HeaderType::Primary, HeaderType::ASCIITable, HeaderType::BinaryTable, HeaderType::Image]
    );
    assert_eq!(
        fits.list_headers(),
        vec!["Primary", "ASCII Table", "Binary Table", "Image"]
    );
    for hdu in &fits.hdus {
        assert!(hdu.header.is_initialized());
    }
    assert_eq!(fits.hdus[0].header.get_keyword("NAXIS"), Some("2".to_string()));
    assert_eq!(fits.hdus[1].header.get_keyword("TFORM2"), Some("I4".to_string()));
    assert_eq!(fits.hdus[3].header.get_keyword("NAXIS"), Some("0".to_string()));
}

#[test]
fn the_payloads_of_a_file_are_decoded_on_demand() {
    let fits = FITS::new_from_buffer(&sample()).unwrap();
    match &fits.hdus[0].data {
        Data::Array(a) => {
            assert_eq!(a.n_bits(), 16 * 1440);
            let grid = a.format_data().unwrap();
            assert_eq!(grid.shape(), vec![40, 36]);
            assert_eq!(grid.get(&[0, 0]), Some(Precision::I16(-700)));
            assert_eq!(grid.get(&[3, 0]), Some(Precision::I16(3 * 36 - 700)));
            assert_eq!(grid.get(&[39, 35]), Some(Precision::I16(739)));
        }
        _ => panic!("not an array"),
    }
    match &fits.hdus[1].data {
        Data::ASCIITable(t) => {
            let m = t.format_data().unwrap();
            assert_eq!(
                m.data(),
                &vec![
                    ASCIIField::Character("ab".to_string()),
                    ASCIIField::Integer(17),
                    ASCIIField::Character("cdef".to_string()),
                    ASCIIField::Integer(-204),
                ]
            );
        }
        _ => panic!("not an ASCII table"),
    }
    match &fits.hdus[2].data {
        Data::BinaryTable(t) => {
            let m = t.format_data().unwrap();
            assert_eq!(m.data(), &vec![BinaryField::I32(-5), BinaryField::Byte(9)]);
        }
        _ => panic!("not a binary table"),
    }
    match &fits.hdus[3].data {
        Data::Array(a) => {
            assert_eq!(a.naxis(), 0);
            assert_eq!(a.get_fitsblocks().len(), 0);
            assert_eq!(a.format_data().err(), Some(FitsError::ShapeMismatch));
        }
        _ => panic!("not an array"),
    }
}

#[test]
fn the_first_unit_that_fails_fails_the_file() {
    let mut buffer =
        block_of_cards(&["SIMPLE  =                    T", "BITPIX  =                    8", "END"]);
    buffer.extend(block_of_cards(&["XTENSION= 'FOO     '", "END"]));
    assert_eq!(FITS::new_from_buffer(&buffer).err(), Some(FitsError::MissingKeyword));
    let mut buffer = block_of_cards(&["SIMPLE  =                    T", "BITPIX  = 8", "END"]);
    buffer.extend(block_of_cards(&["XTENSION= 'FOO     '", "END"]));
    assert_eq!(FITS::new_from_buffer(&buffer).err(), Some(FitsError::BadKeywordValue));
    let mut buffer = block_of_cards(&[
        "SIMPLE  =                    T",
        "BITPIX  =                    8",
        "NAXIS   =                    0",
        "END",
    ]);
    buffer.extend(block_of_cards(&["XTENSION= 'FOO     '", "END"]));
    assert_eq!(FITS::new_from_buffer(&buffer).err(), Some(FitsError::UnknownExtension));
    let mut buffer = block_of_cards(&[
        "SIMPLE  =                    T",
        "BITPIX  =                    8",
        "NAXIS   =                    0",
        "END",
    ]);
    let mut second = block_of_cards(&["XTENSION= 'IMAGE   '", "END"]);
    second[300] = 0xC3;
    buffer.extend(second);
    assert_eq!(FITS::new_from_buffer(&buffer).err(), Some(FitsError::NonAsciiHeader));
    assert_eq!(FITS::new_from_buffer(&vec![0u8; 2880]).err(), Some(FitsError::MissingHeaderStart));
    assert_eq!(FITS::new_from_buffer(&vec![0u8; 100]).err(), Some(FitsError::BadLength));
}

#[test]
fn an_empty_buffer_is_a_file_without_units() {
    let fits = FITS::new_from_buffer(&Vec::new()).unwrap();
    assert_eq!(fits.hdus.len(), 0);
    assert_eq!(fits.list_headers(), Vec::<String>::new());
}

#[test]
fn units_are_plain_values() {
    let raw = FITS::bytes_to_hdu(&sample()).unwrap();
    assert_eq!(raw.len(), 4);
    let mut hdus: Vec<HDU> = Vec::new();
    for mut hdu in raw {
        assert!(matches!(hdu.data, Data::Empty(_)));
        hdu.header.initialize_header().unwrap();
        let data = Data::from_header(hdu.data.get_fitsblocks(), &hdu.header).unwrap();
        hdus.push(HDU { header: hdu.header, data });
    }
    let fits = FITS { hdus };
    assert_eq!(fits.list_headers().len(), 4);
}
