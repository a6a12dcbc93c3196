use rustfits::error::FitsError;
use rustfits::header::{parse_line, read_indexed_ints, read_indexed_texts, read_int, Header, HeaderType};

fn card(text: &str) -> Vec<u8> {
    let mut line = text.as_bytes().to_vec();
    assert!(line.len() <= 80);
    line.resize(80, 32);
    line
}

fn block_of_cards(cards: &[&str]) -> [u8; 2880] {
    let mut block = Vec::new();
    for c in cards {
        block.extend(card(c));
    }
    block.resize(2880, 32);
    let mut out = [0u8; 2880];
    out.copy_from_slice(&block);
    out
}

fn header_of(cards: &[&str]) -> Header {
    let mut header = Header::new();
    header.append(block_of_cards(cards));
    header
}

#[test]
fn value_card_with_comment() {
    let c = parse_line(&card("BITPIX  =                   16 / bits per pixel")).unwrap();
    assert_eq!(c.keyword, "BITPIX");
    assert_eq!(c.value, "16");
    assert_eq!(c.comment, " bits per pixel".to_string() + &" ".repeat(80 - 47));
}

#[test]
fn value_card_without_comment() {
    let c = parse_line(&card("NAXIS   =                    2")).unwrap();
    assert_eq!(c.keyword, "NAXIS");
    assert_eq!(c.value, "2");
    assert_eq!(c.comment, "");
}

#[test]
fn quoted_value_loses_quotes_and_all_white_space() {
    let c = parse_line(&card("OBJECT  = 'NGC 4151 core'     / target")).unwrap();
    assert_eq!(c.keyword, "OBJECT");
    assert_eq!(c.value, "NGC4151core");
}

#[test]
fn byte_ten_is_no_part_of_the_value() {
    let c = parse_line(&card("KEY     = 7")).unwrap();
    assert_eq!(c.value, "");
    let c = parse_line(&card("KEY     =  7")).unwrap();
    assert_eq!(c.value, "7");
}

#[test]
fn the_first_slash_ends_the_value() {
    let c = parse_line(&card("DATE    = '01/02/99'")).unwrap();
    assert_eq!(c.value, "01");
    assert_eq!(c.comment, "02/99'".to_string() + &" ".repeat(80 - 20));
    let c = parse_line(&card("KEY     =                    5 / a / b")).unwrap();
    assert_eq!(c.value, "5");
    assert_eq!(c.comment, " a / b".to_string() + &" ".repeat(80 - 38));
    let c = parse_line(&card("KEY     =                    5 /")).unwrap();
    assert_eq!(c.value, "5");
    assert_eq!(c.comment, " ".repeat(80 - 32));
    let c = parse_line(&card("KEY     =  /only a comment")).unwrap();
    assert_eq!(c.value, "");
    assert!(c.comment.starts_with("only a comment"));
}

#[test]
fn card_without_marker_keeps_its_text_as_value() {
    let c = parse_line(&card("COMMENT  this is text")).unwrap();
    assert_eq!(c.keyword, "COMMENT");
    assert_eq!(c.value, "this is text".to_string() + &" ".repeat(71 - 12));
    assert_eq!(c.comment, "");
    let c = parse_line(&card("END")).unwrap();
    assert_eq!(c.keyword, "END");
    assert_eq!(c.value, " ".repeat(71));
    assert_eq!(c.comment, "");
    let c = parse_line(&card("HISTORY =no space after the sign")).unwrap();
    assert_eq!(c.keyword, "HISTORY");
    assert_eq!(c.value, "no space after the sign".to_string() + &" ".repeat(71 - 23));
    let c = parse_line(&card("KEY     =5")).unwrap();
    assert_eq!(c.value, "5".to_string() + &" ".repeat(70));
}

#[test]
fn keyword_loses_the_white_space_around_it() {
    let c = parse_line(&card("NAXIS1  =                    1")).unwrap();
    assert_eq!(c.keyword, "NAXIS1");
    let c = parse_line(&card("  KEY   =                    1")).unwrap();
    assert_eq!(c.keyword, "KEY");
    let c = parse_line(&card("A B\tC   =                    1")).unwrap();
    assert_eq!(c.keyword, "A B\tC");
    let c = parse_line(&card("LONGNAME=                    1")).unwrap();
    assert_eq!(c.keyword, "LONGNAME");
    let c = parse_line(&card("")).unwrap();
    assert_eq!(c.keyword, "");
}

#[test]
fn card_outside_ascii_is_rejected() {
    let mut line = card("OBJECT  = 'x'");
    line[40] = 200;
    assert_eq!(parse_line(&line).err(), Some(FitsError::NonAsciiHeader));
}

#[test]
fn new_header_is_empty_and_unparsed() {
    let header = Header::new();
    assert!(header.is_empty());
    assert!(!header.is_initialized());
    assert_eq!(header.get_keyword("SIMPLE"), None);
    assert_eq!(header.check_type(), Err(FitsError::HeaderNotInitialized));
    assert_eq!(header.list_keywords(true).len(), 0);
}

#[test]
fn simple_classifies_as_primary() {
    let mut header = header_of(&["SIMPLE  =                    T", "BITPIX  = 8", "END"]);
    assert!(!header.is_empty());
    assert_eq!(header.initialize_header(), Ok(()));
    assert!(header.is_initialized());
    assert_eq!(header.get_header_type(), HeaderType::Primary);
    assert_eq!(header.check_type(), Ok(HeaderType::Primary));
    assert_eq!(header.get_keyword("SIMPLE"), Some("T".to_string()));
}

#[test]
fn xtension_names_the_kind() {
    let mut header = header_of(&["XTENSION= 'BINTABLE'", "END"]);
    assert_eq!(header.initialize_header(), Ok(()));
    assert_eq!(header.get_header_type(), HeaderType::BinaryTable);
    let mut header = header_of(&["XTENSION= 'IMAGE   '", "END"]);
    assert_eq!(header.initialize_header(), Ok(()));
    assert_eq!(header.get_header_type(), HeaderType::Image);
    let mut header = header_of(&["XTENSION= 'TABLE   '", "END"]);
    assert_eq!(header.initialize_header(), Ok(()));
    assert_eq!(header.get_header_type(), HeaderType::ASCIITable);
}

#[test]
fn unknown_extension_is_an_error() {
    let mut header = header_of(&["XTENSION= 'FOO'", "END"]);
    assert_eq!(header.initialize_header(), Err(FitsError::UnknownExtension));
    assert!(!header.is_initialized());
    assert_eq!(header.get_keyword("XTENSION"), None);
}

#[test]
fn header_without_simple_or_xtension_is_an_error() {
    let mut header = header_of(&["BITPIX  =                    8", "END"]);
    assert_eq!(header.initialize_header(), Err(FitsError::UnclassifiedHeader));
    let mut empty = Header::new();
    assert_eq!(empty.initialize_header(), Err(FitsError::UnclassifiedHeader));
}

#[test]
fn simple_wins_over_xtension() {
    let mut header = header_of(&["XTENSION= 'FOO'", "SIMPLE  =                    T", "END"]);
    assert_eq!(header.initialize_header(), Ok(()));
    assert_eq!(header.get_header_type(), HeaderType::Primary);
}

#[test]
fn header_outside_ascii_is_rejected() {
    let mut block = block_of_cards(&["SIMPLE  =                    T", "END"]);
    block[2000] = 128;
    let mut header = Header::new();
    header.append(block);
    assert_eq!(header.initialize_header(), Err(FitsError::NonAsciiHeader));
    assert!(!header.is_initialized());
}

#[test]
fn last_card_of_a_keyword_wins() {
    let mut header = header_of(&[
        "SIMPLE  =                    T",
        "NAXIS   =                    1",
        "OBJECT  = 'first'",
        "NAXIS   =                    3",
        "END",
    ]);
    assert_eq!(header.initialize_header(), Ok(()));
    assert_eq!(header.get_keyword("NAXIS"), Some("3".to_string()));
    assert_eq!(header.get_keyword("OBJECT"), Some("first".to_string()));
    assert_eq!(header.get_keyword("MISSING"), None);
    assert_eq!(header.get_keyword("END"), Some(" ".repeat(71)));
    assert_eq!(header.get_cards().len(), 36);
}

#[test]
fn keywords_are_listed_in_the_order_of_their_last_card() {
    let mut header = header_of(&[
        "SIMPLE  =                    T",
        "NAXIS   =                    1",
        "OBJECT  = 'first'",
        "NAXIS   =                    3",
        "END",
    ]);
    assert_eq!(header.initialize_header(), Ok(()));
    let expected = vec![
        ("SIMPLE".to_string(), "T".to_string()),
        ("OBJECT".to_string(), "first".to_string()),
        ("NAXIS".to_string(), "3".to_string()),
        ("END".to_string(), " ".repeat(71)),
        (String::new(), " ".repeat(71)),
    ];
    assert_eq!(header.list_keywords(true), expected);
    assert_eq!(header.list_keywords(false), expected);
}

#[test]
fn cards_of_all_blocks_are_parsed() {
    let mut header = Header::new();
    header.append(block_of_cards(&["SIMPLE  =                    T", "BITPIX  =                    8"]));
    header.append(block_of_cards(&["BITPIX  =                   16", "END"]));
    assert_eq!(header.initialize_header(), Ok(()));
    assert_eq!(header.get_cards().len(), 72);
    assert_eq!(header.get_keyword("BITPIX"), Some("16".to_string()));
}

#[test]
fn appending_after_parsing_keeps_the_cards() {
    let mut header = header_of(&["SIMPLE  =                    T", "END"]);
    assert_eq!(header.initialize_header(), Ok(()));
    header.append(block_of_cards(&["BITPIX  =                   16", "END"]));
    assert_eq!(header.get_fitsblocks().len(), 2);
    assert_eq!(header.get_cards().len(), 36);
    assert_eq!(header.get_keyword("BITPIX"), None);
    assert_eq!(header.get_header_type(), HeaderType::Primary);
    assert_eq!(header.initialize_header(), Ok(()));
    assert_eq!(header.get_keyword("BITPIX"), Some("16".to_string()));
}

#[test]
fn kinds_have_names() {
    assert_eq!(HeaderType::Primary.to_string(), "Primary");
    assert_eq!(HeaderType::Image.to_string(), "Image");
    assert_eq!(HeaderType::ASCIITable.to_string(), "ASCII Table");
    assert_eq!(HeaderType::BinaryTable.to_string(), "Binary Table");
}

#[test]
fn required_integers_are_read() {
    let mut header = header_of(&[
        "SIMPLE  =                    T",
        "BITPIX  =                  -32",
        "NAXIS   =                    2",
        "NAXIS1  =                  100",
        "NAXIS2  =                  +20",
        "BAD     =                  1.5",
        "BIG     =                  300",
        "END",
    ]);
    assert_eq!(header.initialize_header(), Ok(()));
    assert_eq!(read_int(&header, "BITPIX", true, -128, 127), Ok(-32));
    assert_eq!(read_int(&header, "BITPIX", false, 0, 255), Err(FitsError::BadKeywordValue));
    assert_eq!(read_int(&header, "NAXIS", false, 0, 255), Ok(2));
    assert_eq!(read_int(&header, "NOPE", false, 0, 255), Err(FitsError::MissingKeyword));
    assert_eq!(read_int(&header, "BAD", false, 0, 255), Err(FitsError::BadKeywordValue));
    assert_eq!(read_int(&header, "BIG", false, 0, 255), Err(FitsError::BadKeywordValue));
    assert_eq!(read_int(&header, "SIMPLE", false, 0, 255), Err(FitsError::BadKeywordValue));
    assert_eq!(read_indexed_ints(&header, "NAXIS", 2, usize::MAX), Ok(vec![100, 20]));
    assert_eq!(read_indexed_ints(&header, "NAXIS", 0, usize::MAX), Ok(vec![]));
    assert_eq!(read_indexed_ints(&header, "NAXIS", 3, usize::MAX), Err(FitsError::MissingKeyword));
    assert_eq!(read_indexed_ints(&header, "NAXIS", 2, 50), Err(FitsError::BadKeywordValue));
    assert_eq!(
        read_indexed_texts(&header, "NAXIS", 2),
        Ok(vec!["100".to_string(), "+20".to_string()])
    );
    assert_eq!(read_indexed_texts(&header, "NAXIS", 3), Err(FitsError::MissingKeyword));
}
