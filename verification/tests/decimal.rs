use rustfits::decimal::{
    check_float_text, indexed_keyword, parse_integer, parse_text, push_decimal,
};
use rustfits::text::{all_ascii, ascii_string, is_space_byte, trim_bounds};

#[test]
fn digits_denote_a_number() {
    assert_eq!(parse_integer(b"0", false, 0, 255), Some(0));
    assert_eq!(parse_integer(b"123", false, 0, 255), Some(123));
    assert_eq!(parse_integer(b"000123", false, 0, 255), Some(123));
    assert_eq!(parse_integer(b"255", false, 0, 255), Some(255));
    assert_eq!(parse_integer(b"256", false, 0, 255), None);
}

#[test]
fn a_sign_may_lead() {
    assert_eq!(parse_integer(b"+12", false, 0, 255), Some(12));
    assert_eq!(parse_integer(b"+12", true, -128, 127), Some(12));
    assert_eq!(parse_integer(b"-12", true, -128, 127), Some(-12));
    assert_eq!(parse_integer(b"-128", true, -128, 127), Some(-128));
    assert_eq!(parse_integer(b"-129", true, -128, 127), None);
    assert_eq!(parse_integer(b"128", true, -128, 127), None);
    assert_eq!(parse_integer(b"-0", true, -128, 127), Some(0));
    assert_eq!(parse_integer(b"-12", false, -128, 127), None);
}

#[test]
fn malformed_text_denotes_nothing() {
    assert_eq!(parse_integer(b"", true, -128, 127), None);
    assert_eq!(parse_integer(b"+", true, -128, 127), None);
    assert_eq!(parse_integer(b"-", true, -128, 127), None);
    assert_eq!(parse_integer(b"--1", true, -128, 127), None);
    assert_eq!(parse_integer(b"+-1", true, -128, 127), None);
    assert_eq!(parse_integer(b"1 ", true, -128, 127), None);
    assert_eq!(parse_integer(b" 1", true, -128, 127), None);
    assert_eq!(parse_integer(b"1.0", true, -128, 127), None);
    assert_eq!(parse_integer(b"1e3", true, -128, 127), None);
    assert_eq!(parse_integer(b"12a", true, -128, 127), None);
    assert_eq!(parse_integer(b"T", true, -128, 127), None);
}

#[test]
fn the_whole_range_of_bounds_is_served() {
    let max = i128::MAX.to_string();
    let min = i128::MIN.to_string();
    assert_eq!(parse_integer(max.as_bytes(), true, i128::MIN, i128::MAX), Some(i128::MAX));
    assert_eq!(parse_integer(min.as_bytes(), true, i128::MIN, i128::MAX), Some(i128::MIN));
    assert_eq!(
        parse_integer(b"170141183460469231731687303715884105728", true, i128::MIN, i128::MAX),
        None
    );
    assert_eq!(
        parse_integer(b"-170141183460469231731687303715884105729", true, i128::MIN, i128::MAX),
        None
    );
    assert_eq!(
        parse_integer(b"99999999999999999999999999999999999999999999", true, i128::MIN, i128::MAX),
        None
    );
    assert_eq!(parse_integer(b"18446744073709551615", false, 0, u64::MAX as i128), Some(u64::MAX as i128));
    assert_eq!(parse_integer(b"18446744073709551616", false, 0, u64::MAX as i128), None);
    assert_eq!(parse_integer(b"5", false, 10, 20), None);
    assert_eq!(parse_integer(b"15", false, 10, 20), Some(15));
}

#[test]
fn agrees_with_the_standard_parser() {
    let texts = [
        "0", "7", "-7", "+7", "127", "128", "-128", "-129", "0127", "-0", "+0", "", "+", "-", "1x",
        "x1", " 1", "1 ", "１", "2147483647", "2147483648", "-2147483648", "-2147483649",
    ];
    for t in texts {
        assert_eq!(
            parse_text(t, true, i8::MIN as i128, i8::MAX as i128),
            t.parse::<i8>().ok().map(|v| v as i128),
            "i8 {:?}",
            t
        );
        assert_eq!(
            parse_text(t, false, 0, u8::MAX as i128),
            t.parse::<u8>().ok().map(|v| v as i128),
            "u8 {:?}",
            t
        );
        assert_eq!(
            parse_text(t, true, i32::MIN as i128, i32::MAX as i128),
            t.parse::<i32>().ok().map(|v| v as i128),
            "i32 {:?}",
            t
        );
        assert_eq!(
            parse_text(t, false, 0, u32::MAX as i128),
            t.parse::<u32>().ok().map(|v| v as i128),
            "u32 {:?}",
            t
        );
    }
}

#[test]
fn text_outside_ascii_denotes_nothing() {
    assert_eq!(parse_text("１２", false, 0, 255), None);
    assert_eq!(parse_text("1é", false, 0, 255), None);
    assert_eq!(parse_text("12", false, 0, 255), Some(12));
}

#[test]
fn numbered_keywords() {
    assert_eq!(indexed_keyword("NAXIS", 1), "NAXIS1");
    assert_eq!(indexed_keyword("NAXIS", 0), "NAXIS0");
    assert_eq!(indexed_keyword("TFORM", 12), "TFORM12");
    assert_eq!(indexed_keyword("TBCOL", 999), "TBCOL999");
    assert_eq!(indexed_keyword("", 4294967295), "4294967295");
    let mut s = String::from("x");
    push_decimal(&mut s, 1050);
    assert_eq!(s, "x1050");
}

#[test]
fn white_space_is_what_ascii_calls_so() {
    for b in 0..=255u8 {
        assert_eq!(is_space_byte(b), b.is_ascii() && (b as char).is_whitespace(), "{}", b);
    }
}

#[test]
fn trimming_leaves_out_white_space_on_both_sides() {
    assert_eq!(trim_bounds(b"  123"), (2, 5));
    assert_eq!(trim_bounds(b"abc"), (0, 3));
    assert_eq!(trim_bounds(b" a b \t\r\n"), (1, 4));
    assert_eq!(trim_bounds(b""), (0, 0));
    let (a, b) = trim_bounds(b"    ");
    assert_eq!(a, b);
    for t in ["  x y  ", "\tq", "z\n", " \x0b\x0c a"] {
        let (a, b) = trim_bounds(t.as_bytes());
        assert_eq!(&t[a..b], t.trim());
    }
}

#[test]
fn ascii_bytes_spell_text() {
    assert!(all_ascii(b"hello"));
    assert!(all_ascii(b""));
    assert!(!all_ascii(&[104, 128]));
    assert!(!all_ascii(&[255]));
    assert_eq!(ascii_string(b"NAXIS1 ~"), "NAXIS1 ~");
    assert_eq!(ascii_string(&[0, 127]), "\0\x7f");
}

#[test]
fn numbers_with_a_fraction() {
    for t in [
        "1", "1.", ".5", "1.5", "+1.5", "-1.5", "1e5", "1E5", "1.5e+10", "1.5E-10", "-.5e0", "0",
        "00012.2500", "inf", "INF", "Inf", "+inf", "-infinity", "Infinity", "nan", "NaN", "-nan",
        "+NaN", "1e0000005", "123456789012345678901234567890", "1.e2",
    ] {
        assert!(check_float_text(t.as_bytes()), "{:?}", t);
        assert!(t.parse::<f64>().is_ok(), "{:?}", t);
    }
    for t in [
        "", "+", "-", ".", "+.", "e5", ".e5", "1e", "1e+", "1e+-5", "1.5.2", "1 ", " 1", "1,5",
        "1.5D+03", "1d5", "infinit", "infinityy", "in", "na", "nane", "1.5f", "0x10", "1_000",
        "++1", "--1", "1e5.5", "1e5e5", "+-1",
    ] {
        assert!(!check_float_text(t.as_bytes()), "{:?}", t);
        assert!(t.parse::<f64>().is_err(), "{:?}", t);
    }
}

#[test]
fn numbers_with_a_fraction_are_what_the_standard_parser_takes() {
    let alphabet = b"019+-.eEinfatyNI ";
    let mut count = 0u32;
    for len in 0..=5usize {
        let mut index = vec![0usize; len];
        loop {
            let text: Vec<u8> = index.iter().map(|&i| alphabet[i]).collect();
            let as_str = std::str::from_utf8(&text).unwrap();
            assert_eq!(
                check_float_text(&text),
                as_str.parse::<f64>().is_ok(),
                "{:?}",
                as_str
            );
            assert_eq!(
                check_float_text(&text),
                as_str.parse::<f32>().is_ok(),
                "{:?}",
                as_str
            );
            count += 1;
            let mut k = 0;
            while k < len {
                index[k] += 1;
                if index[k] < alphabet.len() {
                    break;
                }
                index[k] = 0;
                k += 1;
            }
            if k == len {
                break;
            }
        }
    }
    assert!(count > 1_000_000);
    for word in ["infinity", "INFINITY", "+Infinity", "-iNfInItY", "infinitY ", "+infinit", "infinityx"] {
        assert_eq!(check_float_text(word.as_bytes()), word.parse::<f64>().is_ok(), "{:?}", word);
    }
    assert!(!check_float_text(&[49, 200]));
}
