use rotom::helpers::{format_parameter_enum, number_from_str, number_to_str, Directive};
use rotom::levelscript::is_levelscript;

#[test]
fn number_from_str_reads_decimal_and_hex() {
    assert_eq!(number_from_str("42"), Ok(42));
    assert_eq!(number_from_str("-17"), Ok(-17));
    assert_eq!(number_from_str("+5"), Ok(5));
    assert_eq!(number_from_str("0x1A"), Ok(26));
    assert_eq!(number_from_str("0xff"), Ok(255));
    assert_eq!(number_from_str("0x0x10"), Ok(16));
    assert_eq!(number_from_str("2147483647"), Ok(i32::MAX));
    assert_eq!(number_from_str("-2147483648"), Ok(i32::MIN));
    assert_eq!(number_from_str("0x7FFFFFFF"), Ok(i32::MAX));
}

#[test]
fn number_from_str_reports_bad_numbers() {
    assert_eq!(
        number_from_str("12a"),
        Err("Invalid decimal number: '12a'".to_string())
    );
    assert_eq!(number_from_str(""), Err("Invalid decimal number: ''".to_string()));
    assert_eq!(
        number_from_str("2147483648"),
        Err("Invalid decimal number: '2147483648'".to_string())
    );
    assert_eq!(number_from_str("0x"), Err("Invalid hex number: '0x'".to_string()));
    assert_eq!(
        number_from_str("0x80000000"),
        Err("Invalid hex number: '0x80000000'".to_string())
    );
    assert_eq!(number_from_str("0xZZ"), Err("Invalid hex number: '0xZZ'".to_string()));
    assert_eq!(number_from_str("-"), Err("Invalid decimal number: '-'".to_string()));
}

#[test]
fn number_to_str_switches_to_hex_above_threshold() {
    assert_eq!(number_to_str(&0), "0");
    assert_eq!(number_to_str(&-3), "-3");
    assert_eq!(number_to_str(&0x4000), "16384");
    assert_eq!(number_to_str(&0x4001), "0x4001");
    assert_eq!(number_to_str(&0x8000), "0x8000");
    assert_eq!(number_to_str(&0xABCD), "0xABCD");
}

#[test]
fn number_round_trips_through_text() {
    for n in [0, 1, -1, 255, 0x4000, 0x4001, 0x7FFF, 0x8000, i32::MAX, -1234] {
        assert_eq!(number_from_str(&number_to_str(&n)), Ok(n));
    }
}

#[test]
fn format_parameter_enum_prefers_decimal_then_hex_key() {
    let entries = vec![
        ("7".to_string(), "SEVEN".to_string()),
        ("0x4001".to_string(), "VAR_HEX".to_string()),
        ("0x000A".to_string(), "TEN".to_string()),
    ];
    assert_eq!(format_parameter_enum(&entries, 7), "SEVEN");
    assert_eq!(format_parameter_enum(&entries, 0x4001), "VAR_HEX");
    assert_eq!(format_parameter_enum(&entries, 10), "TEN");
    assert_eq!(format_parameter_enum(&entries, 11), "11");
    assert_eq!(format_parameter_enum(&entries, 0x5000), "0x5000");
}

#[test]
fn directive_variants_are_distinct() {
    assert_ne!(Directive::Assemble, Directive::Disassemble);
}

#[test]
fn is_levelscript_by_length_and_seventh_byte() {
    assert!(is_levelscript(&vec![0; 8]));
    assert!(is_levelscript(&vec![1, 2, 3]));
    assert!(is_levelscript(&vec![0, 0, 0, 0, 0, 0, 5, 0, 0]));
    assert!(!is_levelscript(&vec![0, 0, 0, 0, 0, 0, 0, 0, 0]));
}

#[test]
fn white_space_matches_the_standard_library() {
    for v in 0u32..=0x10FFFF {
        if let Some(c) = char::from_u32(v) {
            assert_eq!(rotom::text::is_whitespace(c), c.is_whitespace(), "U+{:04X}", v);
        }
    }
}
