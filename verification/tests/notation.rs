use taquin_rust::notation::{is_blank, parse_number, parse_numbers, split_fields, write_number};

fn chars(text: &str) -> Vec<char> {
    text.chars().collect()
}

#[test]
fn split_fields_cuts_at_each_comma() {
    assert_eq!(split_fields("1,2,3"), vec![chars("1"), chars("2"), chars("3")]);
    assert_eq!(split_fields(""), vec![chars("")]);
    assert_eq!(split_fields(","), vec![chars(""), chars("")]);
    assert_eq!(split_fields(" a ,,b"), vec![chars(" a "), chars(""), chars("b")]);
}

#[test]
fn parse_number_reads_a_byte() {
    assert_eq!(parse_number(&chars("0")), Some(0));
    assert_eq!(parse_number(&chars("255")), Some(255));
    assert_eq!(parse_number(&chars("  12\t")), Some(12));
    assert_eq!(parse_number(&chars("+7")), Some(7));
    assert_eq!(parse_number(&chars("0000000000000000000000042")), Some(42));
    assert_eq!(parse_number(&chars("\u{a0}\u{3000}9\u{2003}")), Some(9));
}

#[test]
fn parse_number_refuses_what_is_no_byte() {
    assert_eq!(parse_number(&chars("")), None);
    assert_eq!(parse_number(&chars("   ")), None);
    assert_eq!(parse_number(&chars("+")), None);
    assert_eq!(parse_number(&chars("256")), None);
    assert_eq!(parse_number(&chars("99999999999999999999999999")), None);
    assert_eq!(parse_number(&chars("-1")), None);
    assert_eq!(parse_number(&chars("1 2")), None);
    assert_eq!(parse_number(&chars("+ 1")), None);
    assert_eq!(parse_number(&chars("++1")), None);
    assert_eq!(parse_number(&chars("1a")), None);
    assert_eq!(parse_number(&chars("١")), None);
}

#[test]
fn parse_number_agrees_with_the_standard_parser() {
    for text in ["0", "7", "+7", " 7", "7 ", "007", "255", "256", "300", "", "+", "-0", "1,", "٣", "1e1", " + 1"] {
        assert_eq!(parse_number(&chars(text)), text.trim().parse::<u8>().ok(), "{:?}", text);
    }
}

#[test]
fn parse_numbers_reads_a_list() {
    assert_eq!(parse_numbers("5,0,3,  8,1,2,  4,7,6"), Some(vec![5, 0, 3, 8, 1, 2, 4, 7, 6]));
    assert_eq!(parse_numbers("1"), Some(vec![1]));
    assert_eq!(parse_numbers(""), None);
    assert_eq!(parse_numbers("1,,2"), None);
    assert_eq!(parse_numbers("1,2,"), None);
    assert_eq!(parse_numbers("1;2"), None);
}

#[test]
fn blanks_are_the_white_space_characters() {
    for code in 0..0x3100u32 {
        if let Some(c) = char::from_u32(code) {
            assert_eq!(is_blank(c), c.is_whitespace(), "{:?}", c);
        }
    }
}

#[test]
fn write_number_appends_the_decimal_digits() {
    for n in 0..=255u8 {
        let mut text = String::from("n=");
        write_number(&mut text, n);
        assert_eq!(text, format!("n={}", n));
    }
}
