use trebuchet::spelling::{spelling, spelling_table};
use trebuchet::text::chars_of;
use trebuchet::{calibration_total, find_digit, parse_line, CalibrationError};

#[test]
fn test_line_parsing() {
    let res = parse_line("46threevqs8114");
    assert_eq!(res, Ok(44));
    let res = parse_line("threetwoonez1gtrd");
    assert_eq!(res, Ok(31));
    let res = parse_line("a1b2c3d");
    assert_eq!(res, Ok(13));
    let res = parse_line("two1nine");
    assert_eq!(res, Ok(29));
    let res = parse_line("eightwothree");
    assert_eq!(res, Ok(83));
    let res = parse_line("abcone2threexyz");
    assert_eq!(res, Ok(13));
    let res = parse_line("xtwone3four");
    assert_eq!(res, Ok(24));
    let res = parse_line("4nineeightseven2");
    assert_eq!(res, Ok(42));
    let res = parse_line("zoneight234");
    assert_eq!(res, Ok(14));
    let res = parse_line("7pqrstsixteen}");
    assert_eq!(res, Ok(76));
}

#[test]
fn literal_digits_only() {
    assert_eq!(parse_line("pqr3stu8vwx"), Ok(38));
    assert_eq!(parse_line("1abc2"), Ok(12));
    assert_eq!(parse_line("0x90"), Ok(0));
}

#[test]
fn overlapping_spellings_are_both_found() {
    assert_eq!(parse_line("eightwo"), Ok(82));
    assert_eq!(parse_line("twone"), Ok(21));
    assert_eq!(parse_line("oneight"), Ok(18));
    assert_eq!(parse_line("sevenine"), Ok(79));
    assert_eq!(parse_line("zerone"), Ok(1));
}

#[test]
fn same_line_same_value() {
    let line = "xtwone3four";
    assert_eq!(parse_line(line), parse_line(line));
    assert_eq!(find_digit(line, true), find_digit(line, true));
}

#[test]
fn single_token_is_doubled() {
    assert_eq!(parse_line("treb7uchet"), Ok(77));
    assert_eq!(parse_line("five"), Ok(55));
    assert_eq!(parse_line("xxzeroxx"), Ok(0));
    assert_eq!(parse_line("9"), Ok(99));
}

#[test]
fn line_without_digit_is_an_error() {
    assert_eq!(parse_line("abcdef"), Err(CalibrationError::NoDigitFound));
    assert_eq!(parse_line(""), Err(CalibrationError::NoDigitFound));
    assert_eq!(parse_line("fiv nin sevem"), Err(CalibrationError::NoDigitFound));
}

#[test]
fn non_ascii_characters_are_skipped() {
    assert_eq!(parse_line("é1ü"), Ok(11));
    assert_eq!(parse_line("ñtwoé3ß"), Ok(23));
}

#[test]
fn find_digit_first_and_last() {
    assert_eq!(find_digit("xtwone3four", true), Some('2'));
    assert_eq!(find_digit("xtwone3four", false), Some('4'));
    assert_eq!(find_digit("zoneight234", true), Some('1'));
    assert_eq!(find_digit("zoneight234", false), Some('4'));
    assert_eq!(find_digit("eightwo", false), Some('2'));
    assert_eq!(find_digit("nothing", true), None);
    assert_eq!(find_digit("nothing", false), None);
}

#[test]
fn total_is_sum_of_lines_in_order() {
    let lines: Vec<String> = vec![
        "two1nine".to_string(),
        "eightwothree".to_string(),
        "abcone2threexyz".to_string(),
        "xtwone3four".to_string(),
        "4nineeightseven2".to_string(),
        "zoneight234".to_string(),
        "7pqrstsixteen".to_string(),
    ];
    assert_eq!(calibration_total(&lines), Ok(281));
    let lines: Vec<String> = vec![
        "1abc2".to_string(),
        "pqr3stu8vwx".to_string(),
        "a1b2c3d4e5f".to_string(),
        "treb7uchet".to_string(),
    ];
    assert_eq!(calibration_total(&lines), Ok(142));
}

#[test]
fn total_of_no_lines_is_zero() {
    let lines: Vec<String> = Vec::new();
    assert_eq!(calibration_total(&lines), Ok(0));
}

#[test]
fn total_fails_on_a_line_without_digit() {
    let lines: Vec<String> = vec!["1abc2".to_string(), "xyz".to_string(), "7".to_string()];
    assert_eq!(calibration_total(&lines), Err(CalibrationError::NoDigitFound));
}

#[test]
fn spellings_of_digits() {
    assert_eq!(spelling(3), vec!['t', 'h', 'r', 'e', 'e']);
    assert_eq!(spelling(0), vec!['z', 'e', 'r', 'o']);
    let table = spelling_table();
    assert_eq!(table.len(), 10);
    assert_eq!(table[9], vec!['n', 'i', 'n', 'e']);
}

#[test]
fn characters_of_a_line() {
    assert_eq!(chars_of("aé1"), vec!['a', 'é', '1']);
    assert_eq!(chars_of(""), Vec::<char>::new());
}
