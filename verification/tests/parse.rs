use rjoin::config::{KeyField, OutputField, OutputOrder};
use rjoin::parse::{
    chars_of, file_number, is_space_char, is_word, parse_key_fields, parse_number,
    parse_output_field_file, parse_output_fields, split_range, trim_range, ParseError,
};
use rjoin::setup::{setup, Args};

fn chars(text: &str) -> Vec<char> {
    text.chars().collect()
}

fn number(text: &str) -> Option<usize> {
    let c = chars(text);
    parse_number(&c, 0, c.len())
}

fn named(name: &str) -> KeyField {
    KeyField::Named(String::from(name))
}

fn file_field(file: usize, field: usize) -> OutputField {
    OutputField::FileField { file, field }
}

fn args(left_file: &str, right_file: &str) -> Args {
    Args {
        left_field: None,
        right_field: None,
        join_field: None,
        left_all: false,
        right_all: false,
        outer: false,
        left_file: String::from(left_file),
        right_file: String::from(right_file),
        left_missing: None,
        right_missing: None,
        output: None,
        delim: None,
        header: false,
    }
}

#[test]
fn chars_of_gives_the_characters() {
    assert_eq!(chars_of("aé√"), vec!['a', 'é', '√']);
    assert_eq!(chars_of(""), Vec::<char>::new());
}

#[test]
fn white_space_is_what_the_standard_library_calls_white_space() {
    for n in 0..=0x10FFFFu32 {
        if let Some(c) = char::from_u32(n) {
            assert_eq!(is_space_char(c), c.is_whitespace());
        }
    }
}

#[test]
fn trim_range_agrees_with_trim() {
    for text in ["", " ", "a", " a", "a ", "  a b \t", "\u{a0}x\u{3000}", "\n\r x", " \u{200b} "] {
        let c = chars(text);
        let (a, b) = trim_range(&c, 0, c.len());
        let trimmed: String = c[a..b].iter().collect();
        assert_eq!(trimmed, text.trim());
    }
    let c = chars("ab  cd  ef");
    assert_eq!(trim_range(&c, 2, 8), (4, 6));
    assert_eq!(trim_range(&c, 2, 4), (4, 4));
}

#[test]
fn parse_number_agrees_with_the_standard_library() {
    for text in [
        "0", "1", "42", "007", "+5", "+", "", "-1", "1 ", " 1", "1_0", "12a", "++1", "1+", "٣",
        "18446744073709551615", "18446744073709551616", "99999999999999999999999", "+0",
        "00000000000000000000000000001",
    ] {
        assert_eq!(number(text), text.parse::<usize>().ok());
    }
    assert_eq!(number(&usize::MAX.to_string()), Some(usize::MAX));
    assert_eq!(number("42"), Some(42));
}

#[test]
fn parse_number_reads_the_given_range_only() {
    let c = chars("ab123cd");
    assert_eq!(parse_number(&c, 2, 5), Some(123));
    assert_eq!(parse_number(&c, 2, 6), None);
    assert_eq!(parse_number(&c, 3, 3), None);
}

#[test]
fn split_range_agrees_with_split() {
    for text in ["", ",", "a", "a,b", ",a,,b,", "a,b,c"] {
        let c = chars(text);
        let pieces: Vec<String> =
            split_range(&c, 0, c.len(), ',').iter().map(|(a, b)| c[*a..*b].iter().collect()).collect();
        let expected: Vec<String> = text.split(',').map(String::from).collect();
        assert_eq!(pieces, expected);
    }
    let c = chars("x.a-b.y");
    assert_eq!(split_range(&c, 2, 5, '-'), vec![(2, 3), (4, 5)]);
}

#[test]
fn is_word_compares_the_range() {
    let c = chars("an auto x");
    assert!(is_word(&c, 3, 7, "auto"));
    assert!(!is_word(&c, 3, 8, "auto"));
    assert!(!is_word(&c, 2, 6, "auto"));
    assert!(is_word(&c, 3, 3, ""));
}

#[test]
fn key_fields_by_number_count_from_1() {
    assert_eq!(parse_key_fields("1"), Ok(vec![KeyField::Indexed(0)]));
    assert_eq!(
        parse_key_fields("3,1,2"),
        Ok(vec![KeyField::Indexed(2), KeyField::Indexed(0), KeyField::Indexed(1)])
    );
    assert_eq!(parse_key_fields(" 2 ,\t+7"), Ok(vec![KeyField::Indexed(1), KeyField::Indexed(6)]));
}

#[test]
fn key_field_0_is_an_error() {
    assert_eq!(parse_key_fields("0"), Err(ParseError::ColumnNumber));
    assert_eq!(parse_key_fields("1,0,x"), Err(ParseError::ColumnNumber));
    assert_eq!(parse_key_fields("x, 00 "), Err(ParseError::ColumnNumber));
}

#[test]
fn key_fields_that_are_no_numbers_are_names() {
    assert_eq!(parse_key_fields("id"), Ok(vec![named("id")]));
    assert_eq!(parse_key_fields(" user id ,2"), Ok(vec![named("user id"), KeyField::Indexed(1)]));
    assert_eq!(parse_key_fields("-1"), Ok(vec![named("-1")]));
    assert_eq!(parse_key_fields("1.5,größe"), Ok(vec![named("1.5"), named("größe")]));
    assert_eq!(parse_key_fields(""), Ok(vec![named("")]));
    assert_eq!(parse_key_fields("a,,b"), Ok(vec![named("a"), named(""), named("b")]));
    assert_eq!(
        parse_key_fields("99999999999999999999999"),
        Ok(vec![named("99999999999999999999999")])
    );
}

#[test]
fn file_is_given_by_number_or_by_word() {
    assert_eq!(parse_output_field_file("1"), Ok(1));
    assert_eq!(parse_output_field_file("2"), Ok(2));
    assert_eq!(parse_output_field_file("l"), Ok(1));
    assert_eq!(parse_output_field_file("left"), Ok(1));
    assert_eq!(parse_output_field_file("r"), Ok(2));
    assert_eq!(parse_output_field_file("right"), Ok(2));
    assert_eq!(parse_output_field_file(" +2 "), Ok(2));
    assert_eq!(parse_output_field_file("01"), Ok(1));
}

#[test]
fn file_word_may_be_in_any_case() {
    assert_eq!(parse_output_field_file("LEFT"), Ok(1));
    assert_eq!(parse_output_field_file(" Right\t"), Ok(2));
    assert_eq!(parse_output_field_file("L"), Ok(1));
    assert_eq!(parse_output_field_file("R"), Ok(2));
}

#[test]
fn file_number_takes_lower_case_only() {
    assert_eq!(file_number("left"), Ok(1));
    assert_eq!(file_number("2"), Ok(2));
    assert_eq!(file_number("LEFT"), Err(ParseError::FileName));
    assert_eq!(file_number(" left"), Err(ParseError::FileName));
    assert_eq!(file_number("3"), Err(ParseError::FileNumber));
}

#[test]
fn file_other_than_1_and_2_is_an_error() {
    assert_eq!(parse_output_field_file("0"), Err(ParseError::FileNumber));
    assert_eq!(parse_output_field_file("3"), Err(ParseError::FileNumber));
    assert_eq!(parse_output_field_file("12"), Err(ParseError::FileNumber));
    assert_eq!(parse_output_field_file("middle"), Err(ParseError::FileName));
    assert_eq!(parse_output_field_file(""), Err(ParseError::FileName));
    assert_eq!(parse_output_field_file("le ft"), Err(ParseError::FileName));
}

#[test]
fn output_order_by_its_name() {
    assert_eq!(parse_output_fields("auto"), Ok(OutputOrder::Auto));
    assert_eq!(parse_output_fields("  auto\n"), Ok(OutputOrder::Auto));
    assert_eq!(parse_output_fields("gnudefault"), Ok(OutputOrder::GnuDefault));
    assert_eq!(parse_output_fields(" gnudefault "), Ok(OutputOrder::GnuDefault));
    assert_eq!(parse_output_fields("Auto"), Err(ParseError::FieldFormat));
}

#[test]
fn output_order_field_by_field() {
    assert_eq!(
        parse_output_fields("0,1.1,1.2,2.1"),
        Ok(OutputOrder::Explicit(vec![
            OutputField::JoinField,
            file_field(1, 0),
            file_field(1, 1),
            file_field(2, 0),
        ]))
    );
    assert_eq!(
        parse_output_fields(" 0 , left.2 , R.+3 "),
        Ok(OutputOrder::Explicit(vec![OutputField::JoinField, file_field(1, 1), file_field(2, 2)]))
    );
}

#[test]
fn output_order_with_a_range_of_columns() {
    assert_eq!(
        parse_output_fields("1.2-4,0,2.7-7"),
        Ok(OutputOrder::Explicit(vec![
            file_field(1, 1),
            file_field(1, 2),
            file_field(1, 3),
            OutputField::JoinField,
            file_field(2, 6),
        ]))
    );
}

#[test]
fn output_order_with_a_named_column() {
    assert_eq!(
        parse_output_fields("l.name,2.a-b-c,1. 2,2.x y "),
        Ok(OutputOrder::Explicit(vec![
            OutputField::NamedFileField { file: 1, field: String::from("name") },
            OutputField::NamedFileField { file: 2, field: String::from("a-b-c") },
            OutputField::NamedFileField { file: 1, field: String::from(" 2") },
            OutputField::NamedFileField { file: 2, field: String::from("x y") },
        ]))
    );
}

#[test]
fn output_field_without_exactly_one_dot_is_an_error() {
    assert_eq!(parse_output_fields("1"), Err(ParseError::FieldFormat));
    assert_eq!(parse_output_fields("1.2.3"), Err(ParseError::FieldFormat));
    assert_eq!(parse_output_fields(""), Err(ParseError::FieldFormat));
    assert_eq!(parse_output_fields("0,,1.1"), Err(ParseError::FieldFormat));
    assert_eq!(parse_output_fields("00"), Err(ParseError::FieldFormat));
}

#[test]
fn output_field_errors() {
    assert_eq!(parse_output_fields("3.1"), Err(ParseError::FileNumber));
    assert_eq!(parse_output_fields("x.1"), Err(ParseError::FileName));
    assert_eq!(parse_output_fields("1.0"), Err(ParseError::ColumnNumber));
    assert_eq!(parse_output_fields("1.0-2"), Err(ParseError::ColumnNumber));
    assert_eq!(parse_output_fields("1.2-0"), Err(ParseError::ColumnNumber));
    assert_eq!(parse_output_fields("1.3-2"), Err(ParseError::RangeOrder));
    assert_eq!(parse_output_fields("1.a-2"), Err(ParseError::RangeBound));
    assert_eq!(parse_output_fields("1.2-b"), Err(ParseError::RangeBound));
    assert_eq!(parse_output_fields("1.-"), Err(ParseError::RangeBound));
    assert_eq!(parse_output_fields("1.2- 3"), Err(ParseError::RangeBound));
}

#[test]
fn output_order_reports_the_first_entry_that_fails() {
    assert_eq!(parse_output_fields("0,3.1,1.0"), Err(ParseError::FileNumber));
    assert_eq!(parse_output_fields("1.0,x.1"), Err(ParseError::ColumnNumber));
    assert_eq!(parse_output_fields("9.0"), Err(ParseError::FileNumber));
}

#[test]
fn parse_error_messages() {
    assert_eq!(
        ParseError::ColumnNumber.message(),
        "output field column number must be greater than 0"
    );
    assert_eq!(
        ParseError::FileNumber.message(),
        "output field file number must be either 1 or 2"
    );
    assert_eq!(ParseError::FileName.message(), "invalid output field");
    assert_eq!(
        ParseError::FieldFormat.message(),
        "output field format must be '0' or 'x.y' where x is the file number and y is the field number"
    );
    assert_eq!(ParseError::RangeBound.message(), "invalid digit found in string");
    assert_eq!(ParseError::RangeOrder.message(), "field range is invalid");
    assert_eq!(ParseError::Delimiter.message(), "delimiter must be a single character");
}

#[test]
fn setup_fills_in_the_defaults() {
    let config = setup(args("a.txt", "-")).unwrap();
    assert_eq!(config.delim, "\t");
    assert!(!config.has_header);
    assert_eq!(config.output, OutputOrder::Auto);
    assert!(!config.left.all);
    assert!(!config.right.all);
    assert_eq!(config.left.key_fields, vec![KeyField::Indexed(0)]);
    assert_eq!(config.right.key_fields, vec![KeyField::Indexed(0)]);
    assert_eq!(config.left.filename, "a.txt");
    assert_eq!(config.right.filename, "-");
    assert_eq!(config.left.missing, "");
    assert_eq!(config.right.missing, "");
}

#[test]
fn setup_takes_the_key_of_each_side_or_the_common_one() {
    let mut a = args("l", "r");
    a.join_field = Some(String::from("2"));
    a.right_field = Some(String::from("id,3"));
    let config = setup(a).unwrap();
    assert_eq!(config.left.key_fields, vec![KeyField::Indexed(1)]);
    assert_eq!(config.right.key_fields, vec![named("id"), KeyField::Indexed(2)]);
}

#[test]
fn setup_outer_sets_both_sides() {
    let mut a = args("l", "r");
    a.outer = true;
    let config = setup(a).unwrap();
    assert!(config.left.all && config.right.all);
    let mut a = args("l", "r");
    a.right_all = true;
    let config = setup(a).unwrap();
    assert!(!config.left.all && config.right.all);
    let mut a = args("l", "r");
    a.left_all = true;
    let config = setup(a).unwrap();
    assert!(config.left.all && !config.right.all);
}

#[test]
fn setup_takes_what_is_given() {
    let mut a = args("l", "r");
    a.delim = Some(String::from(","));
    a.header = true;
    a.left_missing = Some(String::from("NA"));
    a.right_missing = Some(String::from("-"));
    a.output = Some(String::from("0,2.1"));
    let config = setup(a).unwrap();
    assert_eq!(config.delim, ",");
    assert!(config.has_header);
    assert_eq!(config.left.missing, "NA");
    assert_eq!(config.right.missing, "-");
    assert_eq!(
        config.output,
        OutputOrder::Explicit(vec![OutputField::JoinField, file_field(2, 0)])
    );
}

#[test]
fn setup_wants_a_delimiter_of_one_byte() {
    for delim in ["", "ab", "é"] {
        let mut a = args("l", "r");
        a.delim = Some(String::from(delim));
        a.left_field = Some(String::from("0"));
        assert_eq!(setup(a).err(), Some(ParseError::Delimiter));
    }
}

#[test]
fn setup_reports_the_first_text_that_fails() {
    let mut a = args("l", "r");
    a.left_field = Some(String::from("0"));
    a.output = Some(String::from("9.9"));
    assert_eq!(setup(a).err(), Some(ParseError::ColumnNumber));
    let mut a = args("l", "r");
    a.right_field = Some(String::from("1"));
    a.join_field = Some(String::from("0"));
    a.output = Some(String::from("9.9"));
    assert_eq!(setup(a).err(), Some(ParseError::ColumnNumber));
    let mut a = args("l", "r");
    a.output = Some(String::from("9.9"));
    assert_eq!(setup(a).err(), Some(ParseError::FileNumber));
}
