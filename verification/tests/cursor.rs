use rjoin::config::{JoinError, JoinFileConfig, KeyField, Side};
use rjoin::cursor::{copy_indices, lookup_index, same_bytes, CursorState, JoinFile};
use rjoin::fields::SplitLine;

fn side_config(keys: Vec<KeyField>) -> JoinFileConfig {
    JoinFileConfig {
        all: true,
        key_fields: keys,
        filename: String::from("-"),
        missing: String::from("n/a"),
    }
}

fn line(text: &str) -> Option<Vec<u8>> {
    Some(text.as_bytes().to_vec())
}

fn cursor(keys: Vec<KeyField>) -> JoinFile {
    let mut file = JoinFile::new(side_config(keys), b'\t');
    assert_eq!(file.resolve_keys(Side::Left), Ok(()));
    file
}

#[test]
fn fresh_cursor_is_empty() {
    let file = JoinFile::new(side_config(vec![KeyField::Indexed(0)]), b'\t');
    assert!(!file.is_eof());
    assert!(!file.is_printed());
    assert!(file.emits_unmatched());
    assert_eq!(file.num_fields(), 0);
    assert_eq!(file.row().num_fields(), 0);
    assert!(file.header().is_none());
    assert_eq!(file.missing(), b"n/a");
    assert_eq!(file.key_arity(), 0);
}

#[test]
fn first_fill_of_an_empty_input_fails() {
    let mut file = cursor(vec![KeyField::Indexed(0)]);
    assert!(!file.first_fill(None, None));
    assert!(file.is_eof());
}

#[test]
fn first_fill_does_not_look_at_the_second_line_of_an_empty_input() {
    let mut file = cursor(vec![KeyField::Indexed(0)]);
    assert!(!file.first_fill(None, line("stray")));
    assert_eq!(file.row().num_fields(), 0);
}

#[test]
fn first_fill_primes_current_and_lookahead() {
    let mut file = cursor(vec![KeyField::Indexed(0)]);
    assert!(file.first_fill(line("1\ta\tb"), line("2\tc")));
    assert!(!file.is_eof());
    assert!(!file.is_printed());
    assert_eq!(file.row().field(0), b"1");
    assert_eq!(file.next_row().field(0), b"2");
    assert_eq!(file.num_fields(), 3);
}

#[test]
fn first_fill_of_a_single_record_ends_the_input() {
    let mut file = cursor(vec![KeyField::Indexed(0)]);
    assert!(file.first_fill(line("only"), None));
    assert!(file.is_eof());
    assert_eq!(file.row().field(0), b"only");
    assert_eq!(file.num_fields(), 1);
}

#[test]
fn read_line_fills_the_lookahead_only() {
    let mut file = cursor(vec![KeyField::Indexed(0)]);
    assert!(file.read_line(line("x\ty")));
    assert_eq!(file.next_row().num_fields(), 2);
    assert_eq!(file.row().num_fields(), 0);
    assert!(!file.is_eof());
    assert!(!file.read_line(None));
    assert!(file.is_eof());
    assert_eq!(file.next_row().field(0), b"x");
}

#[test]
fn refill_rotates_and_clears_the_emitted_mark() {
    let mut file = cursor(vec![KeyField::Indexed(0)]);
    assert!(file.first_fill(line("1"), line("2")));
    file.mark_emitted();
    assert!(file.is_printed());
    assert!(file.refill(line("3")));
    assert!(!file.is_printed());
    assert_eq!(file.row().field(0), b"2");
    assert_eq!(file.next_row().field(0), b"3");
    assert!(!file.is_eof());
}

#[test]
fn refill_that_finds_the_end_still_reports_a_record() {
    let mut file = cursor(vec![KeyField::Indexed(0)]);
    assert!(file.first_fill(line("1"), line("2")));
    assert!(file.refill(None));
    assert!(file.is_eof());
    assert_eq!(file.row().field(0), b"2");
}

#[test]
fn refill_after_the_end_changes_nothing() {
    let mut file = cursor(vec![KeyField::Indexed(0)]);
    assert!(file.first_fill(line("1"), None));
    file.mark_emitted();
    assert!(!file.refill(line("late")));
    assert!(file.is_eof());
    assert!(file.is_printed());
    assert_eq!(file.row().field(0), b"1");
}

#[test]
fn records_are_split_with_the_resolved_keys() {
    let mut file = cursor(vec![KeyField::Indexed(1), KeyField::Indexed(0)]);
    assert!(file.first_fill(line("a\tb\tc"), None));
    let expected: Vec<&[u8]> = vec![b"b", b"a"];
    assert_eq!(file.row().keys(), expected);
    assert!(file.is_key_field(0));
    assert!(file.is_key_field(1));
    assert!(!file.is_key_field(2));
    assert_eq!(file.key_arity(), 2);
}

#[test]
fn named_keys_resolve_against_the_header() {
    let mut file = JoinFile::new(
        side_config(vec![KeyField::Named(String::from("id")), KeyField::Indexed(0)]),
        b'\t',
    );
    file.read_header(b"name\tid\tid".to_vec());
    assert_eq!(file.resolve_keys(Side::Right), Ok(()));
    assert!(file.first_fill(line("n\t7\t8"), None));
    let expected: Vec<&[u8]> = vec![b"7", b"n"];
    assert_eq!(file.row().keys(), expected);
    let header: Vec<&[u8]> = vec![b"id", b"name"];
    assert_eq!(file.header().unwrap().keys(), header);
}

#[test]
fn named_key_without_header_does_not_resolve() {
    let mut file = JoinFile::new(side_config(vec![KeyField::Named(String::from("id"))]), b'\t');
    assert_eq!(file.resolve_keys(Side::Left), Err(JoinError::NamedWithoutHeader));
    assert_eq!(file.key_arity(), 0);
}

#[test]
fn named_key_that_the_header_lacks_does_not_resolve() {
    let mut file = JoinFile::new(side_config(vec![KeyField::Named(String::from("id"))]), b'\t');
    file.read_header(b"a\tb".to_vec());
    assert_eq!(file.resolve_keys(Side::Right), Err(JoinError::UnknownColumn(Side::Right)));
    assert_eq!(file.resolve_keys(Side::Left), Err(JoinError::UnknownColumn(Side::Left)));
}

#[test]
fn lookup_index_finds_the_first_column_of_that_name() {
    let header = SplitLine::new(b"a\tb\tc\tb".to_vec(), b'\t', vec![]);
    assert_eq!(lookup_index("a", &header), Some(0));
    assert_eq!(lookup_index("b", &header), Some(1));
    assert_eq!(lookup_index("c", &header), Some(2));
    assert_eq!(lookup_index("d", &header), None);
    assert_eq!(lookup_index("", &header), None);
    assert_eq!(lookup_index("B", &header), None);
}

#[test]
fn lookup_index_compares_names_byte_by_byte() {
    let header = SplitLine::new("größe\tgrösse".as_bytes().to_vec(), b'\t', vec![]);
    assert_eq!(lookup_index("grösse", &header), Some(1));
    assert_eq!(lookup_index("größe", &header), Some(0));
}

#[test]
fn same_bytes_is_equality() {
    assert!(same_bytes(b"abc", b"abc"));
    assert!(!same_bytes(b"abc", b"abd"));
    assert!(!same_bytes(b"abc", b"ab"));
    assert!(same_bytes(b"", b""));
}

#[test]
fn copy_indices_copies() {
    assert_eq!(copy_indices(&vec![3, 1, 2]), vec![3, 1, 2]);
    assert_eq!(copy_indices(&vec![]), Vec::<usize>::new());
}

#[test]
fn cursor_goes_from_empty_to_primed_to_advancing_to_exhausted() {
    let mut file = cursor(vec![KeyField::Indexed(0)]);
    assert_eq!(file.state(), CursorState::Empty);
    assert!(file.first_fill(line("1"), line("2")));
    assert_eq!(file.state(), CursorState::Primed);
    file.mark_emitted();
    assert_eq!(file.state(), CursorState::Primed);
    assert!(file.refill(line("3")));
    assert_eq!(file.state(), CursorState::Advancing);
    assert!(file.refill(line("4")));
    assert_eq!(file.state(), CursorState::Advancing);
    assert!(file.refill(None));
    assert_eq!(file.state(), CursorState::Exhausted);
    assert_eq!(file.row().field(0), b"4");
    assert!(!file.refill(None));
    assert_eq!(file.state(), CursorState::Exhausted);
}

#[test]
fn cursor_over_one_record_is_exhausted_once_primed() {
    let mut file = cursor(vec![KeyField::Indexed(0)]);
    assert!(file.first_fill(line("1"), None));
    assert_eq!(file.state(), CursorState::Exhausted);
}

#[test]
fn cursor_over_no_record_stays_empty() {
    let mut file = cursor(vec![KeyField::Indexed(0)]);
    assert!(!file.first_fill(None, None));
    assert_eq!(file.state(), CursorState::Empty);
    assert!(file.is_eof());
}
