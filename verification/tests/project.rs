use rjoin::config::{JoinError, JoinFileConfig, KeyField, OutputField, OutputOrder, Side};
use rjoin::cursor::JoinFile;
use rjoin::fields::SplitLine;
use rjoin::project::{
    append_bytes, do_header_output, do_output, join_line, render, resolve_order, Column,
    Projection,
};

fn primed(keys: &[usize], missing: &str, header: Option<&str>, first: &str) -> JoinFile {
    let config = JoinFileConfig {
        all: false,
        key_fields: keys.iter().map(|k| KeyField::Indexed(*k)).collect(),
        filename: String::new(),
        missing: String::from(missing),
    };
    let mut file = JoinFile::new(config, b'\t');
    if let Some(h) = header {
        file.read_header(h.as_bytes().to_vec());
    }
    assert_eq!(file.resolve_keys(Side::Left), Ok(()));
    assert!(file.first_fill(Some(first.as_bytes().to_vec()), None));
    file
}

fn projection(columns: Vec<Column>) -> Projection {
    Projection { columns, delim: b'\t' }
}

#[test]
fn join_line_puts_the_delimiter_between_cells() {
    let cells: Vec<&[u8]> = vec![b"a", b"", b"c"];
    assert_eq!(join_line(&cells, b','), b"a,,c");
    let one: Vec<&[u8]> = vec![b"a"];
    assert_eq!(join_line(&one, b','), b"a");
    let none: Vec<&[u8]> = vec![];
    assert_eq!(join_line(&none, b','), b"");
    let empty: Vec<&[u8]> = vec![b"", b""];
    assert_eq!(join_line(&empty, b','), b",");
}

#[test]
fn append_bytes_appends() {
    let mut out = b"ab".to_vec();
    append_bytes(&mut out, b"cd");
    assert_eq!(out, b"abcd");
    append_bytes(&mut out, b"");
    assert_eq!(out, b"abcd");
}

#[test]
fn matched_row_takes_fields_from_both_sides() {
    let mut left = primed(&[0], "L", None, "k\ta\tb");
    let mut right = primed(&[0], "R", None, "k\tx");
    let p = projection(vec![Column::Key, Column::Left(2), Column::Right(1), Column::Left(1)]);
    let line = do_output(&p, &mut left, &mut right, true, true);
    assert_eq!(line, b"k\tb\tx\ta");
    assert!(left.is_printed());
    assert!(right.is_printed());
}

#[test]
fn placeholder_stands_in_every_field_of_the_absent_side() {
    let mut left = primed(&[0], "L", None, "k\ta\tb");
    let mut right = primed(&[0], "R", None, "z\tx\ty");
    let p = projection(vec![
        Column::Right(1),
        Column::Key,
        Column::Left(1),
        Column::Right(0),
        Column::Right(7),
        Column::Left(2),
    ]);
    let line = do_output(&p, &mut left, &mut right, true, false);
    assert_eq!(line, b"R\tk\ta\tR\tR\tb");
    assert!(left.is_printed());
    assert!(!right.is_printed());
    let line = do_output(&p, &mut left, &mut right, false, true);
    assert_eq!(line, b"x\tz\tL\tz\t\tL");
    assert!(right.is_printed());
}

#[test]
fn placeholder_is_not_put_on_a_matched_row() {
    let mut left = primed(&[0], "-", None, "k\t-");
    let mut right = primed(&[0], "-", None, "k");
    let p = projection(vec![Column::Key, Column::Left(1), Column::Left(2), Column::Right(1)]);
    assert_eq!(do_output(&p, &mut left, &mut right, true, true), b"k\t-\t\t");
}

#[test]
fn short_row_gives_an_empty_cell() {
    let mut left = primed(&[0], "L", None, "k");
    let mut right = primed(&[0], "R", None, "k\tx");
    let p = projection(vec![Column::Key, Column::Left(1), Column::Right(1), Column::Right(2)]);
    assert_eq!(do_output(&p, &mut left, &mut right, true, true), b"k\t\tx\t");
}

#[test]
fn composite_key_gives_one_column_for_each_field() {
    let mut left = primed(&[2, 0], "L", None, "a\tx\tb");
    let mut right = primed(&[0, 1], "R", None, "b\ta\ty");
    let p = projection(vec![Column::Left(1), Column::Key, Column::Right(2)]);
    assert_eq!(do_output(&p, &mut left, &mut right, true, true), b"x\tb\ta\ty");
    assert_eq!(do_output(&p, &mut left, &mut right, false, true), b"L\tb\ta\ty");
}

#[test]
fn key_column_may_stand_more_than_once() {
    let mut left = primed(&[0], "", None, "k\ta");
    let mut right = primed(&[0], "", None, "k\tx");
    let p = projection(vec![Column::Key, Column::Left(1), Column::Key]);
    assert_eq!(do_output(&p, &mut left, &mut right, true, true), b"k\ta\tk");
}

#[test]
fn empty_projection_gives_an_empty_line() {
    let mut left = primed(&[0], "", None, "k\ta");
    let mut right = primed(&[0], "", None, "k\tx");
    assert_eq!(do_output(&projection(vec![]), &mut left, &mut right, true, true), b"");
}

#[test]
fn output_delimiter_is_the_configured_one() {
    let left = SplitLine::new(b"k\ta".to_vec(), b'\t', vec![0]);
    let right = SplitLine::new(b"k\tx".to_vec(), b'\t', vec![0]);
    let columns = vec![Column::Key, Column::Left(1), Column::Right(1)];
    assert_eq!(render(&columns, b'|', &left, true, b"", &right, true, b""), b"k|a|x");
}

#[test]
fn header_row_is_the_projection_of_the_header_lines() {
    let left = primed(&[0], "L", Some("id\tname\tage"), "1\tann\t30");
    let right = primed(&[0], "R", Some("key\tcity"), "1\toslo");
    let p = projection(vec![Column::Key, Column::Left(2), Column::Right(1), Column::Right(5)]);
    assert_eq!(do_header_output(&p, &left, &right), b"id\tage\tcity\t");
}

#[test]
fn auto_order_is_key_then_other_fields_of_each_side() {
    let left = primed(&[1], "", None, "a\tk\tb");
    let right = primed(&[0], "", None, "k\tx\ty");
    let expected = vec![
        Column::Key,
        Column::Left(0),
        Column::Left(2),
        Column::Right(1),
        Column::Right(2),
    ];
    assert_eq!(resolve_order(&OutputOrder::Auto, &left, &right), Ok(expected.clone()));
    assert_eq!(resolve_order(&OutputOrder::GnuDefault, &left, &right), Ok(expected));
}

#[test]
fn auto_order_of_inputs_that_are_all_key() {
    let left = primed(&[0], "", None, "k");
    let right = primed(&[0], "", None, "k");
    assert_eq!(resolve_order(&OutputOrder::Auto, &left, &right), Ok(vec![Column::Key]));
}

#[test]
fn explicit_order_resolves_field_by_field() {
    let left = primed(&[0], "", Some("id\tname"), "1\tann");
    let right = primed(&[0], "", Some("id\tcity\tname"), "1\toslo\tx");
    let order = OutputOrder::Explicit(vec![
        OutputField::FileField { file: 2, field: 4 },
        OutputField::JoinField,
        OutputField::NamedFileField { file: 1, field: String::from("name") },
        OutputField::NamedFileField { file: 2, field: String::from("name") },
        OutputField::FileField { file: 1, field: 0 },
    ]);
    assert_eq!(
        resolve_order(&order, &left, &right),
        Ok(vec![
            Column::Right(4),
            Column::Key,
            Column::Left(1),
            Column::Right(2),
            Column::Left(0),
        ])
    );
}

#[test]
fn explicit_order_fails_on_a_file_other_than_1_and_2() {
    let left = primed(&[0], "", None, "1");
    let right = primed(&[0], "", None, "1");
    let order = OutputOrder::Explicit(vec![
        OutputField::JoinField,
        OutputField::FileField { file: 3, field: 0 },
    ]);
    assert_eq!(resolve_order(&order, &left, &right), Err(JoinError::FileNumber));
    let order = OutputOrder::Explicit(vec![OutputField::NamedFileField {
        file: 0,
        field: String::from("x"),
    }]);
    assert_eq!(resolve_order(&order, &left, &right), Err(JoinError::FileNumber));
}

#[test]
fn explicit_order_fails_on_a_name_without_header() {
    let left = primed(&[0], "", None, "1");
    let right = primed(&[0], "", None, "1");
    let order = OutputOrder::Explicit(vec![OutputField::NamedFileField {
        file: 1,
        field: String::from("x"),
    }]);
    assert_eq!(resolve_order(&order, &left, &right), Err(JoinError::NamedWithoutHeader));
}

#[test]
fn explicit_order_fails_on_a_name_that_the_header_lacks() {
    let left = primed(&[0], "", Some("a"), "1");
    let right = primed(&[0], "", Some("b"), "1");
    let order = OutputOrder::Explicit(vec![OutputField::NamedFileField {
        file: 1,
        field: String::from("b"),
    }]);
    assert_eq!(resolve_order(&order, &left, &right), Err(JoinError::UnknownColumn(Side::Left)));
    let order = OutputOrder::Explicit(vec![OutputField::NamedFileField {
        file: 2,
        field: String::from("a"),
    }]);
    assert_eq!(resolve_order(&order, &left, &right), Err(JoinError::UnknownColumn(Side::Right)));
}

#[test]
fn explicit_order_reports_the_first_field_that_fails() {
    let left = primed(&[0], "", None, "1");
    let right = primed(&[0], "", None, "1");
    let order = OutputOrder::Explicit(vec![
        OutputField::NamedFileField { file: 1, field: String::from("x") },
        OutputField::FileField { file: 9, field: 0 },
    ]);
    assert_eq!(resolve_order(&order, &left, &right), Err(JoinError::NamedWithoutHeader));
}
