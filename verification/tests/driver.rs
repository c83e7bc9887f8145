use rjoin::config::{JoinConfig, JoinFileConfig, KeyField, OutputField, OutputOrder};
use rjoin::cursor::JoinFile;
use rjoin::driver::{smart_refill, Joiner, Opening};
use rjoin::join::join;
use rjoin::merge::Advance;
use rjoin::Side;

fn bytes(rows: &[&str]) -> Vec<Vec<u8>> {
    rows.iter().map(|r| r.as_bytes().to_vec()).collect()
}

fn side(all: bool) -> JoinFileConfig {
    JoinFileConfig {
        all,
        key_fields: vec![KeyField::Indexed(0)],
        filename: String::new(),
        missing: String::from("-"),
    }
}

fn config(left_all: bool, right_all: bool, has_header: bool) -> JoinConfig {
    JoinConfig {
        left: side(left_all),
        right: side(right_all),
        output: OutputOrder::Explicit(vec![
            OutputField::JoinField,
            OutputField::FileField { file: 1, field: 1 },
            OutputField::FileField { file: 2, field: 1 },
        ]),
        delim: String::from("\t"),
        has_header,
    }
}

fn stream(config: JoinConfig, left: &[&str], right: &[&str]) -> (Vec<Vec<u8>>, usize, usize) {
    let has_header = config.has_header;
    let mut left_lines = bytes(left).into_iter();
    let mut right_lines = bytes(right).into_iter();
    let mut left_reads = 0;
    let mut right_reads = 0;
    let mut open = |lines: &mut std::vec::IntoIter<Vec<u8>>, reads: &mut usize| {
        let header = if has_header {
            *reads += 1;
            lines.next()
        } else {
            None
        };
        *reads += 1;
        let first = lines.next();
        let second = if first.is_some() {
            *reads += 1;
            lines.next()
        } else {
            None
        };
        Opening { header, first, second }
    };
    let left_opening = open(&mut left_lines, &mut left_reads);
    let right_opening = open(&mut right_lines, &mut right_reads);
    let (mut joiner, mut rows) = Joiner::start(config, left_opening, right_opening).unwrap();
    loop {
        let (want_left, want_right) = joiner.wants();
        if !want_left && !want_right {
            break;
        }
        let l = if want_left {
            left_reads += 1;
            left_lines.next()
        } else {
            None
        };
        let r = if want_right {
            right_reads += 1;
            right_lines.next()
        } else {
            None
        };
        rows.extend(joiner.feed(l, r));
    }
    (rows, left_reads, right_reads)
}

fn cursor(rows: &[&str]) -> JoinFile {
    let mut file = JoinFile::new(side(false), b'\t');
    assert_eq!(file.resolve_keys(Side::Left), Ok(()));
    let mut lines = bytes(rows).into_iter();
    let first = lines.next();
    let second = lines.next();
    assert!(file.first_fill(first, second));
    file
}

#[test]
fn smart_refill_advances_the_side_whose_lookahead_is_smaller() {
    assert_eq!(smart_refill(&cursor(&["1", "1"]), &cursor(&["1", "2"])), Advance::Left);
    assert_eq!(smart_refill(&cursor(&["1", "2"]), &cursor(&["1", "1"])), Advance::Right);
}

#[test]
fn smart_refill_advances_both_on_equal_lookahead() {
    assert_eq!(smart_refill(&cursor(&["1", "2"]), &cursor(&["1", "2"])), Advance::Both);
}

#[test]
fn smart_refill_advances_the_side_that_has_not_ended() {
    assert_eq!(smart_refill(&cursor(&["1"]), &cursor(&["1", "0"])), Advance::Right);
    assert_eq!(smart_refill(&cursor(&["1", "0"]), &cursor(&["1"])), Advance::Left);
    assert_eq!(smart_refill(&cursor(&["1"]), &cursor(&["1"])), Advance::Stop);
}

#[test]
fn streaming_gives_the_rows_of_the_join_in_memory() {
    let cases: Vec<(Vec<&str>, Vec<&str>)> = vec![
        (vec!["1\tA", "2\tB", "2\tC"], vec!["2\tX", "3\tY"]),
        (vec!["1\tA"], vec!["1\tX"]),
        (vec!["1\tA", "3\tB", "5\tC"], vec!["2\tX", "3\tY", "4\tZ", "6\tW"]),
        (vec!["1\tA", "1\tB"], vec!["1\tX", "1\tY", "2\tZ"]),
        (vec!["9\tA"], vec!["1\tX", "2\tY", "3\tZ"]),
        (vec!["1\tA", "2\tB", "3\tC"], vec!["9\tX"]),
    ];
    for (left, right) in cases {
        for (left_all, right_all) in [(false, false), (true, false), (false, true), (true, true)] {
            let (rows, _, _) = stream(config(left_all, right_all, false), &left, &right);
            let expected =
                join(config(left_all, right_all, false), &bytes(&left), &bytes(&right)).unwrap();
            assert_eq!(rows, expected);
        }
    }
}

#[test]
fn streaming_with_header_gives_the_rows_of_the_join_in_memory() {
    let left = ["id\tname", "1\tA", "2\tB"];
    let right = ["id\tcity", "2\tX", "3\tY"];
    let (rows, _, _) = stream(config(true, true, true), &left, &right);
    assert_eq!(rows, join(config(true, true, true), &bytes(&left), &bytes(&right)).unwrap());
    assert_eq!(rows, bytes(&["id\tname\tcity", "1\tA\t-", "2\tB\tX", "3\t-\tY"]));
}

#[test]
fn driver_reads_one_line_ahead_while_it_merges() {
    let open = |first: &str, second: &str| Opening {
        header: None,
        first: Some(first.as_bytes().to_vec()),
        second: Some(second.as_bytes().to_vec()),
    };
    let (mut joiner, rows) =
        Joiner::start(config(false, false, false), open("1\tA", "2\tB"), open("1\tX", "2\tY"))
            .unwrap();
    assert_eq!(rows, bytes(&["1\tA\tX"]));
    assert_eq!(joiner.wants(), (true, true));
    let rows = joiner.feed(Some(b"3\tC".to_vec()), None);
    assert_eq!(rows, bytes(&["2\tB\tY"]));
    assert_eq!(joiner.wants(), (true, false));
}

#[test]
fn driver_drains_in_silence_the_side_that_emits_no_unmatched_rows() {
    let left = ["1\tA", "2\tB", "3\tC", "4\tD", "5\tE"];
    let right = ["1\tX", "2\tY"];
    let (rows, left_reads, right_reads) = stream(config(false, false, false), &left, &right);
    assert_eq!(rows, bytes(&["1\tA\tX", "2\tB\tY"]));
    assert_eq!(right_reads, 3);
    assert_eq!(left_reads, 6);
}

#[test]
fn driver_drains_the_side_that_emits_unmatched_rows() {
    let left = ["1\tA", "2\tB", "3\tC", "4\tD"];
    let right = ["1\tX"];
    let (rows, left_reads, _) = stream(config(true, false, false), &left, &right);
    assert_eq!(rows, bytes(&["1\tA\tX", "2\tB\t-", "3\tC\t-", "4\tD\t-"]));
    assert_eq!(left_reads, 5);
}

#[test]
fn driver_that_is_done_wants_nothing_and_emits_nothing() {
    let open = |line: &str| Opening {
        header: None,
        first: Some(line.as_bytes().to_vec()),
        second: None,
    };
    let (mut joiner, rows) =
        Joiner::start(config(true, true, false), open("1\tA"), open("1\tX")).unwrap();
    assert_eq!(rows, bytes(&["1\tA\tX"]));
    assert_eq!(joiner.wants(), (false, false));
    assert_eq!(
        joiner.feed(Some(b"2\tB".to_vec()), Some(b"2\tY".to_vec())),
        Vec::<Vec<u8>>::new()
    );
    assert_eq!(joiner.wants(), (false, false));
}

#[test]
fn driver_does_not_look_at_a_line_it_did_not_want() {
    let open = |first: &str, second: &str| Opening {
        header: None,
        first: Some(first.as_bytes().to_vec()),
        second: Some(second.as_bytes().to_vec()),
    };
    let (mut joiner, rows) =
        Joiner::start(config(false, false, false), open("1\tA", "3\tB"), open("2\tX", "3\tY"))
            .unwrap();
    assert_eq!(rows, Vec::<Vec<u8>>::new());
    assert_eq!(joiner.wants(), (true, false));
    let rows = joiner.feed(None, Some(b"0\tstray".to_vec()));
    assert_eq!(rows, Vec::<Vec<u8>>::new());
    assert_eq!(joiner.wants(), (false, true));
    let rows = joiner.feed(Some(b"0\tstray".to_vec()), None);
    assert_eq!(rows, bytes(&["3\tB\tY"]));
    assert_eq!(joiner.wants(), (false, false));
}
