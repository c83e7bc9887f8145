use rjoin::fields::SplitLine;

#[test]
fn basics() {
    let s = SplitLine::new("foo\tbar\tbaz".into(), b'\t', vec![1]);
    assert_eq!(s.field(0), "foo".as_bytes());
    assert_eq!(s.field(1), "bar".as_bytes());
    assert_eq!(s.field(2), "baz".as_bytes());
    assert_eq!(s.key(), "bar".as_bytes());

    let t = s.clone();
    assert_eq!(t.field(0), "foo".as_bytes());
    assert_eq!(t.field(1), "bar".as_bytes());
    assert_eq!(t.field(2), "baz".as_bytes());
    assert_eq!(t.key(), "bar".as_bytes());
}

#[test]
fn empty_line_has_no_field() {
    let s = SplitLine::new(Vec::new(), b'\t', vec![0]);
    assert_eq!(s.num_fields(), 0);
    assert_eq!(s.fields(), Vec::<&[u8]>::new());
    assert_eq!(s.keys(), Vec::<&[u8]>::new());
    assert!(!s.has_keys());
}

#[test]
fn line_of_one_delimiter_has_two_empty_fields() {
    let s = SplitLine::new(b"\t".to_vec(), b'\t', vec![0]);
    assert_eq!(s.num_fields(), 2);
    assert_eq!(s.field(0), b"");
    assert_eq!(s.field(1), b"");
}

#[test]
fn delimiters_at_both_ends_and_in_a_row() {
    let s = SplitLine::new(b",a,,b,".to_vec(), b',', vec![1]);
    let expected: Vec<&[u8]> = vec![b"", b"a", b"", b"b", b""];
    assert_eq!(s.fields(), expected);
    assert_eq!(s.num_fields(), 5);
}

#[test]
fn line_without_delimiter_is_one_field() {
    let s = SplitLine::new(b"plain".to_vec(), b'\t', vec![0]);
    assert_eq!(s.num_fields(), 1);
    assert_eq!(s.field(0), b"plain");
    assert_eq!(s.key(), b"plain");
}

#[test]
fn split_is_on_the_configured_delimiter_only() {
    let s = SplitLine::new(b"a\tb;c".to_vec(), b';', vec![0]);
    let expected: Vec<&[u8]> = vec![b"a\tb", b"c"];
    assert_eq!(s.fields(), expected);
}

#[test]
fn keys_come_in_the_order_of_the_indices() {
    let s = SplitLine::new(b"a\tb\tc\td".to_vec(), b'\t', vec![2, 0]);
    let expected: Vec<&[u8]> = vec![b"c", b"a"];
    assert_eq!(s.keys(), expected);
    assert!(s.has_keys());
    assert_eq!(s.key(), b"c");
}

#[test]
fn keys_are_built_anew_on_each_call() {
    let s = SplitLine::new(b"a\tb".to_vec(), b'\t', vec![1]);
    let mut first = s.keys();
    first.clear();
    let expected: Vec<&[u8]> = vec![b"b"];
    assert_eq!(s.keys(), expected);
}

#[test]
fn short_line_has_a_shorter_key() {
    let s = SplitLine::new(b"a\tb".to_vec(), b'\t', vec![0, 5, 1]);
    let expected: Vec<&[u8]> = vec![b"a", b"b"];
    assert_eq!(s.keys(), expected);
    assert!(!s.has_keys());
}

#[test]
fn fields_except_keys_keep_the_order_of_the_line() {
    let s = SplitLine::new(b"a\tb\tc\td".to_vec(), b'\t', vec![2, 0]);
    let expected: Vec<&[u8]> = vec![b"b", b"d"];
    assert_eq!(s.fields_except_keys(), expected);
    assert!(s.is_key_field(0));
    assert!(!s.is_key_field(1));
}

#[test]
fn fields_except_keys_of_a_line_that_is_all_key() {
    let s = SplitLine::new(b"k".to_vec(), b'\t', vec![0]);
    assert_eq!(s.fields_except_keys(), Vec::<&[u8]>::new());
}

#[test]
fn rekey_keeps_line_and_fields() {
    let s = SplitLine::new(b"a\tb\tc".to_vec(), b'\t', vec![0]).rekey(vec![2]);
    assert_eq!(s.num_fields(), 3);
    assert_eq!(s.key(), b"c");
    assert_eq!(s.field(0), b"a");
}

#[test]
fn clone_has_a_line_of_its_own() {
    let s = SplitLine::new(b"x\ty".to_vec(), b'\t', vec![1]);
    let t = s.clone();
    drop(s);
    assert_eq!(t.field(1), b"y");
    assert_eq!(t.num_fields(), 2);
    let keys: Vec<&[u8]> = vec![b"y"];
    assert_eq!(t.keys(), keys);
}

#[test]
fn joining_the_fields_gives_the_line_back() {
    for line in ["a\tb\tc", "\t", "a\t", "\ta", "abc", "a\t\tb"] {
        let s = SplitLine::new(line.as_bytes().to_vec(), b'\t', vec![0]);
        let joined = s.fields().join(&b"\t"[..]);
        assert_eq!(joined, line.as_bytes());
    }
}
