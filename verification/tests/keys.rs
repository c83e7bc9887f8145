use rjoin::compare::{compare_keys, rank_rows};
use rjoin::fields::SplitLine;
use rjoin::order::{rank_of_bytes, rank_of_keys, Rank};
use std::cmp::Ordering;

fn key<'a>(fields: &[&'a str]) -> Vec<&'a [u8]> {
    fields.iter().map(|f| f.as_bytes()).collect()
}

#[test]
fn bytes_rank_by_the_first_difference() {
    assert_eq!(rank_of_bytes(b"abc", b"abd"), Rank::Less);
    assert_eq!(rank_of_bytes(b"abd", b"abc"), Rank::Greater);
    assert_eq!(rank_of_bytes(b"abc", b"abc"), Rank::Equal);
    assert_eq!(rank_of_bytes(b"b", b"abc"), Rank::Greater);
}

#[test]
fn a_prefix_ranks_before_what_extends_it() {
    assert_eq!(rank_of_bytes(b"ab", b"abc"), Rank::Less);
    assert_eq!(rank_of_bytes(b"abc", b"ab"), Rank::Greater);
    assert_eq!(rank_of_bytes(b"", b"a"), Rank::Less);
    assert_eq!(rank_of_bytes(b"", b""), Rank::Equal);
}

#[test]
fn bytes_rank_as_unsigned_values() {
    assert_eq!(rank_of_bytes(&[0x7f], &[0x80]), Rank::Less);
    assert_eq!(rank_of_bytes("z".as_bytes(), "é".as_bytes()), Rank::Less);
    assert_eq!(rank_of_bytes(b"10", b"9"), Rank::Less);
}

#[test]
fn compare_keys_goes_field_by_field() {
    assert_eq!(compare_keys(&key(&["a", "b"]), &key(&["a", "b"])), Ordering::Equal);
    assert_eq!(compare_keys(&key(&["a", "b"]), &key(&["a", "c"])), Ordering::Less);
    assert_eq!(compare_keys(&key(&["a", "c"]), &key(&["a", "b"])), Ordering::Greater);
    assert_eq!(compare_keys(&key(&["b", "a"]), &key(&["a", "z"])), Ordering::Greater);
}

#[test]
fn compare_keys_does_not_run_fields_together() {
    assert_eq!(compare_keys(&key(&["ab", "c"]), &key(&["a", "bc"])), Ordering::Greater);
    assert_eq!(compare_keys(&key(&["a", "bc"]), &key(&["ab", "c"])), Ordering::Less);
}

#[test]
fn a_shorter_key_is_never_equal_to_a_longer_one() {
    assert_eq!(compare_keys(&key(&["a"]), &key(&["a", "b"])), Ordering::Less);
    assert_eq!(compare_keys(&key(&["a", "b"]), &key(&["a"])), Ordering::Greater);
    assert_eq!(compare_keys(&key(&["a"]), &key(&["a", ""])), Ordering::Less);
    assert_eq!(compare_keys(&key(&[]), &key(&[""])), Ordering::Less);
    assert_eq!(compare_keys(&key(&[]), &key(&[])), Ordering::Equal);
}

#[test]
fn rank_of_keys_agrees_with_compare_keys() {
    assert_eq!(rank_of_keys(&key(&["a", "b"]), &key(&["a", "c"])), Rank::Less);
    assert_eq!(rank_of_keys(&key(&["a", "b"]), &key(&["a", "b"])), Rank::Equal);
    assert_eq!(rank_of_keys(&key(&["b"]), &key(&["a", "c"])), Rank::Greater);
}

#[test]
fn rows_rank_by_their_keys() {
    let left = SplitLine::new(b"x\ta\tb".to_vec(), b'\t', vec![1, 2]);
    let right = SplitLine::new(b"a\tb\ty".to_vec(), b'\t', vec![0, 1]);
    assert_eq!(rank_rows(&left, &right), Rank::Equal);
    let other = SplitLine::new(b"a\tc\ty".to_vec(), b'\t', vec![0, 1]);
    assert_eq!(rank_rows(&left, &other), Rank::Less);
    assert_eq!(rank_rows(&other, &left), Rank::Greater);
}

#[test]
fn a_row_without_its_key_field_matches_no_row_that_has_it() {
    let short = SplitLine::new(b"a".to_vec(), b'\t', vec![0, 1]);
    let empty = SplitLine::new(b"a\t".to_vec(), b'\t', vec![0, 1]);
    assert_eq!(rank_rows(&short, &empty), Rank::Less);
    assert_eq!(rank_rows(&empty, &short), Rank::Greater);
}
