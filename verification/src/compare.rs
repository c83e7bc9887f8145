//! Three-way comparison of composite keys.

use std::cmp::Ordering;
use vstd::prelude::*;
use crate::fields::{views, SplitLine};
use crate::order::{rank_keys, rank_of_keys, Rank};

verus! {

/// The rank that an `Ordering` stands for.
pub open spec fn ordering_rank(o: Ordering) -> Rank {
    match o {
        Ordering::Less => Rank::Less,
        Ordering::Equal => Rank::Equal,
        Ordering::Greater => Rank::Greater,
    }
}

/// Compares two keys field by field, each field byte by byte. The first
/// pair of fields that differ decides; a key with fewer fields is never
/// equal to a longer one and comes before it.
pub fn compare_keys(left: &Vec<&[u8]>, right: &Vec<&[u8]>) -> (o: Ordering)
    ensures
        ordering_rank(o) == rank_keys(views(left@), views(right@)),
{
    match rank_of_keys(left, right) {
        Rank::Less => Ordering::Less,
        Rank::Equal => Ordering::Equal,
        Rank::Greater => Ordering::Greater,
    }
}

/// How the key of `left` stands to the key of `right`.
pub fn rank_rows(left: &SplitLine, right: &SplitLine) -> (r: Rank)
    ensures
        r == rank_keys(left@.keys(), right@.keys()),
{
    let left_keys = left.keys();
    let right_keys = right.keys();
    match compare_keys(&left_keys, &right_keys) {
        Ordering::Less => Rank::Less,
        Ordering::Equal => Rank::Equal,
        Ordering::Greater => Rank::Greater,
    }
}

} // verus!
