//! The order of keys: byte by byte within a field, field by field within a key.

use vstd::prelude::*;
use crate::fields::views;

verus! {

/// How one value stands to another.
#[derive(Clone, Copy, Debug, PartialEq, Eq, Structural)]
pub enum Rank {
    Less,
    Equal,
    Greater,
}

/// The order of two byte strings: the first differing byte decides, and a
/// proper prefix comes before what extends it.
pub open spec fn rank_bytes(a: Seq<u8>, b: Seq<u8>) -> Rank
    decreases a.len(),
{
    if a.len() == 0 {
        if b.len() == 0 {
            Rank::Equal
        } else {
            Rank::Less
        }
    } else if b.len() == 0 {
        Rank::Greater
    } else if a[0] < b[0] {
        Rank::Less
    } else if a[0] > b[0] {
        Rank::Greater
    } else {
        rank_bytes(a.drop_first(), b.drop_first())
    }
}

/// The order of two keys: the first pair of fields that differ decides, and a
/// key that runs out first comes before the longer one.
pub open spec fn rank_keys(a: Seq<Seq<u8>>, b: Seq<Seq<u8>>) -> Rank
    decreases a.len(),
{
    if a.len() == 0 {
        if b.len() == 0 {
            Rank::Equal
        } else {
            Rank::Less
        }
    } else if b.len() == 0 {
        Rank::Greater
    } else {
        match rank_bytes(a[0], b[0]) {
            Rank::Less => Rank::Less,
            Rank::Greater => Rank::Greater,
            Rank::Equal => rank_keys(a.drop_first(), b.drop_first()),
        }
    }
}

/// Two byte strings rank equal exactly when they are the same string.
pub proof fn lemma_rank_bytes_equal(a: Seq<u8>, b: Seq<u8>)
    ensures
        rank_bytes(a, b) == Rank::Equal <==> a == b,
    decreases a.len(),
{
    if a.len() > 0 && b.len() > 0 {
        lemma_rank_bytes_equal(a.drop_first(), b.drop_first());
        if a[0] == b[0] && a.drop_first() == b.drop_first() {
            assert(a =~= seq![a[0]] + a.drop_first());
            assert(b =~= seq![b[0]] + b.drop_first());
        }
    } else if a.len() == 0 && b.len() == 0 {
        assert(a =~= b);
    }
}

/// Swapping the two byte strings swaps `Less` and `Greater`.
pub proof fn lemma_rank_bytes_flip(a: Seq<u8>, b: Seq<u8>)
    ensures
        rank_bytes(a, b) == Rank::Less <==> rank_bytes(b, a) == Rank::Greater,
        rank_bytes(a, b) == Rank::Equal <==> rank_bytes(b, a) == Rank::Equal,
    decreases a.len(),
{
    if a.len() > 0 && b.len() > 0 {
        lemma_rank_bytes_flip(a.drop_first(), b.drop_first());
    }
}

/// The order of byte strings is transitive.
pub proof fn lemma_rank_bytes_trans(a: Seq<u8>, b: Seq<u8>, c: Seq<u8>)
    requires
        rank_bytes(a, b) != Rank::Greater,
        rank_bytes(b, c) != Rank::Greater,
    ensures
        rank_bytes(a, c) != Rank::Greater,
        rank_bytes(a, b) == Rank::Less || rank_bytes(b, c) == Rank::Less ==> rank_bytes(a, c)
            == Rank::Less,
    decreases a.len(),
{
    if a.len() > 0 && b.len() > 0 && c.len() > 0 {
        if a[0] == b[0] && b[0] == c[0] {
            lemma_rank_bytes_trans(a.drop_first(), b.drop_first(), c.drop_first());
        }
    }
}

/// Two keys rank equal exactly when they are the same key.
pub proof fn lemma_rank_keys_equal(a: Seq<Seq<u8>>, b: Seq<Seq<u8>>)
    ensures
        rank_keys(a, b) == Rank::Equal <==> a == b,
    decreases a.len(),
{
    if a.len() > 0 && b.len() > 0 {
        lemma_rank_keys_equal(a.drop_first(), b.drop_first());
        lemma_rank_bytes_equal(a[0], b[0]);
        if a[0] == b[0] && a.drop_first() == b.drop_first() {
            assert(a =~= seq![a[0]] + a.drop_first());
            assert(b =~= seq![b[0]] + b.drop_first());
        }
    } else if a.len() == 0 && b.len() == 0 {
        assert(a =~= b);
    }
}

/// Swapping the two keys swaps `Less` and `Greater`.
pub proof fn lemma_rank_keys_flip(a: Seq<Seq<u8>>, b: Seq<Seq<u8>>)
    ensures
        rank_keys(a, b) == Rank::Less <==> rank_keys(b, a) == Rank::Greater,
        rank_keys(a, b) == Rank::Equal <==> rank_keys(b, a) == Rank::Equal,
    decreases a.len(),
{
    if a.len() > 0 && b.len() > 0 {
        lemma_rank_bytes_flip(a[0], b[0]);
        lemma_rank_bytes_flip(b[0], a[0]);
        lemma_rank_keys_flip(a.drop_first(), b.drop_first());
    }
}

/// The order of keys is transitive.
pub proof fn lemma_rank_keys_trans(a: Seq<Seq<u8>>, b: Seq<Seq<u8>>, c: Seq<Seq<u8>>)
    requires
        rank_keys(a, b) != Rank::Greater,
        rank_keys(b, c) != Rank::Greater,
    ensures
        rank_keys(a, c) != Rank::Greater,
        rank_keys(a, b) == Rank::Less || rank_keys(b, c) == Rank::Less ==> rank_keys(a, c)
            == Rank::Less,
    decreases a.len(),
{
    if a.len() > 0 && b.len() > 0 && c.len() > 0 {
        lemma_rank_bytes_trans(a[0], b[0], c[0]);
        lemma_rank_bytes_equal(a[0], b[0]);
        lemma_rank_bytes_equal(b[0], c[0]);
        lemma_rank_bytes_equal(a[0], c[0]);
        if rank_bytes(a[0], b[0]) == Rank::Equal && rank_bytes(b[0], c[0]) == Rank::Equal {
            lemma_rank_keys_trans(a.drop_first(), b.drop_first(), c.drop_first());
        }
    }
}

/// Ranks two byte strings.
pub fn rank_of_bytes(a: &[u8], b: &[u8]) -> (r: Rank)
    ensures
        r == rank_bytes(a@, b@),
{
    let mut i: usize = 0;
    proof {
        assert(a@.skip(0) =~= a@);
        assert(b@.skip(0) =~= b@);
    }
    while i < a.len() && i < b.len()
        invariant
            i <= a@.len(),
            i <= b@.len(),
            rank_bytes(a@, b@) == rank_bytes(a@.skip(i as int), b@.skip(i as int)),
        decreases a@.len() - i,
    {
        proof {
            assert(a@.skip(i as int).drop_first() =~= a@.skip(i + 1));
            assert(b@.skip(i as int).drop_first() =~= b@.skip(i + 1));
        }
        if a[i] < b[i] {
            return Rank::Less;
        }
        if a[i] > b[i] {
            return Rank::Greater;
        }
        i = i + 1;
    }
    if i < b.len() {
        Rank::Less
    } else if i < a.len() {
        Rank::Greater
    } else {
        Rank::Equal
    }
}

/// Ranks two keys.
pub fn rank_of_keys(a: &Vec<&[u8]>, b: &Vec<&[u8]>) -> (r: Rank)
    ensures
        r == rank_keys(views(a@), views(b@)),
{
    let mut i: usize = 0;
    proof {
        assert(views(a@).skip(0) =~= views(a@));
        assert(views(b@).skip(0) =~= views(b@));
    }
    while i < a.len() && i < b.len()
        invariant
            i <= a@.len(),
            i <= b@.len(),
            rank_keys(views(a@), views(b@)) == rank_keys(
                views(a@).skip(i as int),
                views(b@).skip(i as int),
            ),
        decreases a@.len() - i,
    {
        proof {
            assert(views(a@).skip(i as int).drop_first() =~= views(a@).skip(i + 1));
            assert(views(b@).skip(i as int).drop_first() =~= views(b@).skip(i + 1));
        }
        match rank_of_bytes(a[i], b[i]) {
            Rank::Less => {
                return Rank::Less;
            },
            Rank::Greater => {
                return Rank::Greater;
            },
            Rank::Equal => {},
        }
        i = i + 1;
    }
    if i < b.len() {
        Rank::Less
    } else if i < a.len() {
        Rank::Greater
    } else {
        Rank::Equal
    }
}

} // verus!
