//! What holds of every merge, and what holds of the merge of sorted inputs.

use vstd::prelude::*;
use vstd::seq_lib::{
    lemma_no_dup_in_concat, lemma_seq_concat_contains_all_elements, seq_to_set_is_finite,
};
use vstd::set_lib::{lemma_set_disjoint_lens, lemma_set_subset_finite};
use crate::config::Side;
use crate::merge::{
    advance_after_match, decide, drained, events_at, Advance, Emit, Event, Inputs, Phase, Seat,
};
use crate::order::{
    lemma_rank_keys_equal, lemma_rank_keys_flip, lemma_rank_keys_trans, rank_keys, Rank,
};

verus! {

/// What one comparison can emit: a matched row only for equal keys, a row
/// of one side alone only where that side emits unmatched rows and the
/// record was not emitted yet, and no row twice. A record that is on one
/// of the rows, or was emitted before, counts as emitted afterwards. A
/// cursor is only told to advance where it has a record to advance to.
proof fn lemma_decide_rows(left: Seat, right: Seat)
    ensures
        ({
            let d = decide(left, right);
            &&& d.rows.no_duplicates()
            &&& d.rows.contains(Emit::Both) ==> left.key == right.key
            &&& d.rows.contains(Emit::LeftOnly) ==> left.all && !left.printed
            &&& d.rows.contains(Emit::RightOnly) ==> right.all && !right.printed
            &&& d.rows.contains(Emit::Both) || d.rows.contains(Emit::LeftOnly) || left.printed
                ==> d.left_printed
            &&& d.rows.contains(Emit::Both) || d.rows.contains(Emit::RightOnly) || right.printed
                ==> d.right_printed
            &&& d.phase == Phase::AdvanceLeft || d.phase == Phase::AdvanceBoth || d.phase
                == Phase::DrainLeft ==> left.next is Some
            &&& d.phase == Phase::AdvanceRight || d.phase == Phase::AdvanceBoth || d.phase
                == Phase::DrainRight ==> right.next is Some
        }),
{
    lemma_rank_keys_equal(left.key, right.key);
    let d = decide(left, right);
    assert forall|e: Emit| d.rows.contains(e) implies (e == Emit::Both ==> left.key == right.key)
        && (e == Emit::LeftOnly ==> left.all && !left.printed) && (e == Emit::RightOnly
        ==> right.all && !right.printed) && (e == Emit::Both || e == Emit::LeftOnly
        ==> d.left_printed) && (e == Emit::Both || e == Emit::RightOnly ==> d.right_printed) by {
        let k = choose|k: int| 0 <= k < d.rows.len() && d.rows[k] == e;
    }
}

/// What every event of a merge from `i` and `j` on looks like: a matched
/// pair lies at or after the two positions and has equal keys; a record
/// that is emitted alone belongs to a side that emits unmatched rows, lies
/// at or after its position, and was not emitted before.
pub open spec fn in_shape(inputs: Inputs, i: int, j: int, lp: bool, rp: bool, e: Event) -> bool {
    match e {
        Event::Matched { left, right } => i <= left < inputs.left.len() && j <= right
            < inputs.right.len() && inputs.left[left] == inputs.right[right],
        Event::LeftAlone { left } => inputs.left_all && i <= left < inputs.left.len() && (left == i
            ==> !lp),
        Event::RightAlone { right } => inputs.right_all && j <= right < inputs.right.len() && (right
            == j ==> !rp),
    }
}

/// Every event of a merge has the shape that `in_shape` describes, and no
/// event occurs twice. This holds of all inputs, sorted or not.
pub proof fn lemma_merge_shape(inputs: Inputs, i: int, j: int, lp: bool, rp: bool)
    requires
        0 <= i < inputs.left.len(),
        0 <= j < inputs.right.len(),
    ensures
        forall|e: Event| #[trigger]
            inputs.merge_from(i, j, lp, rp).contains(e) ==> in_shape(inputs, i, j, lp, rp, e),
        inputs.merge_from(i, j, lp, rp).no_duplicates(),
    decreases inputs.left.len() - i + inputs.right.len() - j,
{
    let left = inputs.left_seat(i, lp);
    let right = inputs.right_seat(j, rp);
    let d = decide(left, right);
    let head = events_at(d.rows, i, j);
    let tail = inputs.after(d.phase, i, j, d.left_printed, d.right_printed);
    lemma_decide_rows(left, right);
    assert forall|e: Event| head.contains(e) implies in_shape(inputs, i, j, lp, rp, e) && (e
        == Event::Matched { left: i, right: j } || e == Event::LeftAlone { left: i } || e
        == Event::RightAlone { right: j }) && (e == Event::LeftAlone { left: i } || e
        == Event::Matched { left: i, right: j } ==> d.left_printed) && (e == Event::RightAlone {
        right: j,
    } || e == Event::Matched { left: i, right: j } ==> d.right_printed) by {
        let k = choose|k: int| 0 <= k < head.len() && head[k] == e;
        assert(d.rows.contains(d.rows[k]));
    }
    assert(head.no_duplicates()) by {
        assert forall|a: int, b: int| 0 <= a < head.len() && 0 <= b < head.len() && a
            != b implies head[a] != head[b] by {
            assert(d.rows[a] != d.rows[b]);
        }
    }
    match d.phase {
        Phase::AdvanceLeft => {
            lemma_merge_shape(inputs, i + 1, j, false, d.right_printed);
        },
        Phase::AdvanceRight => {
            lemma_merge_shape(inputs, i, j + 1, d.left_printed, false);
        },
        Phase::AdvanceBoth => {
            lemma_merge_shape(inputs, i + 1, j + 1, false, false);
        },
        _ => {},
    }
    assert forall|e: Event| tail.contains(e) implies in_shape(inputs, i, j, lp, rp, e)
        && !head.contains(e) by {
        let k = choose|k: int| 0 <= k < tail.len() && tail[k] == e;
        match d.phase {
            Phase::AdvanceLeft => {
                assert(in_shape(inputs, i + 1, j, false, d.right_printed, e));
            },
            Phase::AdvanceRight => {
                assert(in_shape(inputs, i, j + 1, d.left_printed, false, e));
            },
            Phase::AdvanceBoth => {
                assert(in_shape(inputs, i + 1, j + 1, false, false, e));
            },
            _ => {},
        }
    }
    assert(tail.no_duplicates());
    assert forall|a: int, b: int| 0 <= a < head.len() && 0 <= b < tail.len() implies head[a]
        != tail[b] by {
        assert(head.contains(head[a]));
        assert(tail.contains(tail[b]));
    }
    lemma_no_dup_in_concat(head, tail);
    assert forall|e: Event| #[trigger]
        inputs.merge_from(i, j, lp, rp).contains(e) implies in_shape(inputs, i, j, lp, rp, e) by {
        lemma_seq_concat_contains_all_elements(head, tail, e);
    }
}

/// A comparison that emits a record alone emits no matched row, and does
/// not leave the record where it could be matched afterwards: the cursor of
/// the record advances, or the merge is over.
proof fn lemma_decide_alone(left: Seat, right: Seat)
    ensures
        ({
            let d = decide(left, right);
            &&& d.rows.contains(Emit::LeftOnly) ==> !d.rows.contains(Emit::Both) && d.phase
                != Phase::AdvanceRight && d.phase != Phase::AdvanceBoth
            &&& d.rows.contains(Emit::RightOnly) ==> !d.rows.contains(Emit::Both) && d.phase
                != Phase::AdvanceLeft && d.phase != Phase::AdvanceBoth
        }),
{
    let d = decide(left, right);
    if d.rows.contains(Emit::Both) {
        let k = choose|k: int| 0 <= k < d.rows.len() && d.rows[k] == Emit::Both;
        assert(d.rows =~= seq![Emit::Both]);
        if d.rows.contains(Emit::LeftOnly) {
            let m = choose|m: int| 0 <= m < d.rows.len() && d.rows[m] == Emit::LeftOnly;
        }
        if d.rows.contains(Emit::RightOnly) {
            let m = choose|m: int| 0 <= m < d.rows.len() && d.rows[m] == Emit::RightOnly;
        }
    }
    if d.rows.contains(Emit::LeftOnly) {
        let m = choose|m: int| 0 <= m < d.rows.len() && d.rows[m] == Emit::LeftOnly;
    }
    if d.rows.contains(Emit::RightOnly) {
        let m = choose|m: int| 0 <= m < d.rows.len() && d.rows[m] == Emit::RightOnly;
    }
}

/// A record that is emitted alone is on no matched row, from whatever
/// position the merge goes on and whatever the inputs hold.
pub proof fn lemma_alone_is_unmatched(inputs: Inputs, i: int, j: int, lp: bool, rp: bool)
    requires
        0 <= i < inputs.left.len(),
        0 <= j < inputs.right.len(),
    ensures
        forall|a: int, b: int|
            #![trigger inputs.merge_from(i, j, lp, rp).contains(Event::Matched { left: a, right: b })]
            !(inputs.merge_from(i, j, lp, rp).contains(Event::LeftAlone { left: a })
                && inputs.merge_from(i, j, lp, rp).contains(Event::Matched { left: a, right: b })),
        forall|a: int, b: int|
            #![trigger inputs.merge_from(i, j, lp, rp).contains(Event::Matched { left: a, right: b })]
            !(inputs.merge_from(i, j, lp, rp).contains(Event::RightAlone { right: b })
                && inputs.merge_from(i, j, lp, rp).contains(Event::Matched { left: a, right: b })),
    decreases inputs.left.len() - i + inputs.right.len() - j,
{
    let left = inputs.left_seat(i, lp);
    let right = inputs.right_seat(j, rp);
    let d = decide(left, right);
    let head = events_at(d.rows, i, j);
    let tail = inputs.after(d.phase, i, j, d.left_printed, d.right_printed);
    let events = inputs.merge_from(i, j, lp, rp);
    lemma_decide_rows(left, right);
    lemma_decide_alone(left, right);
    lemma_drained_events(Side::Left, i + 1, inputs.left.len() as int);
    lemma_drained_events(Side::Right, j + 1, inputs.right.len() as int);
    assert forall|e: Event| head.contains(e) implies (e == Event::Matched { left: i, right: j }
        && d.rows.contains(Emit::Both)) || (e == Event::LeftAlone { left: i } && d.rows.contains(
        Emit::LeftOnly,
    )) || (e == Event::RightAlone { right: j } && d.rows.contains(Emit::RightOnly)) by {
        let k = choose|k: int| 0 <= k < head.len() && head[k] == e;
        assert(d.rows.contains(d.rows[k]));
    }
    match d.phase {
        Phase::AdvanceLeft => {
            lemma_merge_shape(inputs, i + 1, j, false, d.right_printed);
            lemma_alone_is_unmatched(inputs, i + 1, j, false, d.right_printed);
        },
        Phase::AdvanceRight => {
            lemma_merge_shape(inputs, i, j + 1, d.left_printed, false);
            lemma_alone_is_unmatched(inputs, i, j + 1, d.left_printed, false);
        },
        Phase::AdvanceBoth => {
            lemma_merge_shape(inputs, i + 1, j + 1, false, false);
            lemma_alone_is_unmatched(inputs, i + 1, j + 1, false, false);
        },
        _ => {},
    }
    assert forall|e: Event| #[trigger] events.contains(e) <==> head.contains(e) || tail.contains(
        e,
    ) by {
        lemma_seq_concat_contains_all_elements(head, tail, e);
    }
    assert forall|a: int, b: int|
        #![trigger events.contains(Event::Matched { left: a, right: b })]
        !(events.contains(Event::LeftAlone { left: a }) && events.contains(
            Event::Matched { left: a, right: b },
        )) by {
        let alone = Event::LeftAlone { left: a };
        let matched = Event::Matched { left: a, right: b };
        if events.contains(alone) && events.contains(matched) {
            if tail.contains(alone) {
                match d.phase {
                    Phase::AdvanceLeft => {
                        assert(in_shape(inputs, i + 1, j, false, d.right_printed, alone));
                    },
                    Phase::AdvanceRight => {
                        assert(in_shape(inputs, i, j + 1, d.left_printed, false, alone));
                    },
                    Phase::AdvanceBoth => {
                        assert(in_shape(inputs, i + 1, j + 1, false, false, alone));
                    },
                    _ => {},
                }
            }
            if tail.contains(matched) {
                match d.phase {
                    Phase::AdvanceLeft => {
                        assert(in_shape(inputs, i + 1, j, false, d.right_printed, matched));
                    },
                    Phase::AdvanceRight => {
                        assert(in_shape(inputs, i, j + 1, d.left_printed, false, matched));
                    },
                    Phase::AdvanceBoth => {
                        assert(in_shape(inputs, i + 1, j + 1, false, false, matched));
                    },
                    _ => {},
                }
            }
        }
    }
    assert forall|a: int, b: int|
        #![trigger events.contains(Event::Matched { left: a, right: b })]
        !(events.contains(Event::RightAlone { right: b }) && events.contains(
            Event::Matched { left: a, right: b },
        )) by {
        let alone = Event::RightAlone { right: b };
        let matched = Event::Matched { left: a, right: b };
        if events.contains(alone) && events.contains(matched) {
            if tail.contains(alone) {
                match d.phase {
                    Phase::AdvanceLeft => {
                        assert(in_shape(inputs, i + 1, j, false, d.right_printed, alone));
                    },
                    Phase::AdvanceRight => {
                        assert(in_shape(inputs, i, j + 1, d.left_printed, false, alone));
                    },
                    Phase::AdvanceBoth => {
                        assert(in_shape(inputs, i + 1, j + 1, false, false, alone));
                    },
                    _ => {},
                }
            }
            if tail.contains(matched) {
                match d.phase {
                    Phase::AdvanceLeft => {
                        assert(in_shape(inputs, i + 1, j, false, d.right_printed, matched));
                    },
                    Phase::AdvanceRight => {
                        assert(in_shape(inputs, i, j + 1, d.left_printed, false, matched));
                    },
                    Phase::AdvanceBoth => {
                        assert(in_shape(inputs, i + 1, j + 1, false, false, matched));
                    },
                    _ => {},
                }
            }
        }
    }
}

/// The keys never go down from one record to the next.
pub open spec fn ascending(keys: Seq<Seq<Seq<u8>>>) -> bool {
    forall|a: int, b: int|
        0 <= a <= b < keys.len() ==> rank_keys(#[trigger] keys[a], #[trigger] keys[b])
            != Rank::Greater
}

/// The key occurs on more than one record.
pub open spec fn repeats(keys: Seq<Seq<Seq<u8>>>, key: Seq<Seq<u8>>) -> bool {
    exists|a: int, b: int|
        0 <= a < b < keys.len() && #[trigger] keys[a] == key && #[trigger] keys[b] == key
}

/// No key occurs more than once in both inputs: a key that several left
/// records share is on one right record at most, and the other way round.
pub open spec fn fans_one_way(inputs: Inputs) -> bool {
    forall|key: Seq<Seq<u8>>|
        !(#[trigger] repeats(inputs.left, key) && #[trigger] repeats(inputs.right, key))
}

/// The left record at `a` has no partner: no right record has its key.
pub open spec fn lonely_left(inputs: Inputs, a: int) -> bool {
    forall|b: int| 0 <= b < inputs.right.len() ==> inputs.left[a] != #[trigger] inputs.right[b]
}

/// The right record at `b` has no partner: no left record has its key.
pub open spec fn lonely_right(inputs: Inputs, b: int) -> bool {
    forall|a: int| 0 <= a < inputs.left.len() ==> #[trigger] inputs.left[a] != inputs.right[b]
}

/// The merge has lost no pair on its way to `i` and `j`: no record that is
/// still to come has a partner among the records that were passed, and a
/// current record with a partner among them has been emitted.
pub open spec fn aligned(inputs: Inputs, i: int, j: int, lp: bool, rp: bool) -> bool {
    &&& forall|a: int, b: int|
        i < a < inputs.left.len() && 0 <= b < j ==> #[trigger] inputs.left[a]
            != #[trigger] inputs.right[b]
    &&& forall|a: int, b: int|
        0 <= a < i && j < b < inputs.right.len() ==> #[trigger] inputs.left[a]
            != #[trigger] inputs.right[b]
    &&& forall|b: int| 0 <= b < j && #[trigger] inputs.right[b] == inputs.left[i] ==> lp
    &&& forall|a: int| 0 <= a < i && #[trigger] inputs.left[a] == inputs.right[j] ==> rp
}

/// A key that is below a key that is at most a third one differs from any
/// key that the third one is at most.
proof fn lemma_chain(x: Seq<Seq<u8>>, y: Seq<Seq<u8>>, z: Seq<Seq<u8>>, w: Seq<Seq<u8>>)
    requires
        rank_keys(x, y) != Rank::Greater,
        rank_keys(y, z) == Rank::Less,
        rank_keys(z, w) != Rank::Greater,
    ensures
        x != w,
{
    lemma_rank_keys_trans(x, y, z);
    lemma_rank_keys_trans(x, z, w);
    lemma_rank_keys_equal(x, w);
}

/// Keys rank against themselves as equal.
proof fn lemma_rank_self(x: Seq<Seq<u8>>)
    ensures
        rank_keys(x, x) == Rank::Equal,
{
    lemma_rank_keys_equal(x, x);
}

/// After a match, where the left lookahead is below the right one or the
/// right input has ended, the current left record has no partner further
/// on.
proof fn lemma_left_moves_on(inputs: Inputs, i: int, j: int)
    requires
        ascending(inputs.left),
        ascending(inputs.right),
        0 <= i,
        i + 1 < inputs.left.len(),
        0 <= j < inputs.right.len(),
        j + 1 < inputs.right.len() ==> rank_keys(inputs.left[i + 1], inputs.right[j + 1])
            == Rank::Less,
    ensures
        forall|b: int| j < b < inputs.right.len() ==> inputs.left[i] != #[trigger] inputs.right[b],
{
    assert forall|b: int| j < b < inputs.right.len() implies inputs.left[i]
        != #[trigger] inputs.right[b] by {
        lemma_chain(inputs.left[i], inputs.left[i + 1], inputs.right[j + 1], inputs.right[b]);
    }
}

/// The mirror image of `lemma_left_moves_on`.
proof fn lemma_right_moves_on(inputs: Inputs, i: int, j: int)
    requires
        ascending(inputs.left),
        ascending(inputs.right),
        0 <= j,
        j + 1 < inputs.right.len(),
        0 <= i < inputs.left.len(),
        i + 1 < inputs.left.len() ==> rank_keys(inputs.left[i + 1], inputs.right[j + 1])
            == Rank::Greater,
    ensures
        forall|a: int| i < a < inputs.left.len() ==> #[trigger] inputs.left[a] != inputs.right[j],
{
    assert forall|a: int| i < a < inputs.left.len() implies #[trigger] inputs.left[a]
        != inputs.right[j] by {
        lemma_rank_keys_flip(inputs.right[j + 1], inputs.left[i + 1]);
        lemma_chain(inputs.right[j], inputs.right[j + 1], inputs.left[i + 1], inputs.left[a]);
    }
}

/// A left record below the current right record has no partner from there
/// on.
proof fn lemma_left_is_below(inputs: Inputs, i: int, j: int)
    requires
        ascending(inputs.right),
        0 <= i < inputs.left.len(),
        0 <= j < inputs.right.len(),
        rank_keys(inputs.left[i], inputs.right[j]) == Rank::Less,
    ensures
        forall|b: int| j <= b < inputs.right.len() ==> inputs.left[i] != #[trigger] inputs.right[b],
{
    assert forall|b: int| j <= b < inputs.right.len() implies inputs.left[i]
        != #[trigger] inputs.right[b] by {
        lemma_rank_self(inputs.left[i]);
        lemma_chain(inputs.left[i], inputs.left[i], inputs.right[j], inputs.right[b]);
    }
}

/// The mirror image of `lemma_left_is_below`.
proof fn lemma_right_is_below(inputs: Inputs, i: int, j: int)
    requires
        ascending(inputs.left),
        0 <= i < inputs.left.len(),
        0 <= j < inputs.right.len(),
        rank_keys(inputs.left[i], inputs.right[j]) == Rank::Greater,
    ensures
        forall|a: int| i <= a < inputs.left.len() ==> #[trigger] inputs.left[a] != inputs.right[j],
{
    assert forall|a: int| i <= a < inputs.left.len() implies #[trigger] inputs.left[a]
        != inputs.right[j] by {
        lemma_rank_self(inputs.right[j]);
        lemma_rank_keys_flip(inputs.right[j], inputs.left[i]);
        lemma_chain(inputs.right[j], inputs.right[j], inputs.left[i], inputs.left[a]);
    }
}

/// After a match with equal lookahead keys, neither current record has a
/// partner further on: the lookahead keys are a new key, for no key occurs
/// more than once in both inputs.
proof fn lemma_both_move_on(inputs: Inputs, i: int, j: int)
    requires
        ascending(inputs.left),
        ascending(inputs.right),
        fans_one_way(inputs),
        0 <= i,
        i + 1 < inputs.left.len(),
        0 <= j,
        j + 1 < inputs.right.len(),
        inputs.left[i] == inputs.right[j],
        inputs.left[i + 1] == inputs.right[j + 1],
    ensures
        forall|b: int| j < b < inputs.right.len() ==> inputs.left[i] != #[trigger] inputs.right[b],
        forall|a: int| i < a < inputs.left.len() ==> #[trigger] inputs.left[a] != inputs.right[j],
{
    let key = inputs.left[i];
    if inputs.left[i + 1] == key {
        assert(repeats(inputs.left, key));
        assert(repeats(inputs.right, key));
    }
    lemma_rank_keys_equal(inputs.left[i], inputs.left[i + 1]);
    lemma_rank_keys_equal(inputs.right[j], inputs.right[j + 1]);
    assert forall|b: int| j < b < inputs.right.len() implies inputs.left[i]
        != #[trigger] inputs.right[b] by {
        lemma_rank_self(inputs.right[j]);
        lemma_chain(inputs.right[j], inputs.right[j], inputs.right[j + 1], inputs.right[b]);
    }
    assert forall|a: int| i < a < inputs.left.len() implies #[trigger] inputs.left[a]
        != inputs.right[j] by {
        lemma_rank_self(inputs.left[i]);
        lemma_chain(inputs.left[i], inputs.left[i], inputs.left[i + 1], inputs.left[a]);
    }
}

/// The events are those of a merge that finds every pair from `i` and `j`
/// on: every pair of records with equal keys is matched, a record is
/// emitted alone only where it has no partner, and every record without a
/// partner is emitted alone where its side emits unmatched rows, unless it
/// is the current record and was emitted before.
pub open spec fn finds_all(
    inputs: Inputs,
    i: int,
    j: int,
    lp: bool,
    rp: bool,
    events: Seq<Event>,
) -> bool {
    &&& forall|a: int, b: int|
        #![trigger events.contains(Event::Matched { left: a, right: b })]
        i <= a < inputs.left.len() && j <= b < inputs.right.len() && inputs.left[a]
            == inputs.right[b] ==> events.contains(Event::Matched { left: a, right: b })
    &&& forall|a: int|
        #![trigger events.contains(Event::LeftAlone { left: a })]
        events.contains(Event::LeftAlone { left: a }) ==> lonely_left(inputs, a)
    &&& forall|a: int|
        #![trigger events.contains(Event::LeftAlone { left: a })]
        inputs.left_all && i <= a < inputs.left.len() && (a == i ==> !lp) && lonely_left(inputs, a)
            ==> events.contains(Event::LeftAlone { left: a })
    &&& forall|b: int|
        #![trigger events.contains(Event::RightAlone { right: b })]
        events.contains(Event::RightAlone { right: b }) ==> lonely_right(inputs, b)
    &&& forall|b: int|
        #![trigger events.contains(Event::RightAlone { right: b })]
        inputs.right_all && j <= b < inputs.right.len() && (b == j ==> !rp) && lonely_right(
            inputs,
            b,
        ) ==> events.contains(Event::RightAlone { right: b })
}

/// A matched row at `i` and `j`, followed by the events of a merge that
/// finds every pair from the next position on, makes a merge that finds
/// every pair from `i` and `j` on, provided that a record that is left
/// behind has no partner further on.
proof fn lemma_after_match(
    inputs: Inputs,
    i: int,
    j: int,
    lp: bool,
    rp: bool,
    left_moves: bool,
    right_moves: bool,
    tail: Seq<Event>,
)
    requires
        0 <= i < inputs.left.len(),
        0 <= j < inputs.right.len(),
        inputs.left[i] == inputs.right[j],
        left_moves || right_moves,
        left_moves ==> forall|b: int|
            j < b < inputs.right.len() ==> inputs.left[i] != #[trigger] inputs.right[b],
        right_moves ==> forall|a: int|
            i < a < inputs.left.len() ==> #[trigger] inputs.left[a] != inputs.right[j],
        finds_all(
            inputs,
            if left_moves {
                i + 1
            } else {
                i
            },
            if right_moves {
                j + 1
            } else {
                j
            },
            !left_moves,
            !right_moves,
            tail,
        ),
    ensures
        finds_all(inputs, i, j, lp, rp, seq![Event::Matched { left: i, right: j }] + tail),
{
    let head = seq![Event::Matched { left: i, right: j }];
    let events = head + tail;
    assert(head[0] == Event::Matched { left: i, right: j });
    assert forall|e: Event| #[trigger] events.contains(e) <==> head.contains(e) || tail.contains(
        e,
    ) by {
        lemma_seq_concat_contains_all_elements(head, tail, e);
    }
    assert forall|a: int, b: int|
        #![trigger events.contains(Event::Matched { left: a, right: b })]
        i <= a < inputs.left.len() && j <= b < inputs.right.len() && inputs.left[a]
            == inputs.right[b] implies events.contains(Event::Matched { left: a, right: b }) by {
        if a == i && b == j {
            assert(head.contains(Event::Matched { left: a, right: b }));
        } else {
            assert(tail.contains(Event::Matched { left: a, right: b }));
        }
    }
    assert forall|a: int|
        #![trigger events.contains(Event::LeftAlone { left: a })]
        events.contains(Event::LeftAlone { left: a }) implies lonely_left(inputs, a) by {
        assert(tail.contains(Event::LeftAlone { left: a }));
    }
    assert forall|a: int|
        #![trigger events.contains(Event::LeftAlone { left: a })]
        inputs.left_all && i <= a < inputs.left.len() && (a == i ==> !lp) && lonely_left(
            inputs,
            a,
        ) implies events.contains(Event::LeftAlone { left: a }) by {
        assert(a != i) by {
            if a == i {
                assert(inputs.left[a] != inputs.right[j]);
            }
        }
        assert(tail.contains(Event::LeftAlone { left: a }));
    }
    assert forall|b: int|
        #![trigger events.contains(Event::RightAlone { right: b })]
        events.contains(Event::RightAlone { right: b }) implies lonely_right(inputs, b) by {
        assert(tail.contains(Event::RightAlone { right: b }));
    }
    assert forall|b: int|
        #![trigger events.contains(Event::RightAlone { right: b })]
        inputs.right_all && j <= b < inputs.right.len() && (b == j ==> !rp) && lonely_right(
            inputs,
            b,
        ) implies events.contains(Event::RightAlone { right: b }) by {
        assert(b != j) by {
            if b == j {
                assert(inputs.left[i] != inputs.right[b]);
            }
        }
        assert(tail.contains(Event::RightAlone { right: b }));
    }
}

/// The records of one side that are drained are the records from `from` up
/// to `to`, each alone.
proof fn lemma_drained_events(side: Side, from: int, to: int)
    ensures
        forall|e: Event| #[trigger]
            drained(side, from, to).contains(e) <==> match e {
                Event::Matched { .. } => false,
                Event::LeftAlone { left } => side == Side::Left && from <= left < to,
                Event::RightAlone { right } => side == Side::Right && from <= right < to,
            },
{
    let events = drained(side, from, to);
    assert forall|e: Event| #[trigger] events.contains(e) <==> match e {
        Event::Matched { .. } => false,
        Event::LeftAlone { left } => side == Side::Left && from <= left < to,
        Event::RightAlone { right } => side == Side::Right && from <= right < to,
    } by {
        if events.contains(e) {
            let k = choose|k: int| 0 <= k < events.len() && events[k] == e;
        }
        match e {
            Event::Matched { .. } => {},
            Event::LeftAlone { left } => {
                if side == Side::Left && from <= left < to {
                    assert(events[left - from] == e);
                }
            },
            Event::RightAlone { right } => {
                if side == Side::Right && from <= right < to {
                    assert(events[right - from] == e);
                }
            },
        }
    }
}

/// A left record below the current right record, emitted alone if it is to
/// be, followed by the events of a merge that finds every pair from the
/// next left record on, makes a merge that finds every pair from `i` and
/// `j` on.
proof fn lemma_after_less(inputs: Inputs, i: int, j: int, lp: bool, rp: bool, tail: Seq<Event>)
    requires
        0 <= i < inputs.left.len(),
        0 <= j < inputs.right.len(),
        aligned(inputs, i, j, lp, rp),
        forall|b: int| j <= b < inputs.right.len() ==> inputs.left[i] != #[trigger] inputs.right[b],
        finds_all(inputs, i + 1, j, false, rp, tail),
    ensures
        finds_all(
            inputs,
            i,
            j,
            lp,
            rp,
            (if inputs.left_all && !lp {
                seq![Event::LeftAlone { left: i }]
            } else {
                Seq::empty()
            }) + tail,
        ),
{
    let head = if inputs.left_all && !lp {
        seq![Event::LeftAlone { left: i }]
    } else {
        Seq::empty()
    };
    let events = head + tail;
    if inputs.left_all && !lp {
        assert(head[0] == Event::LeftAlone { left: i });
    }
    assert forall|e: Event| #[trigger] events.contains(e) <==> head.contains(e) || tail.contains(
        e,
    ) by {
        lemma_seq_concat_contains_all_elements(head, tail, e);
    }
    assert forall|e: Event| #[trigger] head.contains(e) implies e == (Event::LeftAlone { left: i })
        && inputs.left_all && !lp by {
        let k = choose|k: int| 0 <= k < head.len() && head[k] == e;
    }
    assert forall|a: int, b: int|
        #![trigger events.contains(Event::Matched { left: a, right: b })]
        i <= a < inputs.left.len() && j <= b < inputs.right.len() && inputs.left[a]
            == inputs.right[b] implies events.contains(Event::Matched { left: a, right: b }) by {
        assert(a != i) by {
            if a == i {
                assert(inputs.left[i] != inputs.right[b]);
            }
        }
        assert(tail.contains(Event::Matched { left: a, right: b }));
    }
    assert forall|a: int|
        #![trigger events.contains(Event::LeftAlone { left: a })]
        events.contains(Event::LeftAlone { left: a }) implies lonely_left(inputs, a) by {
        if head.contains(Event::LeftAlone { left: a }) {
            assert forall|b: int| 0 <= b < inputs.right.len() implies inputs.left[a]
                != #[trigger] inputs.right[b] by {
                if b < j {
                    assert(inputs.right[b] != inputs.left[i]);
                }
            }
        } else {
            assert(tail.contains(Event::LeftAlone { left: a }));
        }
    }
    assert forall|a: int|
        #![trigger events.contains(Event::LeftAlone { left: a })]
        inputs.left_all && i <= a < inputs.left.len() && (a == i ==> !lp) && lonely_left(
            inputs,
            a,
        ) implies events.contains(Event::LeftAlone { left: a }) by {
        if a == i {
            assert(head.contains(Event::LeftAlone { left: a }));
        } else {
            assert(tail.contains(Event::LeftAlone { left: a }));
        }
    }
    assert forall|b: int|
        #![trigger events.contains(Event::RightAlone { right: b })]
        events.contains(Event::RightAlone { right: b }) implies lonely_right(inputs, b) by {
        assert(tail.contains(Event::RightAlone { right: b }));
    }
    assert forall|b: int|
        #![trigger events.contains(Event::RightAlone { right: b })]
        inputs.right_all && j <= b < inputs.right.len() && (b == j ==> !rp) && lonely_right(
            inputs,
            b,
        ) implies events.contains(Event::RightAlone { right: b }) by {
        assert(tail.contains(Event::RightAlone { right: b }));
    }
}

/// The mirror image of `lemma_after_less`.
proof fn lemma_after_greater(inputs: Inputs, i: int, j: int, lp: bool, rp: bool, tail: Seq<Event>)
    requires
        0 <= i < inputs.left.len(),
        0 <= j < inputs.right.len(),
        aligned(inputs, i, j, lp, rp),
        forall|a: int| i <= a < inputs.left.len() ==> #[trigger] inputs.left[a] != inputs.right[j],
        finds_all(inputs, i, j + 1, lp, false, tail),
    ensures
        finds_all(
            inputs,
            i,
            j,
            lp,
            rp,
            (if inputs.right_all && !rp {
                seq![Event::RightAlone { right: j }]
            } else {
                Seq::empty()
            }) + tail,
        ),
{
    let head = if inputs.right_all && !rp {
        seq![Event::RightAlone { right: j }]
    } else {
        Seq::empty()
    };
    let events = head + tail;
    if inputs.right_all && !rp {
        assert(head[0] == Event::RightAlone { right: j });
    }
    assert forall|e: Event| #[trigger] events.contains(e) <==> head.contains(e) || tail.contains(
        e,
    ) by {
        lemma_seq_concat_contains_all_elements(head, tail, e);
    }
    assert forall|e: Event| #[trigger] head.contains(e) implies e == (Event::RightAlone {
        right: j,
    }) && inputs.right_all && !rp by {
        let k = choose|k: int| 0 <= k < head.len() && head[k] == e;
    }
    assert forall|a: int, b: int|
        #![trigger events.contains(Event::Matched { left: a, right: b })]
        i <= a < inputs.left.len() && j <= b < inputs.right.len() && inputs.left[a]
            == inputs.right[b] implies events.contains(Event::Matched { left: a, right: b }) by {
        assert(b != j) by {
            if b == j {
                assert(inputs.left[a] != inputs.right[j]);
            }
        }
        assert(tail.contains(Event::Matched { left: a, right: b }));
    }
    assert forall|b: int|
        #![trigger events.contains(Event::RightAlone { right: b })]
        events.contains(Event::RightAlone { right: b }) implies lonely_right(inputs, b) by {
        if head.contains(Event::RightAlone { right: b }) {
            assert forall|a: int| 0 <= a < inputs.left.len() implies #[trigger] inputs.left[a]
                != inputs.right[b] by {
                if a < i {
                    assert(inputs.left[a] != inputs.right[j]);
                }
            }
        } else {
            assert(tail.contains(Event::RightAlone { right: b }));
        }
    }
    assert forall|b: int|
        #![trigger events.contains(Event::RightAlone { right: b })]
        inputs.right_all && j <= b < inputs.right.len() && (b == j ==> !rp) && lonely_right(
            inputs,
            b,
        ) implies events.contains(Event::RightAlone { right: b }) by {
        if b == j {
            assert(head.contains(Event::RightAlone { right: b }));
        } else {
            assert(tail.contains(Event::RightAlone { right: b }));
        }
    }
    assert forall|a: int|
        #![trigger events.contains(Event::LeftAlone { left: a })]
        events.contains(Event::LeftAlone { left: a }) implies lonely_left(inputs, a) by {
        assert(tail.contains(Event::LeftAlone { left: a }));
    }
    assert forall|a: int|
        #![trigger events.contains(Event::LeftAlone { left: a })]
        inputs.left_all && i <= a < inputs.left.len() && (a == i ==> !lp) && lonely_left(
            inputs,
            a,
        ) implies events.contains(Event::LeftAlone { left: a }) by {
        assert(tail.contains(Event::LeftAlone { left: a }));
    }
}

/// What is left of the right input once the left input has ended on a
/// record below the current right record: the current right record, if it
/// was not emitted, and the records after it, each alone.
spec fn right_rest(inputs: Inputs, j: int, rp: bool) -> Seq<Event> {
    (if inputs.right_all && !rp {
        seq![Event::RightAlone { right: j }]
    } else {
        Seq::empty()
    }) + (if inputs.right_all && j + 1 < inputs.right.len() {
        drained(Side::Right, j + 1, inputs.right.len() as int)
    } else {
        Seq::empty()
    })
}

/// What is left of the left input once the right input has ended on a
/// record below the current left record.
spec fn left_rest(inputs: Inputs, i: int, lp: bool) -> Seq<Event> {
    (if inputs.left_all && !lp {
        seq![Event::LeftAlone { left: i }]
    } else {
        Seq::empty()
    }) + (if inputs.left_all && i + 1 < inputs.left.len() {
        drained(Side::Left, i + 1, inputs.left.len() as int)
    } else {
        Seq::empty()
    })
}

/// Once the left input has ended below the current right record, what is
/// left of the right input finds every pair that is left to find: there is
/// none, and every right record from `j` on is without a partner.
proof fn lemma_right_rest(inputs: Inputs, i: int, j: int, lp: bool, rp: bool)
    requires
        0 <= i,
        i + 1 == inputs.left.len(),
        0 <= j < inputs.right.len(),
        aligned(inputs, i, j, lp, rp),
        forall|b: int| j <= b < inputs.right.len() ==> inputs.left[i] != #[trigger] inputs.right[b],
    ensures
        finds_all(inputs, i + 1, j, false, rp, right_rest(inputs, j, rp)),
{
    let flush = if inputs.right_all && !rp {
        seq![Event::RightAlone { right: j }]
    } else {
        Seq::empty()
    };
    let drain = if inputs.right_all && j + 1 < inputs.right.len() {
        drained(Side::Right, j + 1, inputs.right.len() as int)
    } else {
        Seq::empty()
    };
    let events = right_rest(inputs, j, rp);
    lemma_drained_events(Side::Right, j + 1, inputs.right.len() as int);
    if inputs.right_all && !rp {
        assert(flush[0] == Event::RightAlone { right: j });
    }
    assert forall|e: Event| #[trigger] flush.contains(e) implies e == (Event::RightAlone {
        right: j,
    }) && inputs.right_all && !rp by {
        let k = choose|k: int| 0 <= k < flush.len() && flush[k] == e;
    }
    assert forall|e: Event| #[trigger] events.contains(e) <==> flush.contains(e) || drain.contains(
        e,
    ) by {
        lemma_seq_concat_contains_all_elements(flush, drain, e);
    }
    assert forall|b: int|
        #![trigger events.contains(Event::RightAlone { right: b })]
        events.contains(Event::RightAlone { right: b }) implies lonely_right(inputs, b) by {
        assert(j <= b < inputs.right.len());
        assert(b == j ==> !rp);
        assert forall|a: int| 0 <= a < inputs.left.len() implies #[trigger] inputs.left[a]
            != inputs.right[b] by {
            if a == i {
                assert(inputs.left[i] != inputs.right[b]);
            } else if b == j {
                assert(inputs.left[a] != inputs.right[j]);
            }
        }
    }
    assert forall|b: int|
        #![trigger events.contains(Event::RightAlone { right: b })]
        inputs.right_all && j <= b < inputs.right.len() && (b == j ==> !rp) && lonely_right(
            inputs,
            b,
        ) implies events.contains(Event::RightAlone { right: b }) by {
        if b == j {
            assert(flush.contains(Event::RightAlone { right: b }));
        } else {
            assert(drain.contains(Event::RightAlone { right: b }));
        }
    }
    assert forall|a: int|
        #![trigger events.contains(Event::LeftAlone { left: a })]
        !events.contains(Event::LeftAlone { left: a }) by {}
}

/// The mirror image of `lemma_right_rest`.
proof fn lemma_left_rest(inputs: Inputs, i: int, j: int, lp: bool, rp: bool)
    requires
        0 <= j,
        j + 1 == inputs.right.len(),
        0 <= i < inputs.left.len(),
        aligned(inputs, i, j, lp, rp),
        forall|a: int| i <= a < inputs.left.len() ==> #[trigger] inputs.left[a] != inputs.right[j],
    ensures
        finds_all(inputs, i, j + 1, lp, false, left_rest(inputs, i, lp)),
{
    let flush = if inputs.left_all && !lp {
        seq![Event::LeftAlone { left: i }]
    } else {
        Seq::empty()
    };
    let drain = if inputs.left_all && i + 1 < inputs.left.len() {
        drained(Side::Left, i + 1, inputs.left.len() as int)
    } else {
        Seq::empty()
    };
    let events = left_rest(inputs, i, lp);
    lemma_drained_events(Side::Left, i + 1, inputs.left.len() as int);
    if inputs.left_all && !lp {
        assert(flush[0] == Event::LeftAlone { left: i });
    }
    assert forall|e: Event| #[trigger] flush.contains(e) implies e == (Event::LeftAlone { left: i })
        && inputs.left_all && !lp by {
        let k = choose|k: int| 0 <= k < flush.len() && flush[k] == e;
    }
    assert forall|e: Event| #[trigger] events.contains(e) <==> flush.contains(e) || drain.contains(
        e,
    ) by {
        lemma_seq_concat_contains_all_elements(flush, drain, e);
    }
    assert forall|a: int|
        #![trigger events.contains(Event::LeftAlone { left: a })]
        events.contains(Event::LeftAlone { left: a }) implies lonely_left(inputs, a) by {
        assert(i <= a < inputs.left.len());
        assert(a == i ==> !lp);
        assert forall|b: int| 0 <= b < inputs.right.len() implies inputs.left[a]
            != #[trigger] inputs.right[b] by {
            if b == j {
                assert(inputs.left[a] != inputs.right[j]);
            } else if a == i {
                assert(inputs.right[b] != inputs.left[i]);
            }
        }
    }
    assert forall|a: int|
        #![trigger events.contains(Event::LeftAlone { left: a })]
        inputs.left_all && i <= a < inputs.left.len() && (a == i ==> !lp) && lonely_left(
            inputs,
            a,
        ) implies events.contains(Event::LeftAlone { left: a }) by {
        if a == i {
            assert(flush.contains(Event::LeftAlone { left: a }));
        } else {
            assert(drain.contains(Event::LeftAlone { left: a }));
        }
    }
    assert forall|b: int|
        #![trigger events.contains(Event::RightAlone { right: b })]
        !events.contains(Event::RightAlone { right: b }) by {}
}

/// The merge of sorted inputs finds every pair.
///
/// Where both inputs are in ascending order of their keys and no key
/// occurs more than once in both of them, the merge from `i` and `j` on
/// matches exactly the pairs of records with equal keys, and emits alone
/// exactly the records without a partner whose side emits unmatched rows.
pub proof fn lemma_merge_sorted(inputs: Inputs, i: int, j: int, lp: bool, rp: bool)
    requires
        0 <= i < inputs.left.len(),
        0 <= j < inputs.right.len(),
        ascending(inputs.left),
        ascending(inputs.right),
        fans_one_way(inputs),
        aligned(inputs, i, j, lp, rp),
    ensures
        finds_all(inputs, i, j, lp, rp, inputs.merge_from(i, j, lp, rp)),
    decreases inputs.left.len() - i + inputs.right.len() - j,
{
    let left = inputs.left_seat(i, lp);
    let right = inputs.right_seat(j, rp);
    let d = decide(left, right);
    let head = events_at(d.rows, i, j);
    let tail = inputs.after(d.phase, i, j, d.left_printed, d.right_printed);
    let events = inputs.merge_from(i, j, lp, rp);
    assert(events == head + tail);
    lemma_rank_keys_equal(inputs.left[i], inputs.right[j]);
    match rank_keys(inputs.left[i], inputs.right[j]) {
        Rank::Equal => {
            assert(head =~= seq![Event::Matched { left: i, right: j }]);
            match advance_after_match(left, right) {
                Advance::Left => {
                    lemma_left_moves_on(inputs, i, j);
                    assert(aligned(inputs, i + 1, j, false, true));
                    lemma_merge_sorted(inputs, i + 1, j, false, true);
                    lemma_after_match(inputs, i, j, lp, rp, true, false, tail);
                },
                Advance::Right => {
                    lemma_right_moves_on(inputs, i, j);
                    assert(aligned(inputs, i, j + 1, true, false));
                    lemma_merge_sorted(inputs, i, j + 1, true, false);
                    lemma_after_match(inputs, i, j, lp, rp, false, true, tail);
                },
                Advance::Both => {
                    lemma_rank_keys_equal(inputs.left[i + 1], inputs.right[j + 1]);
                    lemma_both_move_on(inputs, i, j);
                    assert(aligned(inputs, i + 1, j + 1, false, false));
                    lemma_merge_sorted(inputs, i + 1, j + 1, false, false);
                    lemma_after_match(inputs, i, j, lp, rp, true, true, tail);
                },
                Advance::Stop => {
                    assert(tail =~= Seq::<Event>::empty());
                    assert(finds_all(inputs, i + 1, j + 1, false, false, tail));
                    lemma_after_match(inputs, i, j, lp, rp, true, true, tail);
                },
            }
        },
        Rank::Less => {
            lemma_left_is_below(inputs, i, j);
            let first = if inputs.left_all && !lp {
                seq![Event::LeftAlone { left: i }]
            } else {
                Seq::<Event>::empty()
            };
            if i + 1 < inputs.left.len() {
                assert(head =~= first);
                assert(aligned(inputs, i + 1, j, false, rp));
                lemma_merge_sorted(inputs, i + 1, j, false, rp);
                lemma_after_less(inputs, i, j, lp, rp, tail);
            } else {
                lemma_right_rest(inputs, i, j, lp, rp);
                lemma_after_less(inputs, i, j, lp, rp, right_rest(inputs, j, rp));
                assert(events =~= first + right_rest(inputs, j, rp));
            }
        },
        Rank::Greater => {
            lemma_right_is_below(inputs, i, j);
            let first = if inputs.right_all && !rp {
                seq![Event::RightAlone { right: j }]
            } else {
                Seq::<Event>::empty()
            };
            if j + 1 < inputs.right.len() {
                assert(head =~= first);
                assert(aligned(inputs, i, j + 1, lp, false));
                lemma_merge_sorted(inputs, i, j + 1, lp, false);
                lemma_after_greater(inputs, i, j, lp, rp, tail);
            } else {
                lemma_left_rest(inputs, i, j, lp, rp);
                lemma_after_greater(inputs, i, j, lp, rp, left_rest(inputs, i, lp));
                assert(events =~= first + left_rest(inputs, i, lp));
            }
        },
    }
}

/// Nothing has been lost before the merge begins.
proof fn lemma_aligned_at_start(inputs: Inputs)
    ensures
        aligned(inputs, 0, 0, false, false),
{
}

/// The matched rows of a merge of sorted inputs are exactly the pairs of
/// records with equal keys, each pair once.
///
/// Both inputs are in ascending order of their keys, and no key occurs more
/// than once in both of them. Then a left record and a right record are
/// matched if and only if their keys are equal, and no event occurs twice:
/// a key on `n` left records and one right record gives `n` matched rows, a
/// key on one left record and `m` right records gives `m`.
pub proof fn law_matched_pairs(inputs: Inputs)
    requires
        inputs.left.len() > 0,
        inputs.right.len() > 0,
        ascending(inputs.left),
        ascending(inputs.right),
        fans_one_way(inputs),
    ensures
        forall|a: int, b: int|
            #![trigger inputs.merge_events().contains(Event::Matched { left: a, right: b })]
            inputs.merge_events().contains(Event::Matched { left: a, right: b }) <==> 0 <= a
                < inputs.left.len() && 0 <= b < inputs.right.len() && inputs.left[a]
                == inputs.right[b],
        inputs.merge_events().no_duplicates(),
{
    lemma_aligned_at_start(inputs);
    lemma_merge_sorted(inputs, 0, 0, false, false);
    lemma_merge_shape(inputs, 0, 0, false, false);
    let events = inputs.merge_events();
    assert forall|a: int, b: int|
        #![trigger events.contains(Event::Matched { left: a, right: b })]
        events.contains(Event::Matched { left: a, right: b }) implies 0 <= a < inputs.left.len()
            && 0 <= b < inputs.right.len() && inputs.left[a] == inputs.right[b] by {
        assert(in_shape(inputs, 0, 0, false, false, Event::Matched { left: a, right: b }));
    }
}

/// Whatever the inputs hold, sorted or not: a matched row pairs records
/// with equal keys; a record is emitted alone only where its side emits
/// unmatched rows; and no row is emitted twice, so that a record that was
/// emitted alone at the comparison that found it without a partner is not
/// emitted again when the merge winds up.
pub proof fn law_unmatched_needs_flag(inputs: Inputs)
    requires
        inputs.left.len() > 0,
        inputs.right.len() > 0,
    ensures
        forall|a: int, b: int|
            #![trigger inputs.merge_events().contains(Event::Matched { left: a, right: b })]
            inputs.merge_events().contains(Event::Matched { left: a, right: b }) ==> 0 <= a
                < inputs.left.len() && 0 <= b < inputs.right.len() && inputs.left[a]
                == inputs.right[b],
        forall|a: int|
            #![trigger inputs.merge_events().contains(Event::LeftAlone { left: a })]
            inputs.merge_events().contains(Event::LeftAlone { left: a }) ==> inputs.left_all && 0
                <= a < inputs.left.len(),
        forall|b: int|
            #![trigger inputs.merge_events().contains(Event::RightAlone { right: b })]
            inputs.merge_events().contains(Event::RightAlone { right: b }) ==> inputs.right_all
                && 0 <= b < inputs.right.len(),
        inputs.merge_events().no_duplicates(),
{
    lemma_merge_shape(inputs, 0, 0, false, false);
    let events = inputs.merge_events();
    assert forall|a: int, b: int|
        #![trigger events.contains(Event::Matched { left: a, right: b })]
        events.contains(Event::Matched { left: a, right: b }) implies 0 <= a < inputs.left.len()
            && 0 <= b < inputs.right.len() && inputs.left[a] == inputs.right[b] by {
        assert(in_shape(inputs, 0, 0, false, false, Event::Matched { left: a, right: b }));
    }
    assert forall|a: int|
        #![trigger events.contains(Event::LeftAlone { left: a })]
        events.contains(Event::LeftAlone { left: a }) implies inputs.left_all && 0 <= a
            < inputs.left.len() by {
        assert(in_shape(inputs, 0, 0, false, false, Event::LeftAlone { left: a }));
    }
    assert forall|b: int|
        #![trigger events.contains(Event::RightAlone { right: b })]
        events.contains(Event::RightAlone { right: b }) implies inputs.right_all && 0 <= b
            < inputs.right.len() by {
        assert(in_shape(inputs, 0, 0, false, false, Event::RightAlone { right: b }));
    }
}

/// Whatever the inputs hold, a record that is emitted alone is emitted that
/// once and never again: it is on no matched row, and no row occurs twice.
pub proof fn law_alone_is_emitted_once(inputs: Inputs)
    requires
        inputs.left.len() > 0,
        inputs.right.len() > 0,
    ensures
        forall|a: int, b: int|
            #![trigger inputs.merge_events().contains(Event::Matched { left: a, right: b })]
            !(inputs.merge_events().contains(Event::LeftAlone { left: a })
                && inputs.merge_events().contains(Event::Matched { left: a, right: b })),
        forall|a: int, b: int|
            #![trigger inputs.merge_events().contains(Event::Matched { left: a, right: b })]
            !(inputs.merge_events().contains(Event::RightAlone { right: b })
                && inputs.merge_events().contains(Event::Matched { left: a, right: b })),
        inputs.merge_events().no_duplicates(),
{
    lemma_alone_is_unmatched(inputs, 0, 0, false, false);
    lemma_merge_shape(inputs, 0, 0, false, false);
}

/// In a merge of sorted inputs a record is emitted alone if and only if its
/// side emits unmatched rows and no record of the other input has its key.
pub proof fn law_unmatched_rows(inputs: Inputs)
    requires
        inputs.left.len() > 0,
        inputs.right.len() > 0,
        ascending(inputs.left),
        ascending(inputs.right),
        fans_one_way(inputs),
    ensures
        forall|a: int|
            #![trigger inputs.merge_events().contains(Event::LeftAlone { left: a })]
            inputs.merge_events().contains(Event::LeftAlone { left: a }) <==> inputs.left_all && 0
                <= a < inputs.left.len() && lonely_left(inputs, a),
        forall|b: int|
            #![trigger inputs.merge_events().contains(Event::RightAlone { right: b })]
            inputs.merge_events().contains(Event::RightAlone { right: b }) <==> inputs.right_all
                && 0 <= b < inputs.right.len() && lonely_right(inputs, b),
{
    lemma_aligned_at_start(inputs);
    lemma_merge_sorted(inputs, 0, 0, false, false);
    law_unmatched_needs_flag(inputs);
}

/// The rows that a full outer join of the inputs has: a matched row for
/// every pair of records with equal keys, and a row for every record
/// without a partner.
pub open spec fn full_outer(inputs: Inputs, e: Event) -> bool {
    match e {
        Event::Matched { left, right } => 0 <= left < inputs.left.len() && 0 <= right
            < inputs.right.len() && inputs.left[left] == inputs.right[right],
        Event::LeftAlone { left } => 0 <= left < inputs.left.len() && lonely_left(inputs, left),
        Event::RightAlone { right } => 0 <= right < inputs.right.len() && lonely_right(
            inputs,
            right,
        ),
    }
}

/// The matched rows of a full outer join.
pub open spec fn matched_rows(inputs: Inputs) -> Set<Event> {
    Set::new(|e: Event| e is Matched && full_outer(inputs, e))
}

/// The rows of a full outer join for the left records without a partner.
pub open spec fn left_alone_rows(inputs: Inputs) -> Set<Event> {
    Set::new(|e: Event| e is LeftAlone && full_outer(inputs, e))
}

/// The rows of a full outer join for the right records without a partner.
pub open spec fn right_alone_rows(inputs: Inputs) -> Set<Event> {
    Set::new(|e: Event| e is RightAlone && full_outer(inputs, e))
}

/// The left record at `a` is on the row.
pub open spec fn has_left(e: Event, a: int) -> bool {
    match e {
        Event::Matched { left, .. } => left == a,
        Event::LeftAlone { left } => left == a,
        Event::RightAlone { .. } => false,
    }
}

/// The right record at `b` is on the row.
pub open spec fn has_right(e: Event, b: int) -> bool {
    match e {
        Event::Matched { right, .. } => right == b,
        Event::LeftAlone { .. } => false,
        Event::RightAlone { right } => right == b,
    }
}

/// The left record at `a` is on some row of the merge.
pub open spec fn left_is_emitted(inputs: Inputs, a: int) -> bool {
    exists|e: Event| inputs.merge_events().contains(e) && #[trigger] has_left(e, a)
}

/// The right record at `b` is on some row of the merge.
pub open spec fn right_is_emitted(inputs: Inputs, b: int) -> bool {
    exists|e: Event| inputs.merge_events().contains(e) && #[trigger] has_right(e, b)
}

/// With both sides emitting unmatched rows, the merge of sorted inputs is
/// the full outer join.
///
/// Its rows are exactly the rows of the full outer join, each once. So
/// their number is the number of pairs with equal keys plus the number of
/// left records without a partner plus the number of right records without
/// a partner, and every record of either input is on at least one row.
pub proof fn law_full_outer_join(inputs: Inputs)
    requires
        inputs.left.len() > 0,
        inputs.right.len() > 0,
        inputs.left_all,
        inputs.right_all,
        ascending(inputs.left),
        ascending(inputs.right),
        fans_one_way(inputs),
    ensures
        forall|e: Event| #[trigger] inputs.merge_events().contains(e) <==> full_outer(inputs, e),
        inputs.merge_events().no_duplicates(),
        inputs.merge_events().len() == matched_rows(inputs).len() + left_alone_rows(inputs).len()
            + right_alone_rows(inputs).len(),
        forall|a: int| 0 <= a < inputs.left.len() ==> #[trigger] left_is_emitted(inputs, a),
        forall|b: int| 0 <= b < inputs.right.len() ==> #[trigger] right_is_emitted(inputs, b),
{
    let events = inputs.merge_events();
    law_matched_pairs(inputs);
    law_unmatched_rows(inputs);
    assert forall|e: Event| #[trigger] events.contains(e) <==> full_outer(inputs, e) by {
        match e {
            Event::Matched { left, right } => {
                assert(events.contains(Event::Matched { left, right }) <==> full_outer(inputs, e));
            },
            Event::LeftAlone { left } => {
                assert(events.contains(Event::LeftAlone { left }) <==> full_outer(inputs, e));
            },
            Event::RightAlone { right } => {
                assert(events.contains(Event::RightAlone { right }) <==> full_outer(inputs, e));
            },
        }
    }
    let matched = matched_rows(inputs);
    let left_alone = left_alone_rows(inputs);
    let right_alone = right_alone_rows(inputs);
    assert(events.to_set() =~= matched + left_alone + right_alone);
    seq_to_set_is_finite(events);
    assert(matched.subset_of(events.to_set()));
    assert(left_alone.subset_of(events.to_set()));
    assert(right_alone.subset_of(events.to_set()));
    lemma_set_subset_finite(events.to_set(), matched);
    lemma_set_subset_finite(events.to_set(), left_alone);
    lemma_set_subset_finite(events.to_set(), right_alone);
    assert((matched + left_alone).subset_of(events.to_set()));
    lemma_set_subset_finite(events.to_set(), matched + left_alone);
    lemma_set_disjoint_lens(matched, left_alone);
    lemma_set_disjoint_lens(matched + left_alone, right_alone);
    events.unique_seq_to_set();
    assert forall|a: int| 0 <= a < inputs.left.len() implies #[trigger] left_is_emitted(
        inputs,
        a,
    ) by {
        if lonely_left(inputs, a) {
            assert(events.contains(Event::LeftAlone { left: a }));
            assert(has_left(Event::LeftAlone { left: a }, a));
        } else {
            let b = choose|b: int| 0 <= b < inputs.right.len() && inputs.left[a] == inputs.right[b];
            assert(events.contains(Event::Matched { left: a, right: b }));
            assert(has_left(Event::Matched { left: a, right: b }, a));
        }
    }
    assert forall|b: int| 0 <= b < inputs.right.len() implies #[trigger] right_is_emitted(
        inputs,
        b,
    ) by {
        if lonely_right(inputs, b) {
            assert(events.contains(Event::RightAlone { right: b }));
            assert(has_right(Event::RightAlone { right: b }, b));
        } else {
            let a = choose|a: int| 0 <= a < inputs.left.len() && inputs.left[a] == inputs.right[b];
            assert(events.contains(Event::Matched { left: a, right: b }));
            assert(has_right(Event::Matched { left: a, right: b }, b));
        }
    }
}

/// No record has more than one partner: records of one input that share
/// their key have no partner in the other input.
pub open spec fn pairs_one_to_one(inputs: Inputs) -> bool {
    &&& forall|a: int, b: int|
        0 <= a < b < inputs.left.len() && #[trigger] inputs.left[a] == #[trigger] inputs.left[b]
            ==> lonely_left(inputs, a)
    &&& forall|a: int, b: int|
        0 <= a < b < inputs.right.len() && #[trigger] inputs.right[a]
            == #[trigger] inputs.right[b] ==> lonely_right(inputs, a)
}

/// Where, beyond that, no record has more than one partner, every record
/// of either input is on exactly one row of the full outer join: two rows
/// that hold the same record are the same row.
pub proof fn law_one_row_per_record(inputs: Inputs)
    requires
        inputs.left.len() > 0,
        inputs.right.len() > 0,
        inputs.left_all,
        inputs.right_all,
        ascending(inputs.left),
        ascending(inputs.right),
        pairs_one_to_one(inputs),
    ensures
        forall|a: int| 0 <= a < inputs.left.len() ==> #[trigger] left_is_emitted(inputs, a),
        forall|b: int| 0 <= b < inputs.right.len() ==> #[trigger] right_is_emitted(inputs, b),
        forall|e: Event, f: Event, a: int|
            inputs.merge_events().contains(e) && inputs.merge_events().contains(f)
                && #[trigger] has_left(e, a) && #[trigger] has_left(f, a) ==> e == f,
        forall|e: Event, f: Event, b: int|
            inputs.merge_events().contains(e) && inputs.merge_events().contains(f)
                && #[trigger] has_right(e, b) && #[trigger] has_right(f, b) ==> e == f,
{
    let events = inputs.merge_events();
    assert(fans_one_way(inputs)) by {
        assert forall|key: Seq<Seq<u8>>|
            !(#[trigger] repeats(inputs.left, key) && #[trigger] repeats(inputs.right, key)) by {
            if repeats(inputs.left, key) && repeats(inputs.right, key) {
                let (a, a2) = choose|a: int, a2: int|
                    0 <= a < a2 < inputs.left.len() && #[trigger] inputs.left[a] == key
                        && #[trigger] inputs.left[a2] == key;
                let (b, b2) = choose|b: int, b2: int|
                    0 <= b < b2 < inputs.right.len() && #[trigger] inputs.right[b] == key
                        && #[trigger] inputs.right[b2] == key;
                assert(inputs.left[a] == inputs.left[a2]);
                assert(lonely_left(inputs, a));
                assert(inputs.left[a] != inputs.right[b]);
            }
        }
    }
    law_full_outer_join(inputs);
    assert forall|e: Event, f: Event, a: int|
        events.contains(e) && events.contains(f) && #[trigger] has_left(e, a) && #[trigger] has_left(
            f,
            a,
        ) implies e == f by {
        lemma_one_partner(inputs, e, f);
    }
    assert forall|e: Event, f: Event, b: int|
        events.contains(e) && events.contains(f) && #[trigger] has_right(e, b)
            && #[trigger] has_right(f, b) implies e == f by {
        lemma_one_partner(inputs, e, f);
    }
}

/// Two rows of a full outer join that share a record are the same row,
/// where no record has more than one partner.
proof fn lemma_one_partner(inputs: Inputs, e: Event, f: Event)
    requires
        full_outer(inputs, e),
        full_outer(inputs, f),
        pairs_one_to_one(inputs),
    ensures
        forall|a: int| has_left(e, a) && has_left(f, a) ==> e == f,
        forall|b: int| has_right(e, b) && has_right(f, b) ==> e == f,
{
    match (e, f) {
        (Event::Matched { left: a, right: b }, Event::Matched { left: a2, right: b2 }) => {
            if a == a2 && b != b2 {
                if b < b2 {
                    assert(inputs.right[b] == inputs.right[b2]);
                    assert(lonely_right(inputs, b));
                } else {
                    assert(inputs.right[b2] == inputs.right[b]);
                    assert(lonely_right(inputs, b2));
                }
                assert(inputs.left[a] != inputs.right[b] || inputs.left[a] != inputs.right[b2]);
            }
            if b == b2 && a != a2 {
                if a < a2 {
                    assert(inputs.left[a] == inputs.left[a2]);
                    assert(lonely_left(inputs, a));
                } else {
                    assert(inputs.left[a2] == inputs.left[a]);
                    assert(lonely_left(inputs, a2));
                }
                assert(inputs.left[a] != inputs.right[b] || inputs.left[a2] != inputs.right[b]);
            }
        },
        (Event::Matched { left: a, right: b }, Event::LeftAlone { left: a2 }) => {
            if a == a2 {
                assert(inputs.left[a2] != inputs.right[b]);
            }
        },
        (Event::LeftAlone { left: a2 }, Event::Matched { left: a, right: b }) => {
            if a == a2 {
                assert(inputs.left[a2] != inputs.right[b]);
            }
        },
        (Event::Matched { left: a, right: b }, Event::RightAlone { right: b2 }) => {
            if b == b2 {
                assert(inputs.left[a] != inputs.right[b2]);
            }
        },
        (Event::RightAlone { right: b2 }, Event::Matched { left: a, right: b }) => {
            if b == b2 {
                assert(inputs.left[a] != inputs.right[b2]);
            }
        },
        _ => {},
    }
}

} // verus!
