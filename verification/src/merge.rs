//! The merge itself, as mathematics: which rows a merge join of two
//! sequences of keys emits, and in which order.
//!
//! The merge walks both inputs in step. At each position it compares the two
//! current keys, emits what the comparison calls for, and decides from the
//! keys one record ahead which input moves on.

use vstd::prelude::*;
use crate::config::Side;
use crate::order::{rank_keys, Rank};

verus! {

/// Which sides are present on an emitted row.
#[derive(Debug, Clone, Copy, PartialEq, Eq, Structural)]
pub enum Emit {
    /// A matched row: both sides.
    Both,
    /// A row of the left input that found no partner.
    LeftOnly,
    /// A row of the right input that found no partner.
    RightOnly,
}

/// Which input moves on after a comparison.
#[derive(Debug, Clone, Copy, PartialEq, Eq, Structural)]
pub enum Advance {
    Left,
    Right,
    Both,
    /// Neither: the input that should move on has ended.
    Stop,
}

/// What the driver does next.
#[derive(Debug, Clone, Copy, PartialEq, Eq, Structural)]
pub enum Phase {
    /// Merging: the left cursor advances before the next comparison.
    AdvanceLeft,
    /// Merging: the right cursor advances before the next comparison.
    AdvanceRight,
    /// Merging: both cursors advance before the next comparison.
    AdvanceBoth,
    /// The merge is over; the rest of the left input is read to its end.
    DrainLeft,
    /// The merge is over; the rest of the right input is read to its end.
    DrainRight,
    /// Nothing is left to do.
    Done,
}

/// What one side brings to a comparison.
pub struct Seat {
    /// The key of the current record.
    pub key: Seq<Seq<u8>>,
    /// The key of the record after it, unless the input has ended.
    pub next: Option<Seq<Seq<u8>>>,
    /// Whether rows of this side that find no partner are emitted.
    pub all: bool,
    /// Whether the current record has been emitted already.
    pub printed: bool,
}

/// What one comparison leads to.
pub struct Decision {
    /// The rows to emit, in order.
    pub rows: Seq<Emit>,
    /// Whether the current left record has been emitted after them.
    pub left_printed: bool,
    /// Whether the current right record has been emitted after them.
    pub right_printed: bool,
    /// What the driver does next.
    pub phase: Phase,
}

/// Which input moves on after a match. Where one input has ended the other
/// moves. Otherwise the keys one record ahead decide: if they are equal both
/// inputs move, else the input with the smaller one, so that the record it
/// leaves behind on the other side is paired again.
pub open spec fn advance_after_match(left: Seat, right: Seat) -> Advance {
    if left.next is None {
        if right.next is None {
            Advance::Stop
        } else {
            Advance::Right
        }
    } else if right.next is None {
        Advance::Left
    } else {
        match rank_keys(left.next->0, right.next->0) {
            Rank::Equal => Advance::Both,
            Rank::Less => Advance::Left,
            Rank::Greater => Advance::Right,
        }
    }
}

/// The row that a side's current record is emitted on alone, if it is: the
/// side emits unmatched rows and the record has not been emitted.
pub open spec fn unmatched_row(seat: Seat, row: Emit) -> Seq<Emit> {
    if seat.all && !seat.printed {
        seq![row]
    } else {
        Seq::empty()
    }
}

/// What the end of the merge leads to: each current record that was not
/// emitted yet is flushed, if its side emits unmatched rows, and the input
/// that has records left is drained.
pub open spec fn wind_up(rows: Seq<Emit>, left: Seat, right: Seat) -> Decision {
    Decision {
        rows: rows + unmatched_row(left, Emit::LeftOnly) + unmatched_row(right, Emit::RightOnly),
        left_printed: left.printed || left.all,
        right_printed: right.printed || right.all,
        phase: if left.next is Some {
            Phase::DrainLeft
        } else if right.next is Some {
            Phase::DrainRight
        } else {
            Phase::Done
        },
    }
}

/// What the comparison of the two current keys leads to.
///
/// Equal keys give a matched row. A smaller key on one side gives that
/// side's record alone, if the side emits unmatched rows and the record was
/// not emitted yet, and that side moves on. Where the side that should move
/// on has ended, the merge ends.
pub open spec fn decide(left: Seat, right: Seat) -> Decision {
    match rank_keys(left.key, right.key) {
        Rank::Equal => {
            let left_after = Seat { printed: true, ..left };
            let right_after = Seat { printed: true, ..right };
            match advance_after_match(left, right) {
                Advance::Left => Decision {
                    rows: seq![Emit::Both],
                    left_printed: true,
                    right_printed: true,
                    phase: Phase::AdvanceLeft,
                },
                Advance::Right => Decision {
                    rows: seq![Emit::Both],
                    left_printed: true,
                    right_printed: true,
                    phase: Phase::AdvanceRight,
                },
                Advance::Both => Decision {
                    rows: seq![Emit::Both],
                    left_printed: true,
                    right_printed: true,
                    phase: Phase::AdvanceBoth,
                },
                Advance::Stop => wind_up(seq![Emit::Both], left_after, right_after),
            }
        },
        Rank::Less => {
            let rows = unmatched_row(left, Emit::LeftOnly);
            let left_after = Seat { printed: left.printed || left.all, ..left };
            if left.next is Some {
                Decision {
                    rows,
                    left_printed: left_after.printed,
                    right_printed: right.printed,
                    phase: Phase::AdvanceLeft,
                }
            } else {
                wind_up(rows, left_after, right)
            }
        },
        Rank::Greater => {
            let rows = unmatched_row(right, Emit::RightOnly);
            let right_after = Seat { printed: right.printed || right.all, ..right };
            if right.next is Some {
                Decision {
                    rows,
                    left_printed: left.printed,
                    right_printed: right_after.printed,
                    phase: Phase::AdvanceRight,
                }
            } else {
                wind_up(rows, left, right_after)
            }
        },
    }
}

/// One emitted row, by the positions of the records on it.
pub enum Event {
    /// The left record at `left` with the right record at `right`.
    Matched { left: int, right: int },
    /// The left record at `left`, with nothing on the right.
    LeftAlone { left: int },
    /// The right record at `right`, with nothing on the left.
    RightAlone { right: int },
}

/// The keys of two inputs, and which of them emit unmatched rows.
pub struct Inputs {
    /// The keys of the left records, in the order of the input.
    pub left: Seq<Seq<Seq<u8>>>,
    /// The keys of the right records, in the order of the input.
    pub right: Seq<Seq<Seq<u8>>>,
    /// Left records without a partner are emitted.
    pub left_all: bool,
    /// Right records without a partner are emitted.
    pub right_all: bool,
}

/// The event that a row emitted at the positions `i` and `j` is.
pub open spec fn event_at(row: Emit, i: int, j: int) -> Event {
    match row {
        Emit::Both => Event::Matched { left: i, right: j },
        Emit::LeftOnly => Event::LeftAlone { left: i },
        Emit::RightOnly => Event::RightAlone { right: j },
    }
}

/// The events that rows emitted at the positions `i` and `j` are.
pub open spec fn events_at(rows: Seq<Emit>, i: int, j: int) -> Seq<Event> {
    Seq::new(rows.len(), |k: int| event_at(rows[k], i, j))
}

/// The records of one side from `from` up to `to`, each emitted alone.
pub open spec fn drained(side: Side, from: int, to: int) -> Seq<Event> {
    Seq::new(
        if to >= from {
            (to - from) as nat
        } else {
            0
        },
        |k: int|
            match side {
                Side::Left => Event::LeftAlone { left: from + k },
                Side::Right => Event::RightAlone { right: from + k },
            },
    )
}

impl Inputs {
    /// What the left side brings to the comparison at `i`.
    pub open spec fn left_seat(self, i: int, printed: bool) -> Seat {
        Seat {
            key: self.left[i],
            next: if i + 1 < self.left.len() {
                Some(self.left[i + 1])
            } else {
                None
            },
            all: self.left_all,
            printed,
        }
    }

    /// What the right side brings to the comparison at `j`.
    pub open spec fn right_seat(self, j: int, printed: bool) -> Seat {
        Seat {
            key: self.right[j],
            next: if j + 1 < self.right.len() {
                Some(self.right[j + 1])
            } else {
                None
            },
            all: self.right_all,
            printed,
        }
    }

    /// The events that follow the comparison at `i` and `j`, once it has
    /// left the driver in `phase` and the current records emitted or not as
    /// the two flags say.
    pub open spec fn after(
        self,
        phase: Phase,
        i: int,
        j: int,
        left_printed: bool,
        right_printed: bool,
    ) -> Seq<Event>
        decreases self.left.len() - i + self.right.len() - j, 0int,
    {
        if !(0 <= i < self.left.len() && 0 <= j < self.right.len()) {
            Seq::empty()
        } else {
            match phase {
                Phase::AdvanceLeft => if i + 1 < self.left.len() {
                    self.merge_from(i + 1, j, false, right_printed)
                } else {
                    Seq::empty()
                },
                Phase::AdvanceRight => if j + 1 < self.right.len() {
                    self.merge_from(i, j + 1, left_printed, false)
                } else {
                    Seq::empty()
                },
                Phase::AdvanceBoth => if i + 1 < self.left.len() && j + 1 < self.right.len() {
                    self.merge_from(i + 1, j + 1, false, false)
                } else {
                    Seq::empty()
                },
                Phase::DrainLeft => if self.left_all {
                    drained(Side::Left, i + 1, self.left.len() as int)
                } else {
                    Seq::empty()
                },
                Phase::DrainRight => if self.right_all {
                    drained(Side::Right, j + 1, self.right.len() as int)
                } else {
                    Seq::empty()
                },
                Phase::Done => Seq::empty(),
            }
        }
    }

    /// The events of the merge from the comparison at `i` and `j` on.
    pub open spec fn merge_from(self, i: int, j: int, left_printed: bool, right_printed: bool) -> Seq<
        Event,
    >
        decreases self.left.len() - i + self.right.len() - j, 1int,
    {
        if !(0 <= i < self.left.len() && 0 <= j < self.right.len()) {
            Seq::empty()
        } else {
            let d = decide(self.left_seat(i, left_printed), self.right_seat(j, right_printed));
            events_at(d.rows, i, j) + self.after(d.phase, i, j, d.left_printed, d.right_printed)
        }
    }

    /// The events of the whole merge.
    pub open spec fn merge_events(self) -> Seq<Event> {
        self.merge_from(0, 0, false, false)
    }
}

} // verus!
