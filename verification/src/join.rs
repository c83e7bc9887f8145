//! The join of two inputs that are held in memory, and what it emits, said
//! over the inputs as a whole.

use vstd::prelude::*;
use vstd::slice::slice_to_vec;
use crate::config::{bytes_of, JoinConfig, JoinError, JoinFileConfig, KeyField, Side};
use crate::cursor::{line_view, resolved_keys, resolved_keys_upto, Cursor, CursorState};
use crate::driver::{
    lines_view, primed, primed_cursor, seat_of, started, JoinState, Joiner, Lead, Opening,
};
use crate::fields::{join_cells, keys_upto, lemma_split_plain, Record};
use crate::order::lemma_rank_keys_equal;
use crate::merge::{decide, event_at, events_at, Emit, Event, Inputs, Phase};
use crate::project::{
    auto_columns, column_cells, other_columns_upto, render_row, row_cells_upto, row_part, Column,
    Part,
};

verus! {

/// The line at `index`, if there is one.
pub open spec fn line_at(lines: Seq<Seq<u8>>, index: int) -> Option<Seq<u8>> {
    if 0 <= index < lines.len() {
        Some(lines[index])
    } else {
        None
    }
}

/// The first lines of an input: its header line, where the inputs have
/// one, and its first two records.
pub open spec fn lead_of(lines: Seq<Seq<u8>>, has_header: bool) -> Lead {
    if has_header {
        Lead { header: line_at(lines, 0), first: line_at(lines, 1), second: line_at(lines, 2) }
    } else {
        Lead { header: None, first: line_at(lines, 0), second: line_at(lines, 1) }
    }
}

/// The lines of an input that are records: all but the header line.
pub open spec fn data_lines(lines: Seq<Seq<u8>>, has_header: bool) -> Seq<Seq<u8>> {
    if has_header && lines.len() > 0 {
        lines.skip(1)
    } else {
        lines
    }
}

/// The records that lines split into.
pub open spec fn records(lines: Seq<Seq<u8>>, delim: u8, key_fields: Seq<usize>) -> Seq<Record> {
    Seq::new(lines.len(), |i: int| Record::of(lines[i], delim, key_fields))
}

/// The keys of records.
pub open spec fn keys_of(records: Seq<Record>) -> Seq<Seq<Seq<u8>>> {
    Seq::new(records.len(), |i: int| records[i].keys())
}

/// The record that stands on the side of a row that is absent from it. What
/// it holds shows nowhere on the row.
pub open spec fn no_record() -> Record {
    Record { line: Seq::empty(), fields: Seq::empty(), key_fields: Seq::empty() }
}

/// A join that is ready to run: the resolved projection, the records of
/// both inputs, and the settings of both sides.
pub struct Plan {
    /// The columns of every output row.
    pub columns: Seq<Column>,
    /// The delimiter of the output.
    pub delim: u8,
    /// The records of the left input.
    pub left: Seq<Record>,
    /// The records of the right input.
    pub right: Seq<Record>,
    /// Left records without a partner are emitted.
    pub left_all: bool,
    /// Right records without a partner are emitted.
    pub right_all: bool,
    /// What stands in for a left field on a row without a left record.
    pub left_missing: Seq<u8>,
    /// What stands in for a right field on a row without a right record.
    pub right_missing: Seq<u8>,
}

impl Plan {
    /// The keys that the merge runs over.
    pub open spec fn inputs(self) -> Inputs {
        Inputs {
            left: keys_of(self.left),
            right: keys_of(self.right),
            left_all: self.left_all,
            right_all: self.right_all,
        }
    }

    /// The left side of a row.
    pub open spec fn left_part(self, at: Option<int>) -> Part {
        match at {
            Some(i) => Part { record: self.left[i], present: true, missing: self.left_missing },
            None => Part { record: no_record(), present: false, missing: self.left_missing },
        }
    }

    /// The right side of a row.
    pub open spec fn right_part(self, at: Option<int>) -> Part {
        match at {
            Some(j) => Part { record: self.right[j], present: true, missing: self.right_missing },
            None => Part { record: no_record(), present: false, missing: self.right_missing },
        }
    }

    /// The rendered row of an event.
    pub open spec fn row(self, event: Event) -> Seq<u8> {
        match event {
            Event::Matched { left, right } => render_row(
                self.columns,
                self.delim,
                self.left_part(Some(left)),
                self.right_part(Some(right)),
            ),
            Event::LeftAlone { left } => render_row(
                self.columns,
                self.delim,
                self.left_part(Some(left)),
                self.right_part(None),
            ),
            Event::RightAlone { right } => render_row(
                self.columns,
                self.delim,
                self.left_part(None),
                self.right_part(Some(right)),
            ),
        }
    }

    /// The rendered rows of events.
    pub open spec fn rows(self, events: Seq<Event>) -> Seq<Seq<u8>> {
        Seq::new(events.len(), |k: int| self.row(events[k]))
    }

    /// Every row that the join emits for its records, in order.
    pub open spec fn output(self) -> Seq<Seq<u8>> {
        self.rows(self.inputs().merge_events())
    }
}

/// The plan that a primed driver makes with the record lines of both
/// inputs.
pub open spec fn plan_for(base: JoinState, left: Seq<Seq<u8>>, right: Seq<Seq<u8>>) -> Plan {
    Plan {
        columns: base.columns,
        delim: base.delim,
        left: records(left, base.delim, base.left.key_fields),
        right: records(right, base.delim, base.right.key_fields),
        left_all: base.left.all,
        right_all: base.right.all,
        left_missing: base.left.missing,
        right_missing: base.right.missing,
    }
}

/// What the join of two inputs emits, or the reason why it cannot run.
///
/// The join is primed from the first lines of both inputs. It emits the
/// header row, where the inputs have header lines, and then the rows of the
/// merge over the keys of all records.
pub open spec fn joined(config: JoinConfig, left: Seq<Seq<u8>>, right: Seq<Seq<u8>>) -> Result<
    Seq<Seq<u8>>,
    JoinError,
> {
    match primed(config, lead_of(left, config.has_header), lead_of(right, config.has_header)) {
        Err(e) => Err(e),
        Ok(state) => {
            let header = if config.has_header {
                seq![state.header_row()]
            } else {
                Seq::empty()
            };
            Ok(
                header + plan_for(
                    state,
                    data_lines(left, config.has_header),
                    data_lines(right, config.has_header),
                ).output(),
            )
        },
    }
}

/// The cursor that stands at the record `i` of `lines`: that record is
/// current, the one after it is the lookahead, and the input has ended where
/// there is none after it.
spec fn cursor_at(base: Cursor, lines: Seq<Seq<u8>>, i: int, printed: bool) -> Cursor {
    Cursor {
        row: Record::of(lines[i], base.delim, base.key_fields),
        next_row: if i + 1 < lines.len() {
            Record::of(lines[i + 1], base.delim, base.key_fields)
        } else {
            Record::of(lines[i], base.delim, base.key_fields)
        },
        eof: i + 1 >= lines.len(),
        printed,
        stage: if i == 0 {
            CursorState::Primed
        } else {
            CursorState::Advancing
        },
        ..base
    }
}

/// Advancing the cursor at record `i` with the line two records on gives
/// the cursor at record `i + 1`.
proof fn lemma_refill_moves(base: Cursor, lines: Seq<Seq<u8>>, i: int, printed: bool)
    requires
        0 <= i,
        i + 1 < lines.len(),
    ensures
        cursor_at(base, lines, i, printed).refill(line_at(lines, i + 2)) == cursor_at(
            base,
            lines,
            i + 1,
            false,
        ),
{
}

/// A row does not show what the record of an absent side holds.
proof fn lemma_absent_cells(columns: Seq<Column>, left: Part, right: Part, other: Record, n: int)
    requires
        0 <= n <= columns.len(),
    ensures
        left.present && !right.present ==> row_cells_upto(columns, left, right, n) == row_cells_upto(
            columns,
            left,
            Part { record: other, ..right },
            n,
        ),
        !left.present && right.present ==> row_cells_upto(columns, left, right, n)
            == row_cells_upto(columns, Part { record: other, ..left }, right, n),
    decreases n,
{
    if n > 0 {
        lemma_absent_cells(columns, left, right, other, n - 1);
        let col = columns[n - 1];
        if left.present && !right.present {
            assert(column_cells(col, left, right) == column_cells(
                col,
                left,
                Part { record: other, ..right },
            ));
        }
        if !left.present && right.present {
            assert(column_cells(col, left, right) == column_cells(
                col,
                Part { record: other, ..left },
                right,
            ));
        }
    }
}

/// The driver stands at the records `i` and `j`: its cursors are the
/// cursors at those records, and a cursor that is to advance has a record to
/// advance to.
spec fn stands_at(
    state: JoinState,
    base: JoinState,
    left: Seq<Seq<u8>>,
    right: Seq<Seq<u8>>,
    i: int,
    j: int,
) -> bool {
    &&& 0 <= i < left.len()
    &&& 0 <= j < right.len()
    &&& base.left.delim == base.delim
    &&& base.right.delim == base.delim
    &&& state == (JoinState {
        left: cursor_at(base.left, left, i, state.left.printed),
        right: cursor_at(base.right, right, j, state.right.printed),
        phase: state.phase,
        ..base
    })
    &&& state.phase == Phase::AdvanceLeft || state.phase == Phase::AdvanceBoth ==> i + 1
        < left.len()
    &&& state.phase == Phase::AdvanceRight || state.phase == Phase::AdvanceBoth ==> j + 1
        < right.len()
}

/// The events that are still to come for a driver that stands at `i` and
/// `j`.
spec fn pending(plan: Plan, state: JoinState, i: int, j: int) -> Seq<Event> {
    plan.inputs().after(state.phase, i, j, state.left.printed, state.right.printed)
}

/// The position that the driver stands at after the next feed.
spec fn position_after(phase: Phase, left_len: int, right_len: int, i: int, j: int) -> (
    int,
    int,
) {
    match phase {
        Phase::AdvanceLeft => (i + 1, j),
        Phase::AdvanceRight => (i, j + 1),
        Phase::AdvanceBoth => (i + 1, j + 1),
        Phase::DrainLeft => if i + 1 < left_len {
            (i + 1, j)
        } else {
            (i, j)
        },
        Phase::DrainRight => if j + 1 < right_len {
            (i, j + 1)
        } else {
            (i, j)
        },
        Phase::Done => (i, j),
    }
}

/// How many feeds the driver can take at most before it is done.
spec fn feeds_left(phase: Phase, left_len: int, right_len: int, i: int, j: int) -> int {
    left_len - i + right_len - j + if phase == Phase::Done {
        0int
    } else {
        1int
    }
}

/// The rows of events that follow one another are the rows of the first
/// followed by the rows of the second.
proof fn lemma_rows_concat(plan: Plan, a: Seq<Event>, b: Seq<Event>)
    ensures
        plan.rows(a + b) == plan.rows(a) + plan.rows(b),
{
    assert(plan.rows(a + b) =~= plan.rows(a) + plan.rows(b));
}

/// The rows that a driver renders from its current records are the rows of
/// the events at its position.
proof fn lemma_rendered_rows(
    state: JoinState,
    base: JoinState,
    left: Seq<Seq<u8>>,
    right: Seq<Seq<u8>>,
    i: int,
    j: int,
    rows: Seq<Emit>,
)
    requires
        stands_at(state, base, left, right, i, j),
    ensures
        state.rendered(rows) == plan_for(base, left, right).rows(events_at(rows, i, j)),
{
    let plan = plan_for(base, left, right);
    assert forall|k: int| 0 <= k < rows.len() implies state.rendered(rows)[k] == plan.rows(
        events_at(rows, i, j),
    )[k] by {
        let left_part = row_part(state.left, rows[k] != Emit::RightOnly);
        let right_part = row_part(state.right, rows[k] != Emit::LeftOnly);
        lemma_absent_cells(
            state.columns,
            left_part,
            right_part,
            no_record(),
            state.columns.len() as int,
        );
        assert(plan.left[i] == state.left.row);
        assert(plan.right[j] == state.right.row);
        assert(events_at(rows, i, j)[k] == event_at(rows[k], i, j));
    }
    assert(state.rendered(rows) =~= plan.rows(events_at(rows, i, j)));
}

/// One comparison of the driver emits the next events of the merge and
/// leaves the rest of them pending.
proof fn lemma_step_refines(
    state: JoinState,
    base: JoinState,
    left: Seq<Seq<u8>>,
    right: Seq<Seq<u8>>,
    i: int,
    j: int,
)
    requires
        0 <= i < left.len(),
        0 <= j < right.len(),
        base.left.delim == base.delim,
        base.right.delim == base.delim,
        state == (JoinState {
            left: cursor_at(base.left, left, i, state.left.printed),
            right: cursor_at(base.right, right, j, state.right.printed),
            phase: state.phase,
            ..base
        }),
    ensures
        stands_at(state.step().0, base, left, right, i, j),
        plan_for(base, left, right).rows(
            plan_for(base, left, right).inputs().merge_from(
                i,
                j,
                state.left.printed,
                state.right.printed,
            ),
        ) == state.step().1 + plan_for(base, left, right).rows(
            pending(plan_for(base, left, right), state.step().0, i, j),
        ),
{
    let plan = plan_for(base, left, right);
    let inputs = plan.inputs();
    let tidy = JoinState { phase: Phase::Done, ..state };
    assert(stands_at(tidy, base, left, right, i, j));
    assert(seat_of(state.left) == inputs.left_seat(i, state.left.printed));
    assert(seat_of(state.right) == inputs.right_seat(j, state.right.printed));
    let d = decide(seat_of(state.left), seat_of(state.right));
    lemma_rendered_rows(tidy, base, left, right, i, j, d.rows);
    assert(tidy.rendered(d.rows) == state.rendered(d.rows));
    lemma_rows_concat(
        plan,
        events_at(d.rows, i, j),
        inputs.after(d.phase, i, j, d.left_printed, d.right_printed),
    );
}

/// One feed of the driver, with the lines that follow its lookahead, emits
/// the next pending events and leaves the rest of them pending.
proof fn lemma_feed_refines(
    state: JoinState,
    base: JoinState,
    left: Seq<Seq<u8>>,
    right: Seq<Seq<u8>>,
    i: int,
    j: int,
    left_line: Option<Seq<u8>>,
    right_line: Option<Seq<u8>>,
)
    requires
        stands_at(state, base, left, right, i, j),
        state.wants().0 && i + 1 < left.len() ==> left_line == line_at(left, i + 2),
        state.wants().1 && j + 1 < right.len() ==> right_line == line_at(right, j + 2),
    ensures
        ({
            let (i2, j2) = position_after(state.phase, left.len() as int, right.len() as int, i, j);
            let plan = plan_for(base, left, right);
            let (next, rows) = state.feed(left_line, right_line);
            &&& stands_at(next, base, left, right, i2, j2)
            &&& plan.rows(pending(plan, state, i, j)) == rows + plan.rows(
                pending(plan, next, i2, j2),
            )
            &&& state.phase != Phase::Done ==> feeds_left(
                next.phase,
                left.len() as int,
                right.len() as int,
                i2,
                j2,
            ) < feeds_left(state.phase, left.len() as int, right.len() as int, i, j)
        }),
{
    let plan = plan_for(base, left, right);
    match state.phase {
        Phase::AdvanceLeft => {
            lemma_refill_moves(base.left, left, i, state.left.printed);
            let moved = JoinState { left: state.left.refill(left_line), ..state };
            lemma_step_refines(moved, base, left, right, i + 1, j);
        },
        Phase::AdvanceRight => {
            lemma_refill_moves(base.right, right, j, state.right.printed);
            let moved = JoinState { right: state.right.refill(right_line), ..state };
            lemma_step_refines(moved, base, left, right, i, j + 1);
        },
        Phase::AdvanceBoth => {
            lemma_refill_moves(base.left, left, i, state.left.printed);
            lemma_refill_moves(base.right, right, j, state.right.printed);
            let moved = JoinState {
                left: state.left.refill(left_line),
                right: state.right.refill(right_line),
                ..state
            };
            lemma_step_refines(moved, base, left, right, i + 1, j + 1);
        },
        Phase::DrainLeft => {
            if i + 1 < left.len() {
                lemma_refill_moves(base.left, left, i, state.left.printed);
                let moved = JoinState { left: state.left.refill(left_line), ..state };
                let next = state.feed(left_line, right_line).0;
                if base.left.all {
                    let tidy = JoinState { phase: Phase::Done, ..moved };
                    assert(stands_at(tidy, base, left, right, i + 1, j));
                    lemma_rendered_rows(tidy, base, left, right, i + 1, j, seq![Emit::LeftOnly]);
                    assert(tidy.rendered(seq![Emit::LeftOnly]) == moved.rendered(
                        seq![Emit::LeftOnly],
                    ));
                    assert(pending(plan, state, i, j) =~= events_at(
                        seq![Emit::LeftOnly],
                        i + 1,
                        j,
                    ) + pending(plan, next, i + 1, j));
                    lemma_rows_concat(
                        plan,
                        events_at(seq![Emit::LeftOnly], i + 1, j),
                        pending(plan, next, i + 1, j),
                    );
                } else {
                    assert(pending(plan, state, i, j) =~= Seq::<Event>::empty());
                    assert(pending(plan, next, i + 1, j) =~= Seq::<Event>::empty());
                    assert(plan.rows(Seq::<Event>::empty()) =~= Seq::<Seq<u8>>::empty());
                }
            } else {
                assert(pending(plan, state, i, j) =~= Seq::<Event>::empty());
                assert(plan.rows(Seq::<Event>::empty()) =~= Seq::<Seq<u8>>::empty());
            }
        },
        Phase::DrainRight => {
            if j + 1 < right.len() {
                lemma_refill_moves(base.right, right, j, state.right.printed);
                let moved = JoinState { right: state.right.refill(right_line), ..state };
                let next = state.feed(left_line, right_line).0;
                if base.right.all {
                    let tidy = JoinState { phase: Phase::Done, ..moved };
                    assert(stands_at(tidy, base, left, right, i, j + 1));
                    lemma_rendered_rows(tidy, base, left, right, i, j + 1, seq![Emit::RightOnly]);
                    assert(tidy.rendered(seq![Emit::RightOnly]) == moved.rendered(
                        seq![Emit::RightOnly],
                    ));
                    assert(pending(plan, state, i, j) =~= events_at(
                        seq![Emit::RightOnly],
                        i,
                        j + 1,
                    ) + pending(plan, next, i, j + 1));
                    lemma_rows_concat(
                        plan,
                        events_at(seq![Emit::RightOnly], i, j + 1),
                        pending(plan, next, i, j + 1),
                    );
                } else {
                    assert(pending(plan, state, i, j) =~= Seq::<Event>::empty());
                    assert(pending(plan, next, i, j + 1) =~= Seq::<Event>::empty());
                    assert(plan.rows(Seq::<Event>::empty()) =~= Seq::<Seq<u8>>::empty());
                }
            } else {
                assert(pending(plan, state, i, j) =~= Seq::<Event>::empty());
                assert(plan.rows(Seq::<Event>::empty()) =~= Seq::<Seq<u8>>::empty());
            }
        },
        Phase::Done => {
            assert(plan.rows(Seq::<Event>::empty()) =~= Seq::<Seq<u8>>::empty());
        },
    }
}

/// A primed cursor stands at the first record of its input.
proof fn lemma_primed_stands(
    config: JoinFileConfig,
    delim: u8,
    has_header: bool,
    side: Side,
    lines: Seq<Seq<u8>>,
)
    requires
        primed_cursor(config, delim, has_header, side, lead_of(lines, has_header)) is Ok,
    ensures
        ({
            let cursor = primed_cursor(
                config,
                delim,
                has_header,
                side,
                lead_of(lines, has_header),
            )->Ok_0;
            let data = data_lines(lines, has_header);
            &&& data.len() >= 1
            &&& cursor == cursor_at(cursor, data, 0, false)
            &&& cursor.delim == delim
        }),
{
}

/// Two inputs of one record each, which holds nothing but the key, give
/// the key back under the projection that is laid out from the inputs.
///
/// The key is not empty and holds no delimiter; it is the first and only
/// field on both sides; the inputs have no header line. Then the join emits
/// one row, and the row is the key, once.
pub proof fn law_single_key_round_trip(config: JoinConfig, key: Seq<u8>)
    requires
        !config.has_header,
        bytes_of(config.delim@).len() == 1,
        key.len() > 0,
        forall|i: int| 0 <= i < key.len() ==> key[i] != bytes_of(config.delim@)[0],
        config.left.key_fields@ == seq![KeyField::Indexed(0)],
        config.right.key_fields@ == seq![KeyField::Indexed(0)],
        config.output is Auto,
    ensures
        joined(config, seq![key], seq![key]) == Ok::<Seq<Seq<u8>>, JoinError>(seq![key]),
{
    let delim = bytes_of(config.delim@)[0];
    let lines = seq![key];
    let lead = lead_of(lines, false);
    let keys: Seq<usize> = seq![0usize];
    let record = Record::of(key, delim, keys);
    lemma_split_plain(key, delim);
    assert(record.fields == seq![key]);
    assert(record.keys() == seq![key]) by {
        reveal_with_fuel(keys_upto, 2);
        assert(keys_upto(record.fields, keys, 1) =~= seq![key]);
    }
    assert(resolved_keys(seq![KeyField::Indexed(0)], None, Side::Left) == Ok::<
        Seq<usize>,
        JoinError,
    >(keys)) by {
        reveal_with_fuel(resolved_keys_upto, 2);
        assert(Seq::<usize>::empty().push(0usize) =~= keys);
    }
    assert(resolved_keys(seq![KeyField::Indexed(0)], None, Side::Right) == Ok::<
        Seq<usize>,
        JoinError,
    >(keys)) by {
        reveal_with_fuel(resolved_keys_upto, 2);
        assert(Seq::<usize>::empty().push(0usize) =~= keys);
    }
    let left = primed_cursor(config.left, delim, false, Side::Left, lead);
    let right = primed_cursor(config.right, delim, false, Side::Right, lead);
    assert(left is Ok && left->Ok_0.row == record && left->Ok_0.eof && left->Ok_0.num_fields == 1
        && left->Ok_0.key_fields == keys && left->Ok_0.delim == delim);
    assert(right is Ok && right->Ok_0.row == record && right->Ok_0.eof && right->Ok_0.num_fields
        == 1 && right->Ok_0.key_fields == keys && right->Ok_0.delim == delim);
    let columns = seq![Column::Key];
    assert(auto_columns(1, keys, 1, keys) == columns) by {
        reveal_with_fuel(other_columns_upto, 2);
        assert(keys[0] == 0usize);
        assert(keys.contains(0usize));
        assert(auto_columns(1, keys, 1, keys) =~= columns);
    }
    let state = primed(config, lead, lead);
    assert(state is Ok && state->Ok_0.columns == columns && state->Ok_0.delim == delim);
    let plan = plan_for(state->Ok_0, lines, lines);
    assert(plan.left =~= seq![record]);
    assert(plan.right =~= seq![record]);
    let inputs = plan.inputs();
    assert(inputs.left =~= seq![seq![key]]);
    assert(inputs.right =~= seq![seq![key]]);
    lemma_rank_keys_equal(seq![key], seq![key]);
    let d = decide(inputs.left_seat(0, false), inputs.right_seat(0, false));
    assert(d.rows =~= seq![Emit::Both] && d.phase == Phase::Done);
    let events = inputs.merge_events();
    assert(events =~= seq![Event::Matched { left: 0, right: 0 }]);
    let part_left = plan.left_part(Some(0int));
    let part_right = plan.right_part(Some(0int));
    assert(row_cells_upto(columns, part_left, part_right, 1) =~= seq![key]) by {
        reveal_with_fuel(row_cells_upto, 2);
    }
    assert(plan.row(events[0]) == key) by {
        assert(render_row(columns, delim, part_left, part_right) == join_cells(seq![key], delim));
    }
    assert(plan.output() =~= seq![key]);
    assert(Seq::<Seq<u8>>::empty() + seq![key] =~= seq![key]);
}

/// What the result of a join holds.
pub open spec fn rows_view(r: Result<Vec<Vec<u8>>, JoinError>) -> Result<Seq<Seq<u8>>, JoinError> {
    match r {
        Ok(rows) => Ok(lines_view(rows@)),
        Err(e) => Err(e),
    }
}

/// A copy of the line at `index`, if there is one.
fn get_line(lines: &Vec<Vec<u8>>, index: usize) -> (line: Option<Vec<u8>>)
    ensures
        line_view(line) == line_at(lines_view(lines@), index as int),
{
    if index < lines.len() {
        Some(slice_to_vec(lines[index].as_slice()))
    } else {
        None
    }
}

/// The first lines of an input.
fn opening(lines: &Vec<Vec<u8>>, has_header: bool) -> (o: Opening)
    ensures
        o@ == lead_of(lines_view(lines@), has_header),
{
    if has_header {
        Opening { header: get_line(lines, 0), first: get_line(lines, 1), second: get_line(lines, 2) }
    } else {
        Opening { header: None, first: get_line(lines, 0), second: get_line(lines, 1) }
    }
}

/// The driver stands at the records `i` and `j`, and the rows emitted so
/// far, followed by the rows of the events that are still to come, are the
/// rows of the whole join.
#[verifier::opaque]
spec fn on_track(
    state: JoinState,
    base: JoinState,
    left: Seq<Seq<u8>>,
    right: Seq<Seq<u8>>,
    i: int,
    j: int,
    rows: Seq<Seq<u8>>,
    total: Seq<Seq<u8>>,
) -> bool {
    &&& stands_at(state, base, left, right, i, j)
    &&& rows + plan_for(base, left, right).rows(
        pending(plan_for(base, left, right), state, i, j),
    ) == total
}

/// The record at `k` is the line at `k` after the header line.
proof fn lemma_data_line(lines: Seq<Seq<u8>>, has_header: bool, k: int)
    requires
        0 <= k,
    ensures
        line_at(data_lines(lines, has_header), k) == line_at(
            lines,
            k + if has_header {
                1int
            } else {
                0int
            },
        ),
        data_lines(lines, has_header).len() >= 1 ==> data_lines(lines, has_header).len() + (
        if has_header {
            1int
        } else {
            0int
        }) == lines.len(),
{
}

/// A driver that has just been started is on track.
proof fn lemma_track_start(
    config: JoinConfig,
    left: Seq<Seq<u8>>,
    right: Seq<Seq<u8>>,
)
    requires
        primed(config, lead_of(left, config.has_header), lead_of(right, config.has_header)) is Ok,
    ensures
        ({
            let base = primed(
                config,
                lead_of(left, config.has_header),
                lead_of(right, config.has_header),
            )->Ok_0;
            let start = started(
                config,
                lead_of(left, config.has_header),
                lead_of(right, config.has_header),
            );
            &&& start is Ok
            &&& joined(config, left, right) is Ok
            &&& on_track(
                start->Ok_0.0,
                base,
                data_lines(left, config.has_header),
                data_lines(right, config.has_header),
                0,
                0,
                start->Ok_0.1,
                joined(config, left, right)->Ok_0,
            )
        }),
{
    reveal(on_track);
    let has_header = config.has_header;
    let base = primed(config, lead_of(left, has_header), lead_of(right, has_header))->Ok_0;
    let delim = crate::config::bytes_of(config.delim@)[0];
    lemma_primed_stands(config.left, delim, has_header, Side::Left, left);
    lemma_primed_stands(config.right, delim, has_header, Side::Right, right);
    let left_data = data_lines(left, has_header);
    let right_data = data_lines(right, has_header);
    lemma_step_refines(base, base, left_data, right_data, 0, 0);
    let plan = plan_for(base, left_data, right_data);
    let header = if has_header {
        seq![base.header_row()]
    } else {
        Seq::<Seq<u8>>::empty()
    };
    assert(header + base.step().1 + plan.rows(pending(plan, base.step().0, 0, 0)) =~= header + (
    base.step().1 + plan.rows(pending(plan, base.step().0, 0, 0))));
}

/// A driver that is on track stays on track when it is fed the lines that
/// follow its lookahead, and comes closer to the end.
proof fn lemma_track_feed(
    state: JoinState,
    base: JoinState,
    left: Seq<Seq<u8>>,
    right: Seq<Seq<u8>>,
    i: int,
    j: int,
    rows: Seq<Seq<u8>>,
    total: Seq<Seq<u8>>,
    left_line: Option<Seq<u8>>,
    right_line: Option<Seq<u8>>,
)
    requires
        on_track(state, base, left, right, i, j, rows, total),
        state.wants().0 && i + 1 < left.len() ==> left_line == line_at(left, i + 2),
        state.wants().1 && j + 1 < right.len() ==> right_line == line_at(right, j + 2),
    ensures
        ({
            let i2 = if state.wants().0 && i + 1 < left.len() {
                i + 1
            } else {
                i
            };
            let j2 = if state.wants().1 && j + 1 < right.len() {
                j + 1
            } else {
                j
            };
            let (next, fed) = state.feed(left_line, right_line);
            &&& on_track(next, base, left, right, i2, j2, rows + fed, total)
            &&& state.phase != Phase::Done ==> feeds_left(
                next.phase,
                left.len() as int,
                right.len() as int,
                i2,
                j2,
            ) < feeds_left(state.phase, left.len() as int, right.len() as int, i, j)
        }),
{
    reveal(on_track);
    lemma_feed_refines(state, base, left, right, i, j, left_line, right_line);
    let (i2, j2) = position_after(state.phase, left.len() as int, right.len() as int, i, j);
    let plan = plan_for(base, left, right);
    let (next, fed) = state.feed(left_line, right_line);
    assert(rows + fed + plan.rows(pending(plan, next, i2, j2)) =~= rows + (fed + plan.rows(
        pending(plan, next, i2, j2),
    )));
}

/// A driver on track stands within both inputs, and once it is done, the
/// rows emitted so far are the rows of the whole join.
proof fn lemma_track_bounds(
    state: JoinState,
    base: JoinState,
    left: Seq<Seq<u8>>,
    right: Seq<Seq<u8>>,
    i: int,
    j: int,
    rows: Seq<Seq<u8>>,
    total: Seq<Seq<u8>>,
)
    requires
        on_track(state, base, left, right, i, j, rows, total),
    ensures
        0 <= i < left.len(),
        0 <= j < right.len(),
        state.phase == Phase::Done ==> rows == total,
{
    reveal(on_track);
    let plan = plan_for(base, left, right);
    if state.phase == Phase::Done {
        assert(plan.rows(pending(plan, state, i, j)) =~= Seq::<Seq<u8>>::empty());
        assert(rows =~= total);
    }
}

/// Feeds the driver once and collects the rows that this emits.
fn pump(
    joiner: &mut Joiner,
    rows: &mut Vec<Vec<u8>>,
    left_line: Option<Vec<u8>>,
    right_line: Option<Vec<u8>>,
    Ghost(base): Ghost<JoinState>,
    Ghost(left): Ghost<Seq<Seq<u8>>>,
    Ghost(right): Ghost<Seq<Seq<u8>>>,
    Ghost(i): Ghost<int>,
    Ghost(j): Ghost<int>,
    Ghost(total): Ghost<Seq<Seq<u8>>>,
)
    requires
        on_track(old(joiner)@, base, left, right, i, j, lines_view(old(rows)@), total),
        old(joiner)@.wants().0 && i + 1 < left.len() ==> line_view(left_line) == line_at(
            left,
            i + 2,
        ),
        old(joiner)@.wants().1 && j + 1 < right.len() ==> line_view(right_line) == line_at(
            right,
            j + 2,
        ),
    ensures
        on_track(
            final(joiner)@,
            base,
            left,
            right,
            if old(joiner)@.wants().0 && i + 1 < left.len() {
                i + 1
            } else {
                i
            },
            if old(joiner)@.wants().1 && j + 1 < right.len() {
                j + 1
            } else {
                j
            },
            lines_view(final(rows)@),
            total,
        ),
        old(joiner)@.phase != Phase::Done ==> feeds_left(
            final(joiner)@.phase,
            left.len() as int,
            right.len() as int,
            if old(joiner)@.wants().0 && i + 1 < left.len() {
                i + 1
            } else {
                i
            },
            if old(joiner)@.wants().1 && j + 1 < right.len() {
                j + 1
            } else {
                j
            },
        ) < feeds_left(old(joiner)@.phase, left.len() as int, right.len() as int, i, j),
{
    let ghost so_far = lines_view(rows@);
    proof {
        lemma_track_feed(
            joiner@,
            base,
            left,
            right,
            i,
            j,
            so_far,
            total,
            line_view(left_line),
            line_view(right_line),
        );
    }
    let mut more = joiner.feed(left_line, right_line);
    let ghost fed = lines_view(more@);
    rows.append(&mut more);
    proof {
        assert(lines_view(rows@) =~= so_far + fed);
    }
}

/// Joins two inputs that are held in memory, one line to each element,
/// without line terminators, and returns the output lines in order.
///
/// This runs the same driver that a caller reading from streams runs: the
/// driver is started on the first lines and fed the following ones as it
/// asks for them.
pub fn join(config: JoinConfig, left: &Vec<Vec<u8>>, right: &Vec<Vec<u8>>) -> (r: Result<
    Vec<Vec<u8>>,
    JoinError,
>)
    ensures
        rows_view(r) == joined(config, lines_view(left@), lines_view(right@)),
{
    let has_header = config.has_header;
    let ghost all_left = lines_view(left@);
    let ghost all_right = lines_view(right@);
    let ghost left_data = data_lines(all_left, has_header);
    let ghost right_data = data_lines(all_right, has_header);
    let left_opening = opening(left, has_header);
    let right_opening = opening(right, has_header);
    let (mut joiner, mut rows) = match Joiner::start(config, left_opening, right_opening) {
        Err(e) => {
            return Err(e);
        },
        Ok(pair) => pair,
    };
    let ghost base = primed(
        config,
        lead_of(all_left, has_header),
        lead_of(all_right, has_header),
    )->Ok_0;
    let ghost total = joined(config, all_left, all_right)->Ok_0;
    let ghost mut i: int = 0;
    let ghost mut j: int = 0;
    let skip: usize = if has_header {
        1
    } else {
        0
    };
    let mut at_left: usize = skip;
    let mut at_right: usize = skip;
    proof {
        lemma_track_start(config, all_left, all_right);
        lemma_track_bounds(joiner@, base, left_data, right_data, 0, 0, lines_view(rows@), total);
        lemma_data_line(all_left, has_header, 0);
        lemma_data_line(all_right, has_header, 0);
        assert(all_left.len() == left@.len());
        assert(all_right.len() == right@.len());
    }
    let left_len: usize = left.len();
    let right_len: usize = right.len();
    let mut wants = joiner.wants();
    while wants.0 || wants.1
        invariant
            wants == joiner@.wants(),
            all_left == lines_view(left@),
            all_right == lines_view(right@),
            left_data == data_lines(all_left, has_header),
            right_data == data_lines(all_right, has_header),
            skip == (if has_header {
                1usize
            } else {
                0usize
            }),
            on_track(joiner@, base, left_data, right_data, i, j, lines_view(rows@), total),
            at_left == skip + i,
            at_right == skip + j,
            left_len == left@.len(),
            right_len == right@.len(),
            at_left < left_len,
            at_right < right_len,
        decreases feeds_left(joiner@.phase, left_data.len() as int, right_data.len() as int, i, j),
    {
        proof {
            lemma_data_line(all_left, has_header, i + 2);
            lemma_data_line(all_right, has_header, j + 2);
        }
        let left_line = if wants.0 && at_left + 1 < left_len {
            get_line(left, at_left + 2)
        } else {
            None
        };
        let right_line = if wants.1 && at_right + 1 < right_len {
            get_line(right, at_right + 2)
        } else {
            None
        };
        pump(
            &mut joiner,
            &mut rows,
            left_line,
            right_line,
            Ghost(base),
            Ghost(left_data),
            Ghost(right_data),
            Ghost(i),
            Ghost(j),
            Ghost(total),
        );
        if wants.0 && at_left + 1 < left_len {
            at_left = at_left + 1;
            proof {
                i = i + 1;
            }
        }
        if wants.1 && at_right + 1 < right_len {
            at_right = at_right + 1;
            proof {
                j = j + 1;
            }
        }
        wants = joiner.wants();
    }
    proof {
        lemma_track_bounds(joiner@, base, left_data, right_data, i, j, lines_view(rows@), total);
    }
    Ok(rows)
}

} // verus!
