//! The merge driver: two cursors, the comparison loop that decides which of
//! them advances, and the rows that fall out of it.
//!
//! The driver reads nothing. It says which inputs it wants a line from, the
//! caller reads those lines and feeds them in (`None` for an input that has
//! ended), and the driver returns the rows that this leads to.

use vstd::prelude::*;
use crate::compare::rank_rows;
use crate::config::{bytes_of, JoinConfig, JoinError, JoinFileConfig, Side};
use crate::cursor::{line_view, resolved_keys, Cursor, JoinFile};
use crate::merge::{advance_after_match, decide, Advance, Emit, Phase, Seat};
use crate::order::Rank;
use crate::project::{
    do_header_output, do_output, header_part, render_row, resolve_order, resolved_order, row_part,
    Column, Projection,
};

verus! {

/// What a list of lines holds.
pub open spec fn lines_view(lines: Seq<Vec<u8>>) -> Seq<Seq<u8>> {
    Seq::new(lines.len(), |i: int| lines[i]@)
}

/// What a cursor brings to a comparison.
pub open spec fn seat_of(cursor: Cursor) -> Seat {
    Seat {
        key: cursor.row.keys(),
        next: if cursor.eof {
            None
        } else {
            Some(cursor.next_row.keys())
        },
        all: cursor.all,
        printed: cursor.printed,
    }
}

/// The rendered row for the current records of two cursors.
pub open spec fn render_emit(
    columns: Seq<Column>,
    delim: u8,
    left: Cursor,
    right: Cursor,
    row: Emit,
) -> Seq<u8> {
    render_row(
        columns,
        delim,
        row_part(left, row != Emit::RightOnly),
        row_part(right, row != Emit::LeftOnly),
    )
}

/// The first lines of one input, as far as the input has them: its header
/// line, where the inputs have one, and its first two records.
pub struct Opening {
    /// The header line. It is not looked at where the inputs have none.
    pub header: Option<Vec<u8>>,
    /// The first record, or `None` where the input has no record.
    pub first: Option<Vec<u8>>,
    /// The second record, or `None` where the input has no more than one.
    pub second: Option<Vec<u8>>,
}

/// The mathematical value of an `Opening`.
pub struct Lead {
    pub header: Option<Seq<u8>>,
    pub first: Option<Seq<u8>>,
    pub second: Option<Seq<u8>>,
}

impl View for Opening {
    type V = Lead;

    open spec fn view(&self) -> Lead {
        Lead {
            header: line_view(self.header),
            first: line_view(self.first),
            second: line_view(self.second),
        }
    }
}

/// The cursor of one input once it is primed, or the reason why it cannot
/// be: the header line is missing, a key field does not resolve, or the
/// input has no record.
pub open spec fn primed_cursor(
    config: JoinFileConfig,
    delim: u8,
    has_header: bool,
    side: Side,
    lead: Lead,
) -> Result<Cursor, JoinError> {
    let fresh = Cursor::fresh(config, delim);
    if has_header && lead.header is None {
        Err(JoinError::NoHeader(side))
    } else {
        let headed = if has_header {
            fresh.read_header(lead.header->0)
        } else {
            fresh
        };
        match resolved_keys(headed.config_keys, headed.header, side) {
            Err(e) => Err(e),
            Ok(keys) => if lead.first is None {
                Err(JoinError::NoInput(side))
            } else {
                Ok(headed.with_keys(keys).first_fill(lead.first, lead.second))
            },
        }
    }
}

/// The mathematical value of a driver.
pub struct JoinState {
    /// The columns of every output row.
    pub columns: Seq<Column>,
    /// The delimiter of the inputs and of the output.
    pub delim: u8,
    /// The cursor over the left input.
    pub left: Cursor,
    /// The cursor over the right input.
    pub right: Cursor,
    /// What the driver does next.
    pub phase: Phase,
}

impl JoinState {
    /// The rendered rows for the current records.
    pub open spec fn rendered(self, rows: Seq<Emit>) -> Seq<Seq<u8>> {
        Seq::new(
            rows.len(),
            |k: int| render_emit(self.columns, self.delim, self.left, self.right, rows[k]),
        )
    }

    /// The header row.
    pub open spec fn header_row(self) -> Seq<u8> {
        render_row(self.columns, self.delim, header_part(self.left), header_part(self.right))
    }

    /// The driver after one comparison of the current records, and the rows
    /// that the comparison emits.
    pub open spec fn step(self) -> (JoinState, Seq<Seq<u8>>) {
        let d = decide(seat_of(self.left), seat_of(self.right));
        (
            JoinState {
                left: Cursor { printed: d.left_printed, ..self.left },
                right: Cursor { printed: d.right_printed, ..self.right },
                phase: d.phase,
                ..self
            },
            self.rendered(d.rows),
        )
    }

    /// Which inputs the driver wants a line from: the left one, the right
    /// one.
    pub open spec fn wants(self) -> (bool, bool) {
        match self.phase {
            Phase::AdvanceLeft => (true, false),
            Phase::AdvanceRight => (false, true),
            Phase::AdvanceBoth => (true, true),
            Phase::DrainLeft => (true, false),
            Phase::DrainRight => (false, true),
            Phase::Done => (false, false),
        }
    }

    /// The driver after the lines it wanted were fed in, and the rows that
    /// this emits. While merging, the cursors that were to advance do so and
    /// the current records are compared. While draining, the cursor advances,
    /// and its new record is emitted alone if its side emits unmatched rows.
    pub open spec fn feed(self, left: Option<Seq<u8>>, right: Option<Seq<u8>>) -> (
        JoinState,
        Seq<Seq<u8>>,
    ) {
        match self.phase {
            Phase::AdvanceLeft => (JoinState { left: self.left.refill(left), ..self }).step(),
            Phase::AdvanceRight => (JoinState { right: self.right.refill(right), ..self }).step(),
            Phase::AdvanceBoth => (JoinState {
                left: self.left.refill(left),
                right: self.right.refill(right),
                ..self
            }).step(),
            Phase::DrainLeft => if self.left.eof {
                (JoinState { phase: Phase::Done, ..self }, Seq::empty())
            } else {
                let moved = JoinState { left: self.left.refill(left), ..self };
                (
                    JoinState {
                        left: if moved.left.all {
                            moved.left.mark_emitted()
                        } else {
                            moved.left
                        },
                        phase: if moved.left.eof {
                            Phase::Done
                        } else {
                            Phase::DrainLeft
                        },
                        ..moved
                    },
                    if moved.left.all {
                        moved.rendered(seq![Emit::LeftOnly])
                    } else {
                        Seq::empty()
                    },
                )
            },
            Phase::DrainRight => if self.right.eof {
                (JoinState { phase: Phase::Done, ..self }, Seq::empty())
            } else {
                let moved = JoinState { right: self.right.refill(right), ..self };
                (
                    JoinState {
                        right: if moved.right.all {
                            moved.right.mark_emitted()
                        } else {
                            moved.right
                        },
                        phase: if moved.right.eof {
                            Phase::Done
                        } else {
                            Phase::DrainRight
                        },
                        ..moved
                    },
                    if moved.right.all {
                        moved.rendered(seq![Emit::RightOnly])
                    } else {
                        Seq::empty()
                    },
                )
            },
            Phase::Done => (self, Seq::empty()),
        }
    }
}

/// The driver with both cursors primed and the projection resolved, before
/// the first comparison; or the reason why the join cannot run. The checks
/// come in this order: the delimiter, the two keys, the left input, the
/// right input, the output order.
pub open spec fn primed(config: JoinConfig, left: Lead, right: Lead) -> Result<
    JoinState,
    JoinError,
> {
    if bytes_of(config.delim@).len() != 1 {
        Err(JoinError::Delimiter)
    } else if config.left.key_fields@.len() == 0 {
        Err(JoinError::NoKeyFields(Side::Left))
    } else if config.right.key_fields@.len() == 0 {
        Err(JoinError::NoKeyFields(Side::Right))
    } else if config.left.key_fields@.len() != config.right.key_fields@.len() {
        Err(JoinError::KeyArity)
    } else {
        let delim = bytes_of(config.delim@)[0];
        match primed_cursor(config.left, delim, config.has_header, Side::Left, left) {
            Err(e) => Err(e),
            Ok(l) => match primed_cursor(
                config.right,
                delim,
                config.has_header,
                Side::Right,
                right,
            ) {
                Err(e) => Err(e),
                Ok(r) => match resolved_order(
                    config.output,
                    l.num_fields,
                    l.key_fields,
                    l.header,
                    r.num_fields,
                    r.key_fields,
                    r.header,
                ) {
                    Err(e) => Err(e),
                    Ok(columns) => Ok(
                        JoinState { columns, delim, left: l, right: r, phase: Phase::Done },
                    ),
                },
            },
        }
    }
}

/// The driver after its start and the rows that the start emits: the header
/// row, where the inputs have header lines, and the rows of the first
/// comparison.
pub open spec fn started(config: JoinConfig, left: Lead, right: Lead) -> Result<
    (JoinState, Seq<Seq<u8>>),
    JoinError,
> {
    match primed(config, left, right) {
        Err(e) => Err(e),
        Ok(state) => {
            let header = if config.has_header {
                seq![state.header_row()]
            } else {
                Seq::empty()
            };
            Ok((state.step().0, header + state.step().1))
        },
    }
}

/// After a match: decides which cursor advances before the next
/// comparison.
pub fn smart_refill(left: &JoinFile, right: &JoinFile) -> (advance: Advance)
    ensures
        advance == advance_after_match(seat_of(left@), seat_of(right@)),
{
    if left.is_eof() {
        if right.is_eof() {
            Advance::Stop
        } else {
            Advance::Right
        }
    } else if right.is_eof() {
        Advance::Left
    } else {
        match rank_rows(left.next_row(), right.next_row()) {
            Rank::Equal => Advance::Both,
            Rank::Less => Advance::Left,
            Rank::Greater => Advance::Right,
        }
    }
}

/// The merge driver.
pub struct Joiner {
    projection: Projection,
    left: JoinFile,
    right: JoinFile,
    phase: Phase,
}

impl View for Joiner {
    type V = JoinState;

    closed spec fn view(&self) -> JoinState {
        JoinState {
            columns: self.projection.columns@,
            delim: self.projection.delim,
            left: self.left@,
            right: self.right@,
            phase: self.phase,
        }
    }
}

/// Primes the cursor of one input.
fn prime(config: JoinFileConfig, delim: u8, has_header: bool, side: Side, opening: Opening) -> (r:
    Result<JoinFile, JoinError>)
    ensures
        match r {
            Ok(file) => primed_cursor(config, delim, has_header, side, opening@) == Ok::<
                Cursor,
                JoinError,
            >(file@),
            Err(e) => primed_cursor(config, delim, has_header, side, opening@) == Err::<
                Cursor,
                JoinError,
            >(e),
        },
{
    let mut file = JoinFile::new(config, delim);
    if has_header {
        match opening.header {
            None => {
                return Err(JoinError::NoHeader(side));
            },
            Some(line) => {
                file.read_header(line);
            },
        }
    }
    match file.resolve_keys(side) {
        Err(e) => {
            return Err(e);
        },
        Ok(()) => {},
    }
    if !file.first_fill(opening.first, opening.second) {
        return Err(JoinError::NoInput(side));
    }
    Ok(file)
}

impl Joiner {
    /// Emits the current record of each side that was not emitted yet, and
    /// sets what is left to do once the merge is over.
    fn wind_up(&mut self, out: &mut Vec<Vec<u8>>)
        ensures
            final(self)@ == (JoinState {
                left: Cursor {
                    printed: old(self)@.left.printed || old(self)@.left.all,
                    ..old(self)@.left
                },
                right: Cursor {
                    printed: old(self)@.right.printed || old(self)@.right.all,
                    ..old(self)@.right
                },
                phase: crate::merge::wind_up(
                    Seq::empty(),
                    seat_of(old(self)@.left),
                    seat_of(old(self)@.right),
                ).phase,
                ..old(self)@
            }),
            lines_view(final(out)@) == lines_view(old(out)@) + old(self)@.rendered(
                crate::merge::wind_up(
                    Seq::empty(),
                    seat_of(old(self)@.left),
                    seat_of(old(self)@.right),
                ).rows,
            ),
    {
        let ghost before = lines_view(out@);
        let ghost state = self@;
        if self.left.emits_unmatched() && !self.left.is_printed() {
            let line = do_output(&self.projection, &mut self.left, &mut self.right, true, false);
            out.push(line);
        }
        let ghost middle = lines_view(out@);
        if self.right.emits_unmatched() && !self.right.is_printed() {
            let line = do_output(&self.projection, &mut self.left, &mut self.right, false, true);
            out.push(line);
        }
        if !self.left.is_eof() {
            self.phase = Phase::DrainLeft;
        } else if !self.right.is_eof() {
            self.phase = Phase::DrainRight;
        } else {
            self.phase = Phase::Done;
        }
        proof {
            let rows = crate::merge::wind_up(
                Seq::empty(),
                seat_of(state.left),
                seat_of(state.right),
            ).rows;
            assert(lines_view(out@) =~= before + state.rendered(rows));
        }
    }

    /// Compares the current records, emits what the comparison calls for,
    /// and decides what comes next.
    fn step(&mut self) -> (out: Vec<Vec<u8>>)
        ensures
            (final(self)@, lines_view(out@)) == old(self)@.step(),
    {
        let ghost state = self@;
        let ghost d = decide(seat_of(state.left), seat_of(state.right));
        let mut out: Vec<Vec<u8>> = Vec::new();
        match rank_rows(self.left.row(), self.right.row()) {
            Rank::Equal => {
                let line = do_output(&self.projection, &mut self.left, &mut self.right, true, true);
                out.push(line);
                proof {
                    assert(lines_view(out@) =~= state.rendered(seq![Emit::Both]));
                }
                match smart_refill(&self.left, &self.right) {
                    Advance::Left => {
                        self.phase = Phase::AdvanceLeft;
                    },
                    Advance::Right => {
                        self.phase = Phase::AdvanceRight;
                    },
                    Advance::Both => {
                        self.phase = Phase::AdvanceBoth;
                    },
                    Advance::Stop => {
                        let ghost marked = self@;
                        self.wind_up(&mut out);
                        proof {
                            assert(marked.rendered(d.rows.skip(1)) =~= state.rendered(
                                d.rows.skip(1),
                            ));
                            assert(lines_view(out@) =~= state.rendered(d.rows));
                        }
                    },
                }
            },
            Rank::Less => {
                if self.left.emits_unmatched() && !self.left.is_printed() {
                    let line = do_output(
                        &self.projection,
                        &mut self.left,
                        &mut self.right,
                        true,
                        false,
                    );
                    out.push(line);
                }
                let ghost first = crate::merge::unmatched_row(seat_of(state.left), Emit::LeftOnly);
                proof {
                    assert(lines_view(out@) =~= state.rendered(first));
                }
                if self.left.is_eof() {
                    let ghost marked = self@;
                    self.wind_up(&mut out);
                    proof {
                        let rest = d.rows.skip(first.len() as int);
                        assert(marked.rendered(rest) =~= state.rendered(rest));
                        assert(lines_view(out@) =~= state.rendered(d.rows));
                    }
                } else {
                    self.phase = Phase::AdvanceLeft;
                }
            },
            Rank::Greater => {
                if self.right.emits_unmatched() && !self.right.is_printed() {
                    let line = do_output(
                        &self.projection,
                        &mut self.left,
                        &mut self.right,
                        false,
                        true,
                    );
                    out.push(line);
                }
                let ghost first = crate::merge::unmatched_row(
                    seat_of(state.right),
                    Emit::RightOnly,
                );
                proof {
                    assert(lines_view(out@) =~= state.rendered(first));
                }
                if self.right.is_eof() {
                    let ghost marked = self@;
                    self.wind_up(&mut out);
                    proof {
                        let rest = d.rows.skip(first.len() as int);
                        assert(marked.rendered(rest) =~= state.rendered(rest));
                        assert(lines_view(out@) =~= state.rendered(d.rows));
                    }
                } else {
                    self.phase = Phase::AdvanceRight;
                }
            },
        }
        out
    }

    /// Starts a join: primes both cursors with the first lines of their
    /// inputs, resolves keys and projection, and makes the first comparison.
    /// Returns the driver and the rows emitted so far: the header row, where
    /// the inputs have header lines, then the rows of the first comparison.
    pub fn start(config: JoinConfig, left: Opening, right: Opening) -> (r: Result<
        (Joiner, Vec<Vec<u8>>),
        JoinError,
    >)
        ensures
            match r {
                Ok((joiner, rows)) => started(config, left@, right@) == Ok::<
                    (JoinState, Seq<Seq<u8>>),
                    JoinError,
                >((joiner@, lines_view(rows@))),
                Err(e) => started(config, left@, right@) == Err::<
                    (JoinState, Seq<Seq<u8>>),
                    JoinError,
                >(e),
            },
    {
        let JoinConfig { left: left_config, right: right_config, output, delim, has_header } =
            config;
        let delim_bytes = delim.as_str().as_bytes();
        if delim_bytes.len() != 1 {
            return Err(JoinError::Delimiter);
        }
        let delim_byte: u8 = delim_bytes[0];
        if left_config.key_fields.len() == 0 {
            return Err(JoinError::NoKeyFields(Side::Left));
        }
        if right_config.key_fields.len() == 0 {
            return Err(JoinError::NoKeyFields(Side::Right));
        }
        if left_config.key_fields.len() != right_config.key_fields.len() {
            return Err(JoinError::KeyArity);
        }
        let left_file = match prime(left_config, delim_byte, has_header, Side::Left, left) {
            Err(e) => {
                return Err(e);
            },
            Ok(file) => file,
        };
        let right_file = match prime(right_config, delim_byte, has_header, Side::Right, right) {
            Err(e) => {
                return Err(e);
            },
            Ok(file) => file,
        };
        let columns = match resolve_order(&output, &left_file, &right_file) {
            Err(e) => {
                return Err(e);
            },
            Ok(columns) => columns,
        };
        let mut joiner = Joiner {
            projection: Projection { columns, delim: delim_byte },
            left: left_file,
            right: right_file,
            phase: Phase::Done,
        };
        let ghost state = joiner@;
        let mut rows: Vec<Vec<u8>> = Vec::new();
        if has_header {
            proof {
                lemma_primed_header(left_config, delim_byte, has_header, Side::Left, left@);
                lemma_primed_header(right_config, delim_byte, has_header, Side::Right, right@);
            }
            let line = do_header_output(&joiner.projection, &joiner.left, &joiner.right);
            rows.push(line);
        }
        let ghost header = lines_view(rows@);
        let mut first = joiner.step();
        rows.append(&mut first);
        proof {
            assert(lines_view(rows@) =~= header + state.step().1);
            if has_header {
                assert(header =~= seq![state.header_row()]);
            } else {
                assert(header =~= Seq::<Seq<u8>>::empty());
            }
        }
        Ok((joiner, rows))
    }

    /// Which inputs the driver wants the next line of: the left one, the
    /// right one. Neither once the join is over.
    pub fn wants(&self) -> (w: (bool, bool))
        ensures
            w == self@.wants(),
    {
        match self.phase {
            Phase::AdvanceLeft => (true, false),
            Phase::AdvanceRight => (false, true),
            Phase::AdvanceBoth => (true, true),
            Phase::DrainLeft => (true, false),
            Phase::DrainRight => (false, true),
            Phase::Done => (false, false),
        }
    }

    /// Takes the lines that were read from the inputs the driver wanted a
    /// line of, `None` for an input that has ended, and returns the rows
    /// that this emits. The line of an input that the driver did not want
    /// is not looked at.
    pub fn feed(&mut self, left: Option<Vec<u8>>, right: Option<Vec<u8>>) -> (rows: Vec<Vec<u8>>)
        ensures
            (final(self)@, lines_view(rows@)) == old(self)@.feed(line_view(left), line_view(right)),
    {
        match self.phase {
            Phase::AdvanceLeft => {
                self.left.refill(left);
                self.step()
            },
            Phase::AdvanceRight => {
                self.right.refill(right);
                self.step()
            },
            Phase::AdvanceBoth => {
                self.left.refill(left);
                self.right.refill(right);
                self.step()
            },
            Phase::DrainLeft => {
                let mut rows: Vec<Vec<u8>> = Vec::new();
                if self.left.refill(left) {
                    let ghost moved = self@;
                    if self.left.emits_unmatched() {
                        let line = do_output(
                            &self.projection,
                            &mut self.left,
                            &mut self.right,
                            true,
                            false,
                        );
                        rows.push(line);
                        proof {
                            assert(lines_view(rows@) =~= moved.rendered(seq![Emit::LeftOnly]));
                        }
                    } else {
                        proof {
                            assert(lines_view(rows@) =~= Seq::<Seq<u8>>::empty());
                        }
                    }
                    if self.left.is_eof() {
                        self.phase = Phase::Done;
                    }
                } else {
                    self.phase = Phase::Done;
                    proof {
                        assert(lines_view(rows@) =~= Seq::<Seq<u8>>::empty());
                    }
                }
                rows
            },
            Phase::DrainRight => {
                let mut rows: Vec<Vec<u8>> = Vec::new();
                if self.right.refill(right) {
                    let ghost moved = self@;
                    if self.right.emits_unmatched() {
                        let line = do_output(
                            &self.projection,
                            &mut self.left,
                            &mut self.right,
                            false,
                            true,
                        );
                        rows.push(line);
                        proof {
                            assert(lines_view(rows@) =~= moved.rendered(seq![Emit::RightOnly]));
                        }
                    } else {
                        proof {
                            assert(lines_view(rows@) =~= Seq::<Seq<u8>>::empty());
                        }
                    }
                    if self.right.is_eof() {
                        self.phase = Phase::Done;
                    }
                } else {
                    self.phase = Phase::Done;
                    proof {
                        assert(lines_view(rows@) =~= Seq::<Seq<u8>>::empty());
                    }
                }
                rows
            },
            Phase::Done => {
                let rows: Vec<Vec<u8>> = Vec::new();
                proof {
                    assert(lines_view(rows@) =~= Seq::<Seq<u8>>::empty());
                }
                rows
            },
        }
    }
}

/// A cursor that was primed from inputs with header lines has its header.
proof fn lemma_primed_header(
    config: JoinFileConfig,
    delim: u8,
    has_header: bool,
    side: Side,
    lead: Lead,
)
    requires
        has_header,
        primed_cursor(config, delim, has_header, side, lead) is Ok,
    ensures
        primed_cursor(config, delim, has_header, side, lead)->Ok_0.header is Some,
{
}

} // verus!
