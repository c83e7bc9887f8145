//! The stream cursor: the current record of one input and one record of
//! lookahead. The cursor reads nothing itself; whoever drives it hands in
//! each line as it is read, or `None` once the input has ended.

use vstd::prelude::*;
use crate::config::{bytes_of, JoinError, JoinFileConfig, KeyField, Side};
use crate::fields::{Record, SplitLine};

verus! {

/// What an optional line holds.
pub open spec fn line_view(line: Option<Vec<u8>>) -> Option<Seq<u8>> {
    match line {
        Some(l) => Some(l@),
        None => None,
    }
}

/// The column that carries `name` in a header: the first one, if there are
/// several.
pub open spec fn column_index(cells: Seq<Seq<u8>>, name: Seq<u8>) -> Option<int>
    decreases cells.len(),
{
    if cells.len() == 0 {
        None
    } else {
        match column_index(cells.drop_last(), name) {
            Some(i) => Some(i),
            None => if cells.last() == name {
                Some(cells.len() - 1)
            } else {
                None
            },
        }
    }
}

/// The key indices that the first `n` configured key fields resolve to, or
/// the reason why one of them does not resolve.
pub open spec fn resolved_keys_upto(
    keys: Seq<KeyField>,
    header: Option<Record>,
    side: Side,
    n: int,
) -> Result<Seq<usize>, JoinError>
    decreases n,
{
    if n <= 0 {
        Ok(Seq::empty())
    } else {
        match resolved_keys_upto(keys, header, side, n - 1) {
            Err(e) => Err(e),
            Ok(before) => match keys[n - 1] {
                KeyField::Indexed(i) => Ok(before.push(i)),
                KeyField::Named(name) => match header {
                    None => Err(JoinError::NamedWithoutHeader),
                    Some(h) => match column_index(h.fields, bytes_of(name@)) {
                        Some(i) => Ok(before.push(i as usize)),
                        None => Err(JoinError::UnknownColumn(side)),
                    },
                },
            },
        }
    }
}

/// The key indices that the configured key fields resolve to.
pub open spec fn resolved_keys(keys: Seq<KeyField>, header: Option<Record>, side: Side) -> Result<
    Seq<usize>,
    JoinError,
> {
    resolved_keys_upto(keys, header, side, keys.len() as int)
}

/// Where a cursor stands in its life.
#[derive(Debug, Clone, Copy, PartialEq, Eq, Structural)]
pub enum CursorState {
    /// Nothing was read into it: it has no current record.
    Empty,
    /// It was primed: its current record is the first of the input.
    Primed,
    /// It has advanced since it was primed.
    Advancing,
    /// The input has ended: its current record is the last of the input.
    Exhausted,
}

/// The mathematical value of a cursor.
pub struct Cursor {
    /// Rows of this input that find no partner are emitted.
    pub all: bool,
    /// What stands in for a field of this input where it is absent.
    pub missing: Seq<u8>,
    /// The key fields as they were configured.
    pub config_keys: Seq<KeyField>,
    /// The delimiter that lines are split at.
    pub delim: u8,
    /// The key indices that records are split with.
    pub key_fields: Seq<usize>,
    /// The input has ended: `row` is its last record and `next_row` is stale.
    pub eof: bool,
    /// `row` has been emitted already.
    pub printed: bool,
    /// The current record.
    pub row: Record,
    /// The record after the current one, while `eof` is not set.
    pub next_row: Record,
    /// How many fields the first record had.
    pub num_fields: nat,
    /// The header line, when one was read.
    pub header: Option<Record>,
    /// How far the cursor has come, the end of the input aside: `Empty`,
    /// `Primed` or `Advancing`.
    pub stage: CursorState,
}

impl Cursor {
    /// A cursor that nothing was read into yet.
    pub open spec fn fresh(config: JoinFileConfig, delim: u8) -> Cursor {
        Cursor {
            all: config.all,
            missing: bytes_of(config.missing@),
            config_keys: config.key_fields@,
            delim,
            key_fields: Seq::empty(),
            eof: false,
            printed: false,
            row: Record::of(Seq::empty(), delim, Seq::empty()),
            next_row: Record::of(Seq::empty(), delim, Seq::empty()),
            num_fields: 0,
            header: None,
            stage: CursorState::Empty,
        }
    }

    /// Where the cursor stands in its life. A cursor without a current
    /// record is empty, whether or not its input has ended; with one, it is
    /// exhausted once the input has ended.
    pub open spec fn state(self) -> CursorState {
        if self.stage == CursorState::Empty {
            CursorState::Empty
        } else if self.eof {
            CursorState::Exhausted
        } else {
            self.stage
        }
    }

    /// The cursor after a header line was read.
    pub open spec fn read_header(self, line: Seq<u8>) -> Cursor {
        Cursor { header: Some(Record::of(line, self.delim, self.key_fields)), ..self }
    }

    /// The cursor with its key indices set. The header is keyed anew.
    pub open spec fn with_keys(self, key_fields: Seq<usize>) -> Cursor {
        Cursor {
            key_fields,
            header: match self.header {
                Some(h) => Some(Record { key_fields, ..h }),
                None => None,
            },
            ..self
        }
    }

    /// The cursor after one raw read: the line becomes the lookahead, or the
    /// input is marked as ended.
    pub open spec fn read_line(self, line: Option<Seq<u8>>) -> Cursor {
        match line {
            Some(l) => Cursor { next_row: Record::of(l, self.delim, self.key_fields), ..self },
            None => Cursor { eof: true, ..self },
        }
    }

    /// The cursor after an advance: nothing changes once the input has
    /// ended; before that the lookahead becomes the current record, which
    /// is not emitted yet, and one more line is read.
    pub open spec fn refill(self, line: Option<Seq<u8>>) -> Cursor {
        if self.eof {
            self
        } else {
            (Cursor {
                row: self.next_row,
                printed: false,
                stage: if self.stage == CursorState::Empty {
                    CursorState::Primed
                } else {
                    CursorState::Advancing
                },
                ..self
            }).read_line(line)
        }
    }

    /// The cursor after the two reads that prime it.
    pub open spec fn first_fill(self, first: Option<Seq<u8>>, second: Option<Seq<u8>>) -> Cursor {
        if first is Some {
            let filled = self.read_line(first).refill(second);
            Cursor { num_fields: filled.row.fields.len(), ..filled }
        } else {
            self.read_line(first)
        }
    }

    /// The cursor with its current record marked as emitted.
    pub open spec fn mark_emitted(self) -> Cursor {
        Cursor { printed: true, ..self }
    }
}

/// The life of a cursor. It begins empty. Priming it on an input with
/// records makes it primed, or exhausted at once where the input has one
/// record only; on an input without records it stays empty. Every advance
/// of a cursor that is primed or advancing leaves it advancing, until the
/// read that finds the end of the input leaves it exhausted; its current
/// record is a new one either way, and not emitted yet. An exhausted cursor
/// does not advance. Marking the current record as emitted changes nothing
/// else.
pub proof fn law_cursor_life(
    cursor: Cursor,
    config: JoinFileConfig,
    delim: u8,
    first: Option<Seq<u8>>,
    second: Option<Seq<u8>>,
)
    requires
        cursor.stage != CursorState::Exhausted,
    ensures
        Cursor::fresh(config, delim).state() == CursorState::Empty,
        !Cursor::fresh(config, delim).eof,
        cursor.state() == CursorState::Empty && !cursor.eof ==> cursor.first_fill(
            first,
            second,
        ).state() == (if first is None {
            CursorState::Empty
        } else if second is None {
            CursorState::Exhausted
        } else {
            CursorState::Primed
        }),
        cursor.state() == CursorState::Primed || cursor.state() == CursorState::Advancing ==> {
            &&& cursor.refill(first).state() == (if first is None {
                CursorState::Exhausted
            } else {
                CursorState::Advancing
            })
            &&& cursor.refill(first).row == cursor.next_row
            &&& !cursor.refill(first).printed
        },
        cursor.state() == CursorState::Exhausted ==> cursor.refill(first) == cursor,
        cursor.mark_emitted().state() == cursor.state(),
        cursor.mark_emitted().printed,
{
}

/// The cursor over one input.
pub struct JoinFile {
    config: JoinFileConfig,
    delim: u8,
    eof: bool,
    row: SplitLine,
    printed: bool,
    next_row: SplitLine,
    num_fields: usize,
    header: Option<SplitLine>,
    key_fields: Vec<usize>,
    stage: CursorState,
}

/// A copy of a list of key indices.
pub fn copy_indices(v: &Vec<usize>) -> (out: Vec<usize>)
    ensures
        out@ == v@,
{
    let mut out: Vec<usize> = Vec::new();
    let mut i: usize = 0;
    while i < v.len()
        invariant
            i <= v@.len(),
            out@ == v@.take(i as int),
        decreases v@.len() - i,
    {
        out.push(v[i]);
        i = i + 1;
    }
    proof {
        assert(v@.take(v@.len() as int) == v@);
    }
    out
}

/// Whether two byte strings are the same.
pub fn same_bytes(a: &[u8], b: &[u8]) -> (same: bool)
    ensures
        same == (a@ == b@),
{
    if a.len() != b.len() {
        return false;
    }
    let mut i: usize = 0;
    while i < a.len()
        invariant
            i <= a@.len(),
            a@.len() == b@.len(),
            forall|j: int| 0 <= j < i ==> a@[j] == b@[j],
        decreases a@.len() - i,
    {
        if a[i] != b[i] {
            return false;
        }
        i = i + 1;
    }
    proof {
        assert(a@ =~= b@);
    }
    true
}

/// Looks a column up by its name in a header line: the first column that
/// carries the name, or `None` when no column does.
pub fn lookup_index(name: &str, header: &SplitLine) -> (found: Option<usize>)
    ensures
        match found {
            Some(i) => column_index(header@.fields, bytes_of(name@)) == Some(i as int),
            None => column_index(header@.fields, bytes_of(name@)) is None,
        },
{
    let wanted = name.as_bytes();
    let n: usize = header.num_fields();
    let mut i: usize = 0;
    while i < n
        invariant
            n == header@.fields.len(),
            i <= n,
            wanted@ == bytes_of(name@),
            column_index(header@.fields.take(i as int), wanted@) is None,
        decreases n - i,
    {
        proof {
            assert(header@.fields.take(i + 1).drop_last() == header@.fields.take(i as int));
        }
        if same_bytes(header.field(i), wanted) {
            proof {
                lemma_column_index_prefix(header@.fields, wanted@, i + 1);
            }
            return Some(i);
        }
        i = i + 1;
    }
    proof {
        assert(header@.fields.take(n as int) == header@.fields);
    }
    None
}

/// A column found among the first `n` cells is the column found among all.
proof fn lemma_column_index_prefix(cells: Seq<Seq<u8>>, name: Seq<u8>, n: int)
    requires
        0 <= n <= cells.len(),
        column_index(cells.take(n), name) is Some,
    ensures
        column_index(cells, name) == column_index(cells.take(n), name),
    decreases cells.len() - n,
{
    if n < cells.len() {
        assert(cells.take(n + 1).drop_last() == cells.take(n));
        lemma_column_index_prefix(cells, name, n + 1);
    } else {
        assert(cells.take(n) == cells);
    }
}

/// Once a key field fails to resolve, the whole key fails in the same way.
proof fn lemma_resolved_keys_fail(keys: Seq<KeyField>, header: Option<Record>, side: Side, n: int)
    requires
        0 <= n <= keys.len(),
        resolved_keys_upto(keys, header, side, n) is Err,
    ensures
        resolved_keys(keys, header, side) == resolved_keys_upto(keys, header, side, n),
    decreases keys.len() - n,
{
    if n < keys.len() {
        lemma_resolved_keys_fail(keys, header, side, n + 1);
    }
}

/// The column that is found is the first one that carries the name, and
/// none is found only where no column carries it.
pub proof fn law_column_index(cells: Seq<Seq<u8>>, name: Seq<u8>)
    ensures
        match column_index(cells, name) {
            Some(i) => 0 <= i < cells.len() && cells[i] == name && forall|j: int|
                0 <= j < i ==> cells[j] != name,
            None => forall|j: int| 0 <= j < cells.len() ==> cells[j] != name,
        },
    decreases cells.len(),
{
    if cells.len() > 0 {
        law_column_index(cells.drop_last(), name);
        match column_index(cells.drop_last(), name) {
            Some(i) => {
                assert(cells.drop_last()[i] == cells[i]);
                assert forall|j: int| 0 <= j < i implies cells[j] != name by {
                    assert(cells.drop_last()[j] == cells[j]);
                }
            },
            None => {
                assert forall|j: int| 0 <= j < cells.len() - 1 implies cells[j] != name by {
                    assert(cells.drop_last()[j] == cells[j]);
                }
            },
        }
    }
}

impl View for JoinFile {
    type V = Cursor;

    closed spec fn view(&self) -> Cursor {
        Cursor {
            all: self.config.all,
            missing: bytes_of(self.config.missing@),
            config_keys: self.config.key_fields@,
            delim: self.delim,
            key_fields: self.key_fields@,
            eof: self.eof,
            printed: self.printed,
            row: self.row@,
            next_row: self.next_row@,
            num_fields: self.num_fields as nat,
            header: match self.header {
                Some(h) => Some(h@),
                None => None,
            },
            stage: self.stage,
        }
    }
}

impl JoinFile {
    /// A cursor over the input that `config` describes, with nothing read
    /// yet.
    pub fn new(config: JoinFileConfig, delim: u8) -> (file: JoinFile)
        ensures
            file@ == Cursor::fresh(config, delim),
    {
        JoinFile {
            config,
            delim,
            eof: false,
            printed: false,
            row: SplitLine::new(Vec::new(), delim, Vec::new()),
            next_row: SplitLine::new(Vec::new(), delim, Vec::new()),
            num_fields: 0,
            header: None,
            key_fields: Vec::new(),
            stage: CursorState::Empty,
        }
    }

    /// Takes the header line that was read from the input.
    pub fn read_header(&mut self, line: Vec<u8>)
        ensures
            final(self)@ == old(self)@.read_header(line@),
    {
        self.header = Some(SplitLine::new(line, self.delim, copy_indices(&self.key_fields)));
    }

    /// Resolves the configured key fields to indices: a position stands for
    /// itself, a name for the first column of the header line that carries
    /// it. The header is keyed with the result. `side` says which input an
    /// error is reported for.
    pub fn resolve_keys(&mut self, side: Side) -> (r: Result<(), JoinError>)
        ensures
            match resolved_keys(old(self)@.config_keys, old(self)@.header, side) {
                Ok(keys) => r is Ok && final(self)@ == old(self)@.with_keys(keys),
                Err(e) => r == Err::<(), JoinError>(e) && final(self)@ == old(self)@,
            },
    {
        let mut keys: Vec<usize> = Vec::new();
        let mut k: usize = 0;
        while k < self.config.key_fields.len()
            invariant
                k <= self.config.key_fields@.len(),
                resolved_keys_upto(self@.config_keys, self@.header, side, k as int) == Ok::<
                    Seq<usize>,
                    JoinError,
                >(keys@),
            decreases self.config.key_fields@.len() - k,
        {
            match &self.config.key_fields[k] {
                KeyField::Indexed(i) => {
                    keys.push(*i);
                },
                KeyField::Named(name) => {
                    match &self.header {
                        None => {
                            proof {
                                lemma_resolved_keys_fail(
                                    self@.config_keys,
                                    self@.header,
                                    side,
                                    k + 1,
                                );
                            }
                            return Err(JoinError::NamedWithoutHeader);
                        },
                        Some(h) => {
                            match lookup_index(name.as_str(), h) {
                                Some(i) => {
                                    keys.push(i);
                                },
                                None => {
                                    proof {
                                        lemma_resolved_keys_fail(
                                            self@.config_keys,
                                            self@.header,
                                            side,
                                            k + 1,
                                        );
                                    }
                                    return Err(JoinError::UnknownColumn(side));
                                },
                            }
                        },
                    }
                },
            }
            k = k + 1;
        }
        match self.header.take() {
            Some(h) => {
                self.header = Some(h.rekey(copy_indices(&keys)));
            },
            None => {},
        }
        self.key_fields = keys;
        Ok(())
    }

    /// Takes one raw read: `line` becomes the lookahead; `None` marks the end
    /// of the input. Returns whether there was a line.
    pub fn read_line(&mut self, line: Option<Vec<u8>>) -> (more: bool)
        ensures
            final(self)@ == old(self)@.read_line(line_view(line)),
            more == line is Some,
    {
        match line {
            Some(l) => {
                self.next_row = SplitLine::new(l, self.delim, copy_indices(&self.key_fields));
                true
            },
            None => {
                self.eof = true;
                false
            },
        }
    }

    /// Advances by one record. Once the input has ended this changes
    /// nothing and returns `false`, and `line` is not looked at. Before
    /// that the lookahead becomes the current record and `line`, the next
    /// raw read, becomes the lookahead; the call that finds the end of the
    /// input still returns `true`, for the current record is a new one.
    pub fn refill(&mut self, line: Option<Vec<u8>>) -> (more: bool)
        ensures
            final(self)@ == old(self)@.refill(line_view(line)),
            more == !old(self)@.eof,
    {
        if self.eof {
            return false;
        }
        self.row = self.next_row.clone();
        self.printed = false;
        self.stage = match self.stage {
            CursorState::Empty => CursorState::Primed,
            _ => CursorState::Advancing,
        };
        self.read_line(line);
        true
    }

    /// Primes the cursor with the first two raw reads of the input.
    /// Returns `false` when the input has no record at all; `second` is
    /// then not looked at.
    pub fn first_fill(&mut self, first: Option<Vec<u8>>, second: Option<Vec<u8>>) -> (filled: bool)
        ensures
            final(self)@ == old(self)@.first_fill(line_view(first), line_view(second)),
            filled == (first is Some && !old(self)@.eof),
    {
        if self.read_line(first) {
            let filled = self.refill(second);
            self.num_fields = self.row.num_fields();
            filled
        } else {
            false
        }
    }

    /// Marks the current record as emitted.
    pub fn mark_emitted(&mut self)
        ensures
            final(self)@ == old(self)@.mark_emitted(),
    {
        self.printed = true;
    }

    /// Where the cursor stands in its life.
    pub fn state(&self) -> (state: CursorState)
        ensures
            state == self@.state(),
    {
        match self.stage {
            CursorState::Empty => CursorState::Empty,
            stage => if self.eof {
                CursorState::Exhausted
            } else {
                stage
            },
        }
    }

    /// Whether the input has ended.
    pub fn is_eof(&self) -> (b: bool)
        ensures
            b == self@.eof,
    {
        self.eof
    }

    /// Whether the current record has been emitted.
    pub fn is_printed(&self) -> (b: bool)
        ensures
            b == self@.printed,
    {
        self.printed
    }

    /// Whether rows of this input that find no partner are emitted.
    pub fn emits_unmatched(&self) -> (b: bool)
        ensures
            b == self@.all,
    {
        self.config.all
    }

    /// The current record.
    pub fn row(&self) -> (r: &SplitLine)
        ensures
            r@ == self@.row,
    {
        &self.row
    }

    /// The lookahead record.
    pub fn next_row(&self) -> (r: &SplitLine)
        ensures
            r@ == self@.next_row,
    {
        &self.next_row
    }

    /// The header line, when one was read.
    pub fn header(&self) -> (h: Option<&SplitLine>)
        ensures
            match h {
                Some(r) => self@.header == Some(r@),
                None => self@.header is None,
            },
    {
        self.header.as_ref()
    }

    /// Whether `index` is one of the key indices.
    pub fn is_key_field(&self, index: usize) -> (b: bool)
        ensures
            b == self@.key_fields.contains(index),
    {
        let mut k: usize = 0;
        while k < self.key_fields.len()
            invariant
                k <= self.key_fields@.len(),
                forall|j: int| 0 <= j < k ==> self.key_fields@[j] != index,
            decreases self.key_fields@.len() - k,
        {
            if self.key_fields[k] == index {
                return true;
            }
            k = k + 1;
        }
        false
    }

    /// How many key indices the cursor splits its records with.
    pub fn key_arity(&self) -> (n: usize)
        ensures
            n == self@.key_fields.len(),
    {
        self.key_fields.len()
    }

    /// How many fields the first record had.
    pub fn num_fields(&self) -> (n: usize)
        ensures
            n == self@.num_fields,
    {
        self.num_fields
    }

    /// The bytes that stand in for a field of this input where it is absent.
    pub fn missing(&self) -> (m: &[u8])
        ensures
            m@ == self@.missing,
    {
        self.config.missing.as_str().as_bytes()
    }
}

} // verus!
