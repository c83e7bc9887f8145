//! The output projector: from the columns of a projection and the records
//! that are present on a row to the rendered output line.

use vstd::prelude::*;
use crate::config::{bytes_of, JoinError, OutputField, OutputOrder, Side};
use crate::cursor::{column_index, lookup_index, JoinFile};
use crate::fields::{join_cells, views, Record, SplitLine};

verus! {

/// One resolved output column.
#[derive(Debug, Clone, Copy, PartialEq, Eq, Structural)]
pub enum Column {
    /// The join key, one cell for each of its fields.
    Key,
    /// The field of the left input at this index.
    Left(usize),
    /// The field of the right input at this index.
    Right(usize),
}

/// A resolved projection: the columns of every output row and the
/// delimiter that is written between their cells.
pub struct Projection {
    /// The columns, in the order of the output.
    pub columns: Vec<Column>,
    /// The delimiter of the output.
    pub delim: u8,
}

/// One side of a row: its record, whether it is present on the row, and
/// what stands in for its fields where it is not.
pub struct Part {
    /// The record of this side.
    pub record: Record,
    /// Whether the side is on the row.
    pub present: bool,
    /// What stands in for a field of this side where it is absent.
    pub missing: Seq<u8>,
}

impl Part {
    /// The cell for the field at `index`: the field where the side is
    /// present and its line has one, an empty cell where the line is too
    /// short, the placeholder where the side is absent.
    pub open spec fn cell(self, index: usize) -> Seq<u8> {
        if !self.present {
            self.missing
        } else if index < self.record.fields.len() {
            self.record.fields[index as int]
        } else {
            Seq::empty()
        }
    }
}

/// The cells that one column contributes to a row.
pub open spec fn column_cells(column: Column, left: Part, right: Part) -> Seq<Seq<u8>> {
    match column {
        Column::Key => if left.present {
            left.record.keys()
        } else {
            right.record.keys()
        },
        Column::Left(index) => seq![left.cell(index)],
        Column::Right(index) => seq![right.cell(index)],
    }
}

/// The cells that the first `n` columns contribute to a row.
pub open spec fn row_cells_upto(columns: Seq<Column>, left: Part, right: Part, n: int) -> Seq<
    Seq<u8>,
>
    decreases n,
{
    if n <= 0 {
        Seq::empty()
    } else {
        row_cells_upto(columns, left, right, n - 1) + column_cells(columns[n - 1], left, right)
    }
}

/// The cells of a row.
pub open spec fn row_cells(columns: Seq<Column>, left: Part, right: Part) -> Seq<Seq<u8>> {
    row_cells_upto(columns, left, right, columns.len() as int)
}

/// The rendered row: its cells with the delimiter between them.
pub open spec fn render_row(columns: Seq<Column>, delim: u8, left: Part, right: Part) -> Seq<u8> {
    join_cells(row_cells(columns, left, right), delim)
}

/// The columns for the fields of one input that are no part of its key,
/// among the first `n` fields.
pub open spec fn other_columns_upto(side: Side, key_fields: Seq<usize>, n: int) -> Seq<Column>
    decreases n,
{
    if n <= 0 {
        Seq::empty()
    } else {
        let before = other_columns_upto(side, key_fields, n - 1);
        if key_fields.contains((n - 1) as usize) {
            before
        } else {
            match side {
                Side::Left => before.push(Column::Left((n - 1) as usize)),
                Side::Right => before.push(Column::Right((n - 1) as usize)),
            }
        }
    }
}

/// The projection that is laid out from the inputs themselves: the key,
/// then every other field of the left input, then every other field of the
/// right input, each input with as many fields as its first record had.
pub open spec fn auto_columns(
    left_fields: nat,
    left_keys: Seq<usize>,
    right_fields: nat,
    right_keys: Seq<usize>,
) -> Seq<Column> {
    seq![Column::Key] + other_columns_upto(Side::Left, left_keys, left_fields as int)
        + other_columns_upto(Side::Right, right_keys, right_fields as int)
}

/// The column that one explicit output field resolves to, or the reason why
/// it does not resolve.
pub open spec fn resolved_field(
    field: OutputField,
    left_header: Option<Record>,
    right_header: Option<Record>,
) -> Result<Column, JoinError> {
    match field {
        OutputField::JoinField => Ok(Column::Key),
        OutputField::FileField { file, field } => if file == 1 {
            Ok(Column::Left(field))
        } else if file == 2 {
            Ok(Column::Right(field))
        } else {
            Err(JoinError::FileNumber)
        },
        OutputField::NamedFileField { file, field } => if file != 1 && file != 2 {
            Err(JoinError::FileNumber)
        } else {
            let header = if file == 1 {
                left_header
            } else {
                right_header
            };
            let side = if file == 1 {
                Side::Left
            } else {
                Side::Right
            };
            match header {
                None => Err(JoinError::NamedWithoutHeader),
                Some(h) => match column_index(h.fields, bytes_of(field@)) {
                    None => Err(JoinError::UnknownColumn(side)),
                    Some(i) => if file == 1 {
                        Ok(Column::Left(i as usize))
                    } else {
                        Ok(Column::Right(i as usize))
                    },
                },
            }
        },
    }
}

/// The columns that the first `n` explicit output fields resolve to, or the
/// reason why the first of them that does not resolve fails.
pub open spec fn resolved_fields_upto(
    fields: Seq<OutputField>,
    left_header: Option<Record>,
    right_header: Option<Record>,
    n: int,
) -> Result<Seq<Column>, JoinError>
    decreases n,
{
    if n <= 0 {
        Ok(Seq::empty())
    } else {
        match resolved_fields_upto(fields, left_header, right_header, n - 1) {
            Err(e) => Err(e),
            Ok(before) => match resolved_field(fields[n - 1], left_header, right_header) {
                Err(e) => Err(e),
                Ok(column) => Ok(before.push(column)),
            },
        }
    }
}

/// The projection that an output order stands for, once both inputs are
/// primed.
pub open spec fn resolved_order(
    order: OutputOrder,
    left_fields: nat,
    left_keys: Seq<usize>,
    left_header: Option<Record>,
    right_fields: nat,
    right_keys: Seq<usize>,
    right_header: Option<Record>,
) -> Result<Seq<Column>, JoinError> {
    match order {
        OutputOrder::GnuDefault => Ok(auto_columns(left_fields, left_keys, right_fields, right_keys)),
        OutputOrder::Auto => Ok(auto_columns(left_fields, left_keys, right_fields, right_keys)),
        OutputOrder::Explicit(fields) => resolved_fields_upto(
            fields@,
            left_header,
            right_header,
            fields@.len() as int,
        ),
    }
}

/// Once an output field fails to resolve, the whole order fails in the same
/// way.
proof fn lemma_resolved_fields_fail(
    fields: Seq<OutputField>,
    left_header: Option<Record>,
    right_header: Option<Record>,
    n: int,
)
    requires
        0 <= n <= fields.len(),
        resolved_fields_upto(fields, left_header, right_header, n) is Err,
    ensures
        resolved_fields_upto(fields, left_header, right_header, fields.len() as int)
            == resolved_fields_upto(fields, left_header, right_header, n),
    decreases fields.len() - n,
{
    if n < fields.len() {
        lemma_resolved_fields_fail(fields, left_header, right_header, n + 1);
    }
}

/// The cells of the first columns of a row stay where they are when more
/// columns follow.
proof fn lemma_cells_prefix(columns: Seq<Column>, left: Part, right: Part, c: int, n: int)
    requires
        0 <= c <= n <= columns.len(),
    ensures
        row_cells_upto(columns, left, right, c).len() <= row_cells_upto(columns, left, right, n).len(),
        row_cells_upto(columns, left, right, n).take(
            row_cells_upto(columns, left, right, c).len() as int,
        ) == row_cells_upto(columns, left, right, c),
    decreases n - c,
{
    if c < n {
        lemma_cells_prefix(columns, left, right, c, n - 1);
        let shorter = row_cells_upto(columns, left, right, n - 1);
        let longer = row_cells_upto(columns, left, right, n);
        let wanted = row_cells_upto(columns, left, right, c);
        assert(longer.take(wanted.len() as int) =~= shorter.take(wanted.len() as int));
    } else {
        let wanted = row_cells_upto(columns, left, right, c);
        assert(wanted.take(wanted.len() as int) =~= wanted);
    }
}

/// Where the cells of each column stand in a row, and what they hold.
///
/// The cells of column `c` follow the cells of the columns before it. The
/// column of a field holds one cell: the placeholder of its side where the
/// side is absent from the row, and otherwise the field, or nothing where
/// the line is too short to have it. The key column holds the key of a
/// side that is present. So the placeholder of a side stands in every
/// field column of that side on a row that the side is absent from, and is
/// put nowhere else.
pub proof fn law_cells_of_columns(columns: Seq<Column>, left: Part, right: Part, c: int)
    requires
        0 <= c < columns.len(),
    ensures
        ({
            let row = row_cells(columns, left, right);
            let start = row_cells_upto(columns, left, right, c).len() as int;
            let end = row_cells_upto(columns, left, right, c + 1).len() as int;
            &&& 0 <= start <= end <= row.len()
            &&& row.subrange(start, end) == column_cells(columns[c], left, right)
            &&& match columns[c] {
                Column::Key => row.subrange(start, end) == if left.present {
                    left.record.keys()
                } else {
                    right.record.keys()
                },
                Column::Left(index) => end == start + 1 && row[start] == if !left.present {
                    left.missing
                } else if index < left.record.fields.len() {
                    left.record.fields[index as int]
                } else {
                    Seq::empty()
                },
                Column::Right(index) => end == start + 1 && row[start] == if !right.present {
                    right.missing
                } else if index < right.record.fields.len() {
                    right.record.fields[index as int]
                } else {
                    Seq::empty()
                },
            }
        }),
{
    let row = row_cells(columns, left, right);
    let before = row_cells_upto(columns, left, right, c);
    let through = row_cells_upto(columns, left, right, c + 1);
    lemma_cells_prefix(columns, left, right, c + 1, columns.len() as int);
    let cells = column_cells(columns[c], left, right);
    assert(through == before + cells);
    assert(row.subrange(before.len() as int, through.len() as int) =~= row.take(
        through.len() as int,
    ).subrange(before.len() as int, through.len() as int));
    assert(through.subrange(before.len() as int, through.len() as int) =~= cells);
    match columns[c] {
        Column::Key => {},
        Column::Left(index) => {
            assert(cells[0] == left.cell(index));
            assert(row[before.len() as int] == row.subrange(
                before.len() as int,
                through.len() as int,
            )[0]);
        },
        Column::Right(index) => {
            assert(cells[0] == right.cell(index));
            assert(row[before.len() as int] == row.subrange(
                before.len() as int,
                through.len() as int,
            )[0]);
        },
    }
}

/// Appends `bytes` to `out`.
pub fn append_bytes(out: &mut Vec<u8>, bytes: &[u8])
    ensures
        final(out)@ == old(out)@ + bytes@,
{
    let mut i: usize = 0;
    proof {
        assert(out@ =~= old(out)@ + bytes@.take(0));
    }
    while i < bytes.len()
        invariant
            i <= bytes@.len(),
            out@ == old(out)@ + bytes@.take(i as int),
        decreases bytes@.len() - i,
    {
        out.push(bytes[i]);
        proof {
            assert(bytes@.take(i + 1) =~= bytes@.take(i as int).push(bytes@[i as int]));
            assert(out@ =~= old(out)@ + bytes@.take(i + 1));
        }
        i = i + 1;
    }
    proof {
        assert(bytes@.take(bytes@.len() as int) =~= bytes@);
    }
}

/// Writes the cells out as one line, `delim` between neighbours.
pub fn join_line(cells: &Vec<&[u8]>, delim: u8) -> (line: Vec<u8>)
    ensures
        line@ == join_cells(views(cells@), delim),
{
    let mut line: Vec<u8> = Vec::new();
    let mut i: usize = 0;
    proof {
        assert(views(cells@).take(0) =~= Seq::<Seq<u8>>::empty());
    }
    while i < cells.len()
        invariant
            i <= cells@.len(),
            line@ == join_cells(views(cells@).take(i as int), delim),
        decreases cells@.len() - i,
    {
        proof {
            assert(views(cells@).take(i + 1).drop_last() =~= views(cells@).take(i as int));
            assert(views(cells@).take(i + 1).last() == cells@[i as int]@);
        }
        if i > 0 {
            line.push(delim);
        } else {
            proof {
                assert(line@ =~= Seq::<u8>::empty());
            }
        }
        append_bytes(&mut line, cells[i]);
        proof {
            if i == 0 {
                assert(line@ =~= cells@[0]@);
                assert(views(cells@).take(1)[0] == cells@[0]@);
            }
        }
        i = i + 1;
    }
    proof {
        assert(views(cells@).take(cells@.len() as int) =~= views(cells@));
    }
    line
}

/// The cell of one side for the field at `index`.
fn part_cell<'a>(row: &'a SplitLine, present: bool, missing: &'a [u8], index: usize) -> (cell:
    &'a [u8])
    ensures
        cell@ == (Part { record: row@, present, missing: missing@ }).cell(index),
{
    if !present {
        missing
    } else if index < row.num_fields() {
        row.field(index)
    } else {
        let empty: &[u8] = &[];
        proof {
            assert(empty@ =~= Seq::<u8>::empty());
        }
        empty
    }
}

/// Renders one row from the records that are given for the two sides.
pub fn render(
    columns: &Vec<Column>,
    delim: u8,
    left_row: &SplitLine,
    left_present: bool,
    left_missing: &[u8],
    right_row: &SplitLine,
    right_present: bool,
    right_missing: &[u8],
) -> (line: Vec<u8>)
    ensures
        line@ == render_row(
            columns@,
            delim,
            Part { record: left_row@, present: left_present, missing: left_missing@ },
            Part { record: right_row@, present: right_present, missing: right_missing@ },
        ),
{
    let ghost left = Part { record: left_row@, present: left_present, missing: left_missing@ };
    let ghost right = Part { record: right_row@, present: right_present, missing: right_missing@ };
    let mut cells: Vec<&[u8]> = Vec::new();
    let mut c: usize = 0;
    proof {
        assert(views(cells@) =~= row_cells_upto(columns@, left, right, 0));
    }
    while c < columns.len()
        invariant
            c <= columns@.len(),
            left == (Part { record: left_row@, present: left_present, missing: left_missing@ }),
            right == (Part {
                record: right_row@,
                present: right_present,
                missing: right_missing@,
            }),
            views(cells@) == row_cells_upto(columns@, left, right, c as int),
        decreases columns@.len() - c,
    {
        let ghost before = views(cells@);
        match columns[c] {
            Column::Key => {
                let mut keys = if left_present {
                    left_row.keys()
                } else {
                    right_row.keys()
                };
                let ghost key_cells = views(keys@);
                cells.append(&mut keys);
                proof {
                    assert(views(cells@) =~= before + key_cells);
                }
            },
            Column::Left(index) => {
                let cell = part_cell(left_row, left_present, left_missing, index);
                cells.push(cell);
                proof {
                    assert(views(cells@) =~= before + seq![cell@]);
                }
            },
            Column::Right(index) => {
                let cell = part_cell(right_row, right_present, right_missing, index);
                cells.push(cell);
                proof {
                    assert(views(cells@) =~= before + seq![cell@]);
                }
            },
        }
        c = c + 1;
    }
    join_line(&cells, delim)
}

/// The side of a row that a cursor gives: its current record.
pub open spec fn row_part(cursor: crate::cursor::Cursor, present: bool) -> Part {
    Part { record: cursor.row, present, missing: cursor.missing }
}

/// The side of the header row that a cursor gives: its header line.
pub open spec fn header_part(cursor: crate::cursor::Cursor) -> Part {
    Part { record: cursor.header->0, present: true, missing: cursor.missing }
}

/// Renders the row that the current records of the two cursors make, with
/// the sides present that the flags name, and marks those sides as emitted.
pub fn do_output(
    projection: &Projection,
    left: &mut JoinFile,
    right: &mut JoinFile,
    print_left: bool,
    print_right: bool,
) -> (line: Vec<u8>)
    ensures
        final(left)@ == (if print_left {
            old(left)@.mark_emitted()
        } else {
            old(left)@
        }),
        final(right)@ == (if print_right {
            old(right)@.mark_emitted()
        } else {
            old(right)@
        }),
        line@ == render_row(
            projection.columns@,
            projection.delim,
            row_part(old(left)@, print_left),
            row_part(old(right)@, print_right),
        ),
{
    if print_left {
        left.mark_emitted();
    }
    if print_right {
        right.mark_emitted();
    }
    render(
        &projection.columns,
        projection.delim,
        left.row(),
        print_left,
        left.missing(),
        right.row(),
        print_right,
        right.missing(),
    )
}

/// Renders the header row: the projection applied to the two header lines,
/// both sides present.
pub fn do_header_output(projection: &Projection, left: &JoinFile, right: &JoinFile) -> (line: Vec<
    u8,
>)
    requires
        left@.header is Some,
        right@.header is Some,
    ensures
        line@ == render_row(
            projection.columns@,
            projection.delim,
            header_part(left@),
            header_part(right@),
        ),
{
    match (left.header(), right.header()) {
        (Some(left_header), Some(right_header)) => render(
            &projection.columns,
            projection.delim,
            left_header,
            true,
            left.missing(),
            right_header,
            true,
            right.missing(),
        ),
        _ => Vec::new(),
    }
}

/// Appends the columns for the fields of one input that are no part of its
/// key.
fn push_other_columns(columns: &mut Vec<Column>, side: Side, file: &JoinFile)
    ensures
        final(columns)@ == old(columns)@ + other_columns_upto(
            side,
            file@.key_fields,
            file@.num_fields as int,
        ),
{
    let n: usize = file.num_fields();
    let mut i: usize = 0;
    proof {
        assert(columns@ =~= old(columns)@ + other_columns_upto(side, file@.key_fields, 0));
    }
    while i < n
        invariant
            i <= n,
            n == file@.num_fields,
            columns@ == old(columns)@ + other_columns_upto(side, file@.key_fields, i as int),
        decreases n - i,
    {
        let ghost before = other_columns_upto(side, file@.key_fields, i as int);
        if !file.is_key_field(i) {
            match side {
                Side::Left => {
                    columns.push(Column::Left(i));
                    proof {
                        assert(columns@ =~= old(columns)@ + before.push(Column::Left(i)));
                    }
                },
                Side::Right => {
                    columns.push(Column::Right(i));
                    proof {
                        assert(columns@ =~= old(columns)@ + before.push(Column::Right(i)));
                    }
                },
            }
        }
        i = i + 1;
    }
}

/// Resolves one explicit output field.
fn resolve_field(field: &OutputField, left: &JoinFile, right: &JoinFile) -> (r: Result<
    Column,
    JoinError,
>)
    ensures
        r == resolved_field(*field, left@.header, right@.header),
{
    match field {
        OutputField::JoinField => Ok(Column::Key),
        OutputField::FileField { file, field } => {
            if *file == 1 {
                Ok(Column::Left(*field))
            } else if *file == 2 {
                Ok(Column::Right(*field))
            } else {
                Err(JoinError::FileNumber)
            }
        },
        OutputField::NamedFileField { file, field } => {
            if *file != 1 && *file != 2 {
                return Err(JoinError::FileNumber);
            }
            let header = if *file == 1 {
                left.header()
            } else {
                right.header()
            };
            match header {
                None => Err(JoinError::NamedWithoutHeader),
                Some(h) => match lookup_index(field.as_str(), h) {
                    None => Err(
                        JoinError::UnknownColumn(
                            if *file == 1 {
                                Side::Left
                            } else {
                                Side::Right
                            },
                        ),
                    ),
                    Some(i) => if *file == 1 {
                        Ok(Column::Left(i))
                    } else {
                        Ok(Column::Right(i))
                    },
                },
            }
        },
    }
}

/// What a resolved list of columns holds.
pub open spec fn columns_view(r: Result<Vec<Column>, JoinError>) -> Result<Seq<Column>, JoinError> {
    match r {
        Ok(columns) => Ok(columns@),
        Err(e) => Err(e),
    }
}

/// Resolves an output order against two primed cursors. The two orders that
/// name no columns are laid out from the field counts of the first records;
/// in an explicit order each named field becomes the index of its column.
pub fn resolve_order(order: &OutputOrder, left: &JoinFile, right: &JoinFile) -> (r: Result<
    Vec<Column>,
    JoinError,
>)
    ensures
        columns_view(r) == resolved_order(
            *order,
            left@.num_fields,
            left@.key_fields,
            left@.header,
            right@.num_fields,
            right@.key_fields,
            right@.header,
        ),
{
    match order {
        OutputOrder::Explicit(fields) => {
            let mut columns: Vec<Column> = Vec::new();
            let mut i: usize = 0;
            while i < fields.len()
                invariant
                    i <= fields@.len(),
                    *order == OutputOrder::Explicit(*fields),
                    resolved_fields_upto(fields@, left@.header, right@.header, i as int) == Ok::<
                        Seq<Column>,
                        JoinError,
                    >(columns@),
                decreases fields@.len() - i,
            {
                match resolve_field(&fields[i], left, right) {
                    Ok(column) => {
                        columns.push(column);
                    },
                    Err(e) => {
                        proof {
                            lemma_resolved_fields_fail(
                                fields@,
                                left@.header,
                                right@.header,
                                i + 1,
                            );
                        }
                        return Err(e);
                    },
                }
                i = i + 1;
            }
            Ok(columns)
        },
        _ => {
            let mut columns: Vec<Column> = Vec::new();
            columns.push(Column::Key);
            proof {
                assert(columns@ =~= seq![Column::Key]);
            }
            push_other_columns(&mut columns, Side::Left, left);
            push_other_columns(&mut columns, Side::Right, right);
            Ok(columns)
        },
    }
}

} // verus!
