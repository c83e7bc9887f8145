//! The field view: one line, split at every delimiter into addressable fields.

use vstd::prelude::*;
use vstd::slice::slice_subrange;

verus! {

/// The pieces that `s` falls into at every `delim`, of which there is
/// always at least one: reading `s` item by item, a delimiter closes the
/// running piece and opens an empty one, any other item extends the running
/// piece.
pub open spec fn split_nonempty<T>(s: Seq<T>, delim: T) -> Seq<Seq<T>>
    decreases s.len(),
{
    if s.len() == 0 {
        seq![Seq::<T>::empty()]
    } else {
        let before = split_nonempty(s.drop_last(), delim);
        if s.last() == delim {
            before.push(Seq::<T>::empty())
        } else {
            before.drop_last().push(before.last().push(s.last()))
        }
    }
}

/// The fields of a line. An empty line has no field at all; any other line is
/// cut at every occurrence of `delim`.
pub open spec fn split_fields(s: Seq<u8>, delim: u8) -> Seq<Seq<u8>> {
    if s.len() == 0 {
        Seq::empty()
    } else {
        split_nonempty(s, delim)
    }
}

/// The cells of a row written out as one line, `delim` between neighbours.
pub open spec fn join_cells(cells: Seq<Seq<u8>>, delim: u8) -> Seq<u8>
    decreases cells.len(),
{
    if cells.len() == 0 {
        Seq::empty()
    } else if cells.len() == 1 {
        cells[0]
    } else {
        join_cells(cells.drop_last(), delim).push(delim) + cells.last()
    }
}

/// What each borrowed field of a list holds.
pub open spec fn views(s: Seq<&[u8]>) -> Seq<Seq<u8>> {
    Seq::new(s.len(), |i: int| s[i]@)
}

/// The fields among the first `n` whose index is not a key index, in order.
pub open spec fn non_keys_upto(fields: Seq<Seq<u8>>, key_fields: Seq<usize>, n: int) -> Seq<Seq<u8>>
    decreases n,
{
    if n <= 0 {
        Seq::empty()
    } else {
        let before = non_keys_upto(fields, key_fields, n - 1);
        if key_fields.contains((n - 1) as usize) {
            before
        } else {
            before.push(fields[n - 1])
        }
    }
}

/// The fields that the first `n` key indices name, in the order of the
/// indices. An index that the line has no field for contributes nothing.
pub open spec fn keys_upto(fields: Seq<Seq<u8>>, key_fields: Seq<usize>, n: int) -> Seq<Seq<u8>>
    decreases n,
{
    if n <= 0 {
        Seq::empty()
    } else {
        let before = keys_upto(fields, key_fields, n - 1);
        if key_fields[n - 1] < fields.len() {
            before.push(fields[key_fields[n - 1] as int])
        } else {
            before
        }
    }
}

/// What holds no delimiter is one piece.
pub proof fn lemma_split_plain<T>(s: Seq<T>, delim: T)
    requires
        forall|i: int| 0 <= i < s.len() ==> s[i] != delim,
    ensures
        split_nonempty(s, delim) == seq![s],
    decreases s.len(),
{
    if s.len() == 0 {
        assert(s =~= Seq::<T>::empty());
    } else {
        lemma_split_plain(s.drop_last(), delim);
        let before = split_nonempty(s.drop_last(), delim);
        assert(before.last().push(s.last()) =~= s);
        assert(before.drop_last().push(s) =~= seq![s]);
    }
}

/// Splitting gives at least one piece, and no piece holds a delimiter.
pub proof fn law_pieces_hold_no_delimiter<T>(s: Seq<T>, delim: T)
    ensures
        split_nonempty(s, delim).len() >= 1,
        forall|k: int, i: int|
            0 <= k < split_nonempty(s, delim).len() && 0 <= i < split_nonempty(s, delim)[k].len()
                ==> #[trigger] split_nonempty(s, delim)[k][i] != delim,
    decreases s.len(),
{
    if s.len() > 0 {
        law_pieces_hold_no_delimiter(s.drop_last(), delim);
    }
}

/// Writing the fields of a line out again, the delimiter between them,
/// gives the line back.
pub proof fn law_join_of_split(s: Seq<u8>, delim: u8)
    ensures
        join_cells(split_fields(s, delim), delim) == s,
    decreases s.len(),
{
    if s.len() > 0 {
        lemma_join_split_nonempty(s, delim);
    } else {
        assert(s =~= Seq::<u8>::empty());
    }
}

/// The same for a line that has at least one field.
proof fn lemma_join_split_nonempty(s: Seq<u8>, delim: u8)
    ensures
        join_cells(split_nonempty(s, delim), delim) == s,
    decreases s.len(),
{
    law_pieces_hold_no_delimiter(s, delim);
    if s.len() == 0 {
        assert(s =~= Seq::<u8>::empty());
    } else {
        let before = split_nonempty(s.drop_last(), delim);
        lemma_join_split_nonempty(s.drop_last(), delim);
        law_pieces_hold_no_delimiter(s.drop_last(), delim);
        if s.last() == delim {
            let now = before.push(Seq::<u8>::empty());
            assert(now.drop_last() =~= before);
            assert(join_cells(now, delim) =~= s.drop_last().push(delim) + Seq::<u8>::empty());
            assert(s.drop_last().push(delim) + Seq::<u8>::empty() =~= s);
        } else {
            let grown = before.last().push(s.last());
            let now = before.drop_last().push(grown);
            if before.len() == 1 {
                assert(before[0] == join_cells(before, delim));
                assert(now[0] =~= s);
            } else {
                assert(now.drop_last() =~= before.drop_last());
                assert(join_cells(before, delim) == join_cells(before.drop_last(), delim).push(
                    delim,
                ) + before.last());
                assert(join_cells(now, delim) == join_cells(before.drop_last(), delim).push(delim)
                    + grown);
                assert(join_cells(before.drop_last(), delim).push(delim) + grown =~= (join_cells(
                    before.drop_last(),
                    delim,
                ).push(delim) + before.last()).push(s.last()));
                assert(s.drop_last().push(s.last()) =~= s);
            }
        }
    }
}

/// The mathematical value of a split line: the line, its fields, and the
/// indices of the fields that make up its key.
pub struct Record {
    /// The line as it was read, without its terminator.
    pub line: Seq<u8>,
    /// The fields of the line, in order.
    pub fields: Seq<Seq<u8>>,
    /// The indices of the key's fields, counted from 0.
    pub key_fields: Seq<usize>,
}

impl Record {
    /// The record that splitting `line` at `delim` gives.
    pub open spec fn of(line: Seq<u8>, delim: u8, key_fields: Seq<usize>) -> Record {
        Record { line, fields: split_fields(line, delim), key_fields }
    }

    /// Every key index names a field that the line has.
    pub open spec fn has_keys(self) -> bool {
        forall|k: int|
            0 <= k < self.key_fields.len() ==> (#[trigger] self.key_fields[k]) < self.fields.len()
    }

    /// The key: the fields at the key indices, in the order of the indices.
    /// A line too short for one of the indices has a shorter key.
    pub open spec fn keys(self) -> Seq<Seq<u8>> {
        keys_upto(self.fields, self.key_fields, self.key_fields.len() as int)
    }

    /// The fields that are no part of the key, in the order of the line.
    pub open spec fn non_keys(self) -> Seq<Seq<u8>> {
        non_keys_upto(self.fields, self.key_fields, self.fields.len() as int)
    }
}

/// A line together with the byte offsets of its fields. The offsets are
/// relative to the line, so a copy of the line shares them unchanged.
pub struct SplitLine {
    line: Vec<u8>,
    fields: Vec<(usize, usize)>,
    key_fields: Vec<usize>,
}

impl View for SplitLine {
    type V = Record;

    closed spec fn view(&self) -> Record {
        Record {
            line: self.line@,
            fields: Seq::new(
                self.fields@.len(),
                |i: int| self.line@.subrange(self.fields@[i].0 as int, self.fields@[i].1 as int),
            ),
            key_fields: self.key_fields@,
        }
    }
}

impl SplitLine {
    #[verifier::type_invariant]
    spec fn offsets_in_line(self) -> bool {
        forall|i: int|
            0 <= i < self.fields@.len() ==> (#[trigger] self.fields@[i]).0 <= self.fields@[i].1
                <= self.line@.len()
    }

    /// Splits `line` at every `delim`; `key_fields` names the key's fields.
    pub fn new(line: Vec<u8>, delim: u8, key_fields: Vec<usize>) -> (s: Self)
        ensures
            s@ == Record::of(line@, delim, key_fields@),
    {
        let n: usize = line.len();
        let mut fields: Vec<(usize, usize)> = Vec::new();
        if n > 0 {
            let mut start: usize = 0;
            let mut i: usize = 0;
            proof {
                assert(line@.take(0).len() == 0);
                assert(line@.subrange(0, 0) =~= Seq::<u8>::empty());
                assert(Seq::new(
                    fields@.len(),
                    |k: int| line@.subrange(fields@[k].0 as int, fields@[k].1 as int),
                ).push(line@.subrange(0, 0)) =~= seq![Seq::<u8>::empty()]);
            }
            while i < n
                invariant
                    n == line@.len(),
                    start <= i <= n,
                    forall|k: int|
                        0 <= k < fields@.len() ==> (#[trigger] fields@[k]).0 <= fields@[k].1 <= n,
                    Seq::new(
                        fields@.len(),
                        |k: int| line@.subrange(fields@[k].0 as int, fields@[k].1 as int),
                    ).push(line@.subrange(start as int, i as int)) == split_nonempty(
                        line@.take(i as int),
                        delim,
                    ),
                decreases n - i,
            {
                let ghost done = Seq::new(
                    fields@.len(),
                    |k: int| line@.subrange(fields@[k].0 as int, fields@[k].1 as int),
                );
                let ghost running = line@.subrange(start as int, i as int);
                proof {
                    assert(line@.take(i + 1).drop_last() == line@.take(i as int));
                    assert(line@.take(i + 1).last() == line@[i as int]);
                    assert(done.push(running).drop_last() == done);
                }
                if line[i] == delim {
                    fields.push((start, i));
                    start = i + 1;
                    proof {
                        assert(Seq::new(
                            fields@.len(),
                            |k: int| line@.subrange(fields@[k].0 as int, fields@[k].1 as int),
                        ) == done.push(running));
                        assert(line@.subrange(start as int, i + 1) == Seq::<u8>::empty());
                    }
                } else {
                    proof {
                        assert(line@.subrange(start as int, i + 1) == running.push(
                            line@[i as int],
                        ));
                    }
                }
                i = i + 1;
            }
            fields.push((start, n));
            proof {
                assert(line@.take(n as int) == line@);
            }
        }
        let s = SplitLine { line, fields, key_fields };
        proof {
            assert(s@.fields == split_fields(s.line@, delim));
        }
        s
    }

    /// The same line and fields with other key indices.
    pub fn rekey(self, key_fields: Vec<usize>) -> (s: Self)
        ensures
            s@ == (Record { key_fields: key_fields@, ..self@ }),
    {
        proof {
            use_type_invariant(&self);
        }
        let s = SplitLine { line: self.line, fields: self.fields, key_fields };
        proof {
            assert(s@.fields =~= self@.fields);
        }
        s
    }

    /// How many fields the line has.
    pub fn num_fields(&self) -> (n: usize)
        ensures
            n == self@.fields.len(),
    {
        self.fields.len()
    }

    /// The field at `index`, borrowed from the line.
    pub fn field(&self, index: usize) -> (f: &[u8])
        requires
            index < self@.fields.len(),
        ensures
            f@ == self@.fields[index as int],
    {
        proof {
            use_type_invariant(self);
        }
        let (a, b) = self.fields[index];
        slice_subrange(self.line.as_slice(), a, b)
    }

    /// The first field of the key.
    pub fn key(&self) -> (f: &[u8])
        requires
            self@.key_fields.len() > 0,
            self@.key_fields[0] < self@.fields.len(),
        ensures
            f@ == self@.fields[self@.key_fields[0] as int],
    {
        self.field(self.key_fields[0])
    }

    /// Whether the line has a field for every key index.
    pub fn has_keys(&self) -> (b: bool)
        ensures
            b == self@.has_keys(),
    {
        let mut k: usize = 0;
        while k < self.key_fields.len()
            invariant
                k <= self.key_fields@.len(),
                forall|j: int| 0 <= j < k ==> (#[trigger] self.key_fields@[j]) < self.fields@.len(),
            decreases self.key_fields@.len() - k,
        {
            if self.key_fields[k] >= self.fields.len() {
                assert(self@.key_fields[k as int] >= self@.fields.len());
                return false;
            }
            k = k + 1;
        }
        true
    }

    /// The key, each field borrowed from the line; the list is built anew
    /// on every call.
    pub fn keys(&self) -> (out: Vec<&[u8]>)
        ensures
            views(out@) == self@.keys(),
    {
        let mut out: Vec<&[u8]> = Vec::new();
        let mut k: usize = 0;
        proof {
            assert(views(out@) =~= keys_upto(self@.fields, self@.key_fields, 0));
        }
        while k < self.key_fields.len()
            invariant
                k <= self.key_fields@.len(),
                views(out@) == keys_upto(self@.fields, self@.key_fields, k as int),
            decreases self.key_fields@.len() - k,
        {
            let index: usize = self.key_fields[k];
            let ghost before = views(out@);
            if index < self.fields.len() {
                let f = self.field(index);
                out.push(f);
                proof {
                    assert(views(out@) =~= before.push(f@));
                }
            }
            k = k + 1;
        }
        out
    }

    /// All the fields, each borrowed from the line.
    pub fn fields(&self) -> (out: Vec<&[u8]>)
        ensures
            views(out@) == self@.fields,
    {
        let mut out: Vec<&[u8]> = Vec::new();
        let mut i: usize = 0;
        while i < self.fields.len()
            invariant
                i <= self.fields@.len(),
                out@.len() == i,
                forall|j: int| 0 <= j < i ==> (#[trigger] out@[j])@ == self@.fields[j],
            decreases self.fields@.len() - i,
        {
            let f = self.field(i);
            out.push(f);
            i = i + 1;
        }
        proof {
            assert(views(out@) =~= self@.fields);
        }
        out
    }

    /// Whether `index` is one of the key indices.
    pub fn is_key_field(&self, index: usize) -> (b: bool)
        ensures
            b == self@.key_fields.contains(index),
    {
        let mut k: usize = 0;
        while k < self.key_fields.len()
            invariant
                k <= self.key_fields@.len(),
                forall|j: int| 0 <= j < k ==> self.key_fields@[j] != index,
            decreases self.key_fields@.len() - k,
        {
            if self.key_fields[k] == index {
                return true;
            }
            k = k + 1;
        }
        false
    }

    /// The fields that are no part of the key, in the order of the line.
    pub fn fields_except_keys(&self) -> (out: Vec<&[u8]>)
        ensures
            views(out@) == self@.non_keys(),
    {
        let mut out: Vec<&[u8]> = Vec::new();
        let mut i: usize = 0;
        proof {
            assert(views(out@) =~= non_keys_upto(self@.fields, self@.key_fields, 0));
        }
        while i < self.fields.len()
            invariant
                i <= self.fields@.len(),
                views(out@) == non_keys_upto(self@.fields, self@.key_fields, i as int),
            decreases self.fields@.len() - i,
        {
            let ghost before = views(out@);
            if !self.is_key_field(i) {
                let f = self.field(i);
                out.push(f);
                proof {
                    assert(views(out@) =~= before.push(f@));
                }
            }
            i = i + 1;
        }
        out
    }
}

impl Clone for SplitLine {
    /// A copy with a line of its own. The offsets are taken over as they are.
    fn clone(&self) -> (copy: Self)
        ensures
            copy@ == self@,
    {
        proof {
            use_type_invariant(self);
        }
        let line = self.line.clone();
        let key_fields = self.key_fields.clone();
        let mut fields: Vec<(usize, usize)> = Vec::new();
        let mut i: usize = 0;
        while i < self.fields.len()
            invariant
                i <= self.fields@.len(),
                fields@ == self.fields@.take(i as int),
            decreases self.fields@.len() - i,
        {
            fields.push(self.fields[i]);
            i = i + 1;
        }
        proof {
            assert(fields@ == self.fields@);
            assert(line@ == self.line@);
            assert(key_fields@ == self.key_fields@);
        }
        let copy = SplitLine { line, fields, key_fields };
        proof {
            assert(copy@.fields =~= self@.fields);
        }
        copy
    }
}

} // verus!
