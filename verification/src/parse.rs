//! The text forms of key fields and output orders.
//!
//! A key is a list of fields with commas between them, each a column
//! number, counted from 1, or a column name. An output order is `auto`,
//! `gnudefault`, or a list with commas between its entries: `0` for the join
//! key, `x.y` for column `y` of file `x`, `x.a-b` for the columns from `a` to
//! `b`, `x.name` for a column by its name.

use vstd::prelude::*;
use vstd::string::StrSliceExecFns;
use crate::config::{FieldSpec, KeyField, KeySpec, OrderSpec, OutputField, OutputOrder};
use crate::fields::split_nonempty;

verus! {

/// Why a text does not parse.
#[derive(Debug, Clone, Copy, PartialEq, Eq, Structural)]
pub enum ParseError {
    /// A column number is 0.
    ColumnNumber,
    /// A file number is neither 1 nor 2.
    FileNumber,
    /// A file is given by a word that names none.
    FileName,
    /// An output field is neither `0` nor of the form `x.y`.
    FieldFormat,
    /// A bound of a column range is no number.
    RangeBound,
    /// A column range ends before it begins.
    RangeOrder,
    /// The delimiter is not a single byte.
    Delimiter,
}

impl ParseError {
    /// The error in words.
    pub open spec fn text(self) -> Seq<char> {
        match self {
            ParseError::ColumnNumber => "output field column number must be greater than 0"@,
            ParseError::FileNumber => "output field file number must be either 1 or 2"@,
            ParseError::FileName => "invalid output field"@,
            ParseError::FieldFormat =>
                "output field format must be '0' or 'x.y' where x is the file number and y is the field number"@,
            ParseError::RangeBound => "invalid digit found in string"@,
            ParseError::RangeOrder => "field range is invalid"@,
            ParseError::Delimiter => "delimiter must be a single character"@,
        }
    }

    /// The error in words.
    pub fn message(&self) -> (text: String)
        ensures
            text@ == self.text(),
    {
        match self {
            ParseError::ColumnNumber => "output field column number must be greater than 0".to_owned(),
            ParseError::FileNumber => "output field file number must be either 1 or 2".to_owned(),
            ParseError::FileName => "invalid output field".to_owned(),
            ParseError::FieldFormat =>
                "output field format must be '0' or 'x.y' where x is the file number and y is the field number".to_owned(),
            ParseError::RangeBound => "invalid digit found in string".to_owned(),
            ParseError::RangeOrder => "field range is invalid".to_owned(),
            ParseError::Delimiter => "delimiter must be a single character".to_owned(),
        }
    }
}

/// Whether a character is white space: it has the property `White_Space`
/// of the Unicode character database.
pub open spec fn is_space(c: char) -> bool {
    let n = c as u32;
    ||| 0x09 <= n <= 0x0D
    ||| n == 0x20
    ||| n == 0x85
    ||| n == 0xA0
    ||| n == 0x1680
    ||| 0x2000 <= n <= 0x200A
    ||| n == 0x2028
    ||| n == 0x2029
    ||| n == 0x202F
    ||| n == 0x205F
    ||| n == 0x3000
}

/// The text without the white space that it begins with.
pub open spec fn trim_start(s: Seq<char>) -> Seq<char>
    decreases s.len(),
{
    if s.len() > 0 && is_space(s[0]) {
        trim_start(s.drop_first())
    } else {
        s
    }
}

/// The text without the white space that it ends with.
pub open spec fn trim_end(s: Seq<char>) -> Seq<char>
    decreases s.len(),
{
    if s.len() > 0 && is_space(s.last()) {
        trim_end(s.drop_last())
    } else {
        s
    }
}

/// The text without the white space around it.
pub open spec fn trimmed(s: Seq<char>) -> Seq<char> {
    trim_end(trim_start(s))
}

/// Whether a character is one of the digits `0` to `9`.
pub open spec fn is_digit(c: char) -> bool {
    0x30 <= c as u32 <= 0x39
}

/// Whether a text holds digits only.
pub open spec fn all_digits(s: Seq<char>) -> bool {
    forall|i: int| 0 <= i < s.len() ==> is_digit(#[trigger] s[i])
}

/// The number that a text of digits is the decimal form of.
pub open spec fn digits_value(s: Seq<char>) -> nat
    decreases s.len(),
{
    if s.len() == 0 {
        0
    } else {
        digits_value(s.drop_last()) * 10 + (s.last() as u32 - 0x30) as nat
    }
}

/// The number that a text is the decimal form of: digits, at least one,
/// after an optional `+`, that give a number within the range of `usize`.
/// Anything else is no number.
pub open spec fn parsed_number(s: Seq<char>) -> Option<usize> {
    let digits = if s.len() > 0 && s[0] == '+' {
        s.drop_first()
    } else {
        s
    };
    if digits.len() > 0 && all_digits(digits) && digits_value(digits) <= usize::MAX {
        Some(digits_value(digits) as usize)
    } else {
        None
    }
}

/// A number does not get smaller when digits follow it.
proof fn lemma_digits_grow(s: Seq<char>, n: int)
    requires
        0 <= n <= s.len(),
        all_digits(s),
    ensures
        digits_value(s.take(n)) <= digits_value(s),
    decreases s.len() - n,
{
    if n < s.len() {
        lemma_digits_grow(s.drop_last(), n);
        assert(s.drop_last().take(n) =~= s.take(n));
        assert(is_digit(s[s.len() - 1]));
    } else {
        assert(s.take(n) =~= s);
    }
}

/// The characters of a text.
pub fn chars_of(text: &str) -> (chars: Vec<char>)
    ensures
        chars@ == text@,
{
    let n: usize = text.unicode_len();
    let mut chars: Vec<char> = Vec::new();
    let mut i: usize = 0;
    while i < n
        invariant
            i <= n,
            n == text@.len(),
            chars@ == text@.take(i as int),
        decreases n - i,
    {
        chars.push(text.get_char(i));
        proof {
            assert(text@.take(i + 1) =~= text@.take(i as int).push(text@[i as int]));
        }
        i = i + 1;
    }
    proof {
        assert(text@.take(n as int) =~= text@);
    }
    chars
}

/// Whether a character is white space.
pub fn is_space_char(c: char) -> (b: bool)
    ensures
        b == is_space(c),
{
    let n: u32 = c as u32;
    (0x09 <= n && n <= 0x0D) || n == 0x20 || n == 0x85 || n == 0xA0 || n == 0x1680 || (0x2000 <= n
        && n <= 0x200A) || n == 0x2028 || n == 0x2029 || n == 0x202F || n == 0x205F || n == 0x3000
}

/// Where the text between `from` and `to` begins and ends once the white
/// space around it is left out.
pub fn trim_range(chars: &Vec<char>, from: usize, to: usize) -> (range: (usize, usize))
    requires
        from <= to <= chars@.len(),
    ensures
        from <= range.0 <= range.1 <= to,
        chars@.subrange(range.0 as int, range.1 as int) == trimmed(
            chars@.subrange(from as int, to as int),
        ),
{
    let mut a: usize = from;
    while a < to && is_space_char(chars[a])
        invariant
            from <= a <= to <= chars@.len(),
            trim_start(chars@.subrange(from as int, to as int)) == trim_start(
                chars@.subrange(a as int, to as int),
            ),
        decreases to - a,
    {
        proof {
            assert(chars@.subrange(a as int, to as int).drop_first() =~= chars@.subrange(
                a + 1,
                to as int,
            ));
        }
        a = a + 1;
    }
    let mut b: usize = to;
    while b > a && is_space_char(chars[b - 1])
        invariant
            a <= b <= to <= chars@.len(),
            trim_end(chars@.subrange(a as int, to as int)) == trim_end(
                chars@.subrange(a as int, b as int),
            ),
        decreases b - a,
    {
        proof {
            assert(chars@.subrange(a as int, b as int).drop_last() =~= chars@.subrange(
                a as int,
                b - 1,
            ));
        }
        b = b - 1;
    }
    (a, b)
}

/// The number that the text between `from` and `to` is the decimal form
/// of, if it is one.
pub fn parse_number(chars: &Vec<char>, from: usize, to: usize) -> (number: Option<usize>)
    requires
        from <= to <= chars@.len(),
    ensures
        number == parsed_number(chars@.subrange(from as int, to as int)),
{
    let ghost text = chars@.subrange(from as int, to as int);
    let mut start: usize = from;
    if start < to && chars[start] == '+' {
        start = start + 1;
    }
    let ghost digits = chars@.subrange(start as int, to as int);
    proof {
        if start > from {
            assert(text.drop_first() =~= digits);
        } else {
            assert(text =~= digits);
        }
    }
    if start == to {
        return None;
    }
    let mut value: usize = 0;
    let mut i: usize = start;
    proof {
        assert(digits.take(0) =~= Seq::<char>::empty());
    }
    while i < to
        invariant
            start <= i <= to <= chars@.len(),
            start < to,
            digits == chars@.subrange(start as int, to as int),
            digits == (if text.len() > 0 && text[0] == '+' {
                text.drop_first()
            } else {
                text
            }),
            text == chars@.subrange(from as int, to as int),
            all_digits(digits.take(i - start)),
            value == digits_value(digits.take(i - start)),
        decreases to - i,
    {
        let c: u32 = chars[i] as u32;
        if c < 0x30 || c > 0x39 {
            proof {
                assert(!is_digit(digits[i - start]));
            }
            return None;
        }
        let d: usize = (c - 0x30) as usize;
        proof {
            assert(digits.take(i - start + 1).drop_last() =~= digits.take(i - start));
            assert(digits.take(i - start + 1).last() == chars@[i as int]);
            assert forall|k: int| 0 <= k < i - start + 1 implies is_digit(
                #[trigger] digits.take(i - start + 1)[k],
            ) by {
                if k < i - start {
                    assert(digits.take(i - start)[k] == digits.take(i - start + 1)[k]);
                }
            }
        }
        if value > (usize::MAX - d) / 10 {
            proof {
                if all_digits(digits) {
                    lemma_digits_grow(digits, i - start + 1);
                }
            }
            return None;
        }
        value = value * 10 + d;
        i = i + 1;
    }
    proof {
        assert(digits.take(to - start) =~= digits);
    }
    Some(value)
}

/// Cuts the text between `from` and `to` at every `sep`, and returns where
/// each piece begins and ends.
pub fn split_range(chars: &Vec<char>, from: usize, to: usize, sep: char) -> (pieces: Vec<
    (usize, usize),
>)
    requires
        from <= to <= chars@.len(),
    ensures
        pieces@.len() >= 1,
        forall|k: int|
            0 <= k < pieces@.len() ==> from <= (#[trigger] pieces@[k]).0 <= pieces@[k].1 <= to,
        Seq::new(
            pieces@.len(),
            |k: int| chars@.subrange(pieces@[k].0 as int, pieces@[k].1 as int),
        ) == split_nonempty(chars@.subrange(from as int, to as int), sep),
{
    let ghost text = chars@.subrange(from as int, to as int);
    let mut pieces: Vec<(usize, usize)> = Vec::new();
    let mut start: usize = from;
    let mut i: usize = from;
    proof {
        assert(text.take(0).len() == 0);
        assert(chars@.subrange(from as int, from as int) =~= Seq::<char>::empty());
        assert(Seq::new(
            pieces@.len(),
            |k: int| chars@.subrange(pieces@[k].0 as int, pieces@[k].1 as int),
        ).push(chars@.subrange(start as int, i as int)) =~= seq![Seq::<char>::empty()]);
    }
    while i < to
        invariant
            from <= start <= i <= to <= chars@.len(),
            text == chars@.subrange(from as int, to as int),
            forall|k: int|
                0 <= k < pieces@.len() ==> from <= (#[trigger] pieces@[k]).0 <= pieces@[k].1 <= to,
            Seq::new(
                pieces@.len(),
                |k: int| chars@.subrange(pieces@[k].0 as int, pieces@[k].1 as int),
            ).push(chars@.subrange(start as int, i as int)) == split_nonempty(
                text.take(i - from),
                sep,
            ),
        decreases to - i,
    {
        let ghost done = Seq::new(
            pieces@.len(),
            |k: int| chars@.subrange(pieces@[k].0 as int, pieces@[k].1 as int),
        );
        let ghost running = chars@.subrange(start as int, i as int);
        proof {
            assert(text.take(i - from + 1).drop_last() =~= text.take(i - from));
            assert(text.take(i - from + 1).last() == chars@[i as int]);
            assert(done.push(running).drop_last() =~= done);
        }
        if chars[i] == sep {
            pieces.push((start, i));
            start = i + 1;
            proof {
                assert(Seq::new(
                    pieces@.len(),
                    |k: int| chars@.subrange(pieces@[k].0 as int, pieces@[k].1 as int),
                ) =~= done.push(running));
                assert(chars@.subrange(start as int, i + 1) =~= Seq::<char>::empty());
            }
        } else {
            proof {
                assert(chars@.subrange(start as int, i + 1) =~= running.push(chars@[i as int]));
            }
        }
        i = i + 1;
    }
    pieces.push((start, to));
    proof {
        assert(text.take(to - from) =~= text);
    }
    pieces
}

/// The lower-case form of a text, as the standard library gives it.
pub uninterp spec fn lowercase(text: Seq<char>) -> Seq<char>;

/// `str::to_lowercase` of the standard library: the lower-case form of the
/// text, which depends on the text alone. Nothing more is claimed of it.
#[verifier::external_body]
fn to_lowercase(text: &str) -> (lowered: String)
    ensures
        lowered@ == lowercase(text@),
{
    text.to_lowercase()
}

/// Whether the text between `from` and `to` is `word`.
pub fn is_word(chars: &Vec<char>, from: usize, to: usize, word: &str) -> (same: bool)
    requires
        from <= to <= chars@.len(),
    ensures
        same == (chars@.subrange(from as int, to as int) == word@),
{
    let n: usize = word.unicode_len();
    if to - from != n {
        return false;
    }
    let mut i: usize = 0;
    while i < n
        invariant
            i <= n,
            n == word@.len(),
            from + n == to,
            to <= chars@.len(),
            forall|k: int| 0 <= k < i ==> chars@[from + k] == word@[k],
        decreases n - i,
    {
        if chars[from + i] != word.get_char(i) {
            proof {
                assert(chars@.subrange(from as int, to as int)[i as int] != word@[i as int]);
            }
            return false;
        }
        i = i + 1;
    }
    proof {
        assert(chars@.subrange(from as int, to as int) =~= word@);
    }
    true
}

/// The file that a text names, once it is trimmed and in lower case: `1`
/// or `2` by number, `l` or `left` for the first, `r` or `right` for the
/// second.
pub open spec fn file_of(lowered: Seq<char>) -> Result<usize, ParseError> {
    match parsed_number(lowered) {
        Some(n) => if n != 1 && n != 2 {
            Err(ParseError::FileNumber)
        } else {
            Ok(n)
        },
        None => if lowered == "l"@ || lowered == "left"@ {
            Ok(1)
        } else if lowered == "r"@ || lowered == "right"@ {
            Ok(2)
        } else {
            Err(ParseError::FileName)
        },
    }
}

/// The file that a trimmed text in lower case names.
pub fn file_number(lowered: &str) -> (r: Result<usize, ParseError>)
    ensures
        r == file_of(lowered@),
{
    let chars = chars_of(lowered);
    let n: usize = chars.len();
    proof {
        assert(chars@.subrange(0, n as int) =~= lowered@);
    }
    match parse_number(&chars, 0, n) {
        Some(index) => {
            if index != 1 && index != 2 {
                Err(ParseError::FileNumber)
            } else {
                Ok(index)
            }
        },
        None => {
            if is_word(&chars, 0, n, "l") || is_word(&chars, 0, n, "left") {
                Ok(1)
            } else if is_word(&chars, 0, n, "r") || is_word(&chars, 0, n, "right") {
                Ok(2)
            } else {
                Err(ParseError::FileName)
            }
        },
    }
}

/// Parses the file of an output field: the text is trimmed and put in
/// lower case, and then names file 1 or file 2, by number or by word.
pub fn parse_output_field_file(arg: &str) -> (r: Result<usize, ParseError>)
    ensures
        r == file_of(lowercase(trimmed(arg@))),
{
    let chars = chars_of(arg);
    let n: usize = chars.len();
    proof {
        assert(chars@.subrange(0, n as int) =~= arg@);
    }
    let (a, b) = trim_range(&chars, 0, n);
    let lowered = to_lowercase(arg.substring_char(a, b));
    file_number(lowered.as_str())
}

/// The key field that one item of a key list stands for: the item is
/// trimmed; a number is a column, counted from 1; anything else is a name.
pub open spec fn key_field_of(item: Seq<char>) -> Result<KeySpec, ParseError> {
    let text = trimmed(item);
    match parsed_number(text) {
        Some(n) => if n < 1 {
            Err(ParseError::ColumnNumber)
        } else {
            Ok(KeySpec::Indexed((n - 1) as usize))
        },
        None => Ok(KeySpec::Named(text)),
    }
}

/// The key fields that the first `n` items stand for, or the error of the
/// first item that stands for none.
pub open spec fn key_fields_upto(items: Seq<Seq<char>>, n: int) -> Result<Seq<KeySpec>, ParseError>
    decreases n,
{
    if n <= 0 {
        Ok(Seq::empty())
    } else {
        match key_fields_upto(items, n - 1) {
            Err(e) => Err(e),
            Ok(before) => match key_field_of(items[n - 1]) {
                Err(e) => Err(e),
                Ok(field) => Ok(before.push(field)),
            },
        }
    }
}

/// The key that a text stands for: its items between commas, each a key
/// field.
pub open spec fn parsed_key_fields(arg: Seq<char>) -> Result<Seq<KeySpec>, ParseError> {
    key_fields_upto(split_nonempty(arg, ','), split_nonempty(arg, ',').len() as int)
}

/// Once an item fails, the whole key fails in the same way.
proof fn lemma_key_fields_fail(items: Seq<Seq<char>>, n: int)
    requires
        0 <= n <= items.len(),
        key_fields_upto(items, n) is Err,
    ensures
        key_fields_upto(items, items.len() as int) == key_fields_upto(items, n),
    decreases items.len() - n,
{
    if n < items.len() {
        lemma_key_fields_fail(items, n + 1);
    }
}

/// What a list of key fields holds.
pub open spec fn keys_view(fields: Seq<KeyField>) -> Seq<KeySpec> {
    Seq::new(fields.len(), |i: int| fields[i]@)
}

/// What the result of parsing a key holds.
pub open spec fn key_result_view(r: Result<Vec<KeyField>, ParseError>) -> Result<
    Seq<KeySpec>,
    ParseError,
> {
    match r {
        Ok(fields) => Ok(keys_view(fields@)),
        Err(e) => Err(e),
    }
}

/// Parses a key: fields with commas between them, each a column number,
/// counted from 1, or a column name. White space around a field does not
/// count. A number that does not fit the machine's range is taken for a
/// name.
pub fn parse_key_fields(arg: &str) -> (r: Result<Vec<KeyField>, ParseError>)
    ensures
        key_result_view(r) == parsed_key_fields(arg@),
{
    let chars = chars_of(arg);
    let n: usize = chars.len();
    proof {
        assert(chars@.subrange(0, n as int) =~= arg@);
    }
    let items = split_range(&chars, 0, n, ',');
    let ghost texts = split_nonempty(arg@, ',');
    let mut fields: Vec<KeyField> = Vec::new();
    let mut k: usize = 0;
    proof {
        assert(keys_view(fields@) =~= Seq::<KeySpec>::empty());
    }
    while k < items.len()
        invariant
            k <= items@.len(),
            chars@ == arg@,
            n == chars@.len(),
            texts == split_nonempty(arg@, ','),
            texts.len() == items@.len(),
            forall|m: int| 0 <= m < items@.len() ==> (#[trigger] items@[m]).0 <= items@[m].1 <= n,
            forall|m: int|
                0 <= m < items@.len() ==> chars@.subrange(
                    (#[trigger] items@[m]).0 as int,
                    items@[m].1 as int,
                ) == texts[m],
            key_fields_upto(texts, k as int) == Ok::<Seq<KeySpec>, ParseError>(keys_view(fields@)),
        decreases items@.len() - k,
    {
        let (from, to) = items[k];
        let (a, b) = trim_range(&chars, from, to);
        let ghost before = keys_view(fields@);
        match parse_number(&chars, a, b) {
            Some(number) => {
                if number < 1 {
                    proof {
                        lemma_key_fields_fail(texts, k + 1);
                    }
                    return Err(ParseError::ColumnNumber);
                }
                fields.push(KeyField::Indexed(number - 1));
                proof {
                    assert(keys_view(fields@) =~= before.push(
                        KeySpec::Indexed((number - 1) as usize),
                    ));
                }
            },
            None => {
                let name = arg.substring_char(a, b).to_owned();
                fields.push(KeyField::Named(name));
                proof {
                    assert(keys_view(fields@) =~= before.push(KeySpec::Named(name@)));
                }
            },
        }
        k = k + 1;
    }
    Ok(fields)
}

/// The output fields for the columns from `start` to `end` of a file, both
/// counted from 1.
pub open spec fn column_range(file: usize, start: usize, end: usize) -> Seq<FieldSpec> {
    Seq::new(
        (end - start + 1) as nat,
        |k: int| FieldSpec::FileField { file, field: (start - 1 + k) as usize },
    )
}

/// The output fields that the column part of an entry stands for: a column
/// number, a range of column numbers, or a column name.
pub open spec fn columns_of(file: usize, columns: Seq<char>) -> Result<Seq<FieldSpec>, ParseError> {
    match parsed_number(columns) {
        Some(n) => if n < 1 {
            Err(ParseError::ColumnNumber)
        } else {
            Ok(seq![FieldSpec::FileField { file, field: (n - 1) as usize }])
        },
        None => {
            let bounds = split_nonempty(columns, '-');
            if bounds.len() == 2 {
                match parsed_number(bounds[0]) {
                    None => Err(ParseError::RangeBound),
                    Some(start) => match parsed_number(bounds[1]) {
                        None => Err(ParseError::RangeBound),
                        Some(end) => if start < 1 || end < 1 {
                            Err(ParseError::ColumnNumber)
                        } else if start > end {
                            Err(ParseError::RangeOrder)
                        } else {
                            Ok(column_range(file, start, end))
                        },
                    },
                }
            } else {
                Ok(seq![FieldSpec::NamedFileField { file, field: columns }])
            }
        },
    }
}

/// The output fields that one entry of an output order stands for. The
/// entry is trimmed. `0` is the join key. Anything else is a file and its
/// columns with one dot between them.
pub open spec fn output_fields_of(item: Seq<char>) -> Result<Seq<FieldSpec>, ParseError> {
    let text = trimmed(item);
    if text == "0"@ {
        Ok(seq![FieldSpec::JoinField])
    } else {
        let parts = split_nonempty(text, '.');
        if parts.len() != 2 {
            Err(ParseError::FieldFormat)
        } else {
            match file_of(lowercase(trimmed(parts[0]))) {
                Err(e) => Err(e),
                Ok(file) => columns_of(file, parts[1]),
            }
        }
    }
}

/// The output fields that the first `n` entries stand for, or the error of
/// the first entry that stands for none.
pub open spec fn output_fields_upto(items: Seq<Seq<char>>, n: int) -> Result<
    Seq<FieldSpec>,
    ParseError,
>
    decreases n,
{
    if n <= 0 {
        Ok(Seq::empty())
    } else {
        match output_fields_upto(items, n - 1) {
            Err(e) => Err(e),
            Ok(before) => match output_fields_of(items[n - 1]) {
                Err(e) => Err(e),
                Ok(fields) => Ok(before + fields),
            },
        }
    }
}

/// The output order that a text stands for: `auto`, `gnudefault`, or the
/// fields of its entries between commas.
pub open spec fn parsed_output_fields(arg: Seq<char>) -> Result<OrderSpec, ParseError> {
    if trimmed(arg) == "auto"@ {
        Ok(OrderSpec::Auto)
    } else if trimmed(arg) == "gnudefault"@ {
        Ok(OrderSpec::GnuDefault)
    } else {
        match output_fields_upto(split_nonempty(arg, ','), split_nonempty(arg, ',').len() as int) {
            Err(e) => Err(e),
            Ok(fields) => Ok(OrderSpec::Explicit(fields)),
        }
    }
}

/// Once an entry fails, the whole order fails in the same way.
proof fn lemma_output_fields_fail(items: Seq<Seq<char>>, n: int)
    requires
        0 <= n <= items.len(),
        output_fields_upto(items, n) is Err,
    ensures
        output_fields_upto(items, items.len() as int) == output_fields_upto(items, n),
    decreases items.len() - n,
{
    if n < items.len() {
        lemma_output_fields_fail(items, n + 1);
    }
}

/// What a list of output fields holds.
pub open spec fn fields_view(fields: Seq<OutputField>) -> Seq<FieldSpec> {
    Seq::new(fields.len(), |i: int| fields[i]@)
}

/// What the result of parsing an output order holds.
pub open spec fn order_result_view(r: Result<OutputOrder, ParseError>) -> Result<
    OrderSpec,
    ParseError,
> {
    match r {
        Ok(order) => Ok(order@),
        Err(e) => Err(e),
    }
}

/// Appends the output fields that the column part of an entry stands for.
/// Nothing is appended where it stands for none.
fn push_columns(
    fields: &mut Vec<OutputField>,
    arg: &str,
    chars: &Vec<char>,
    file: usize,
    from: usize,
    to: usize,
) -> (r: Result<(), ParseError>)
    requires
        chars@ == arg@,
        from <= to <= chars@.len(),
    ensures
        match columns_of(file, chars@.subrange(from as int, to as int)) {
            Err(e) => r == Err::<(), ParseError>(e) && final(fields)@ == old(fields)@,
            Ok(more) => r is Ok && fields_view(final(fields)@) == fields_view(old(fields)@) + more,
        },
{
    let ghost before = fields_view(fields@);
    let ghost columns = chars@.subrange(from as int, to as int);
    match parse_number(chars, from, to) {
        Some(number) => {
            if number < 1 {
                return Err(ParseError::ColumnNumber);
            }
            fields.push(OutputField::FileField { file, field: number - 1 });
            proof {
                assert(fields_view(fields@) =~= before + seq![
                    FieldSpec::FileField { file, field: (number - 1) as usize },
                ]);
            }
            Ok(())
        },
        None => {
            let bounds = split_range(chars, from, to, '-');
            let ghost texts = split_nonempty(columns, '-');
            if bounds.len() == 2 {
                let (from0, to0) = bounds[0];
                let (from1, to1) = bounds[1];
                proof {
                    assert(chars@.subrange(from0 as int, to0 as int) == texts[0]);
                    assert(chars@.subrange(from1 as int, to1 as int) == texts[1]);
                }
                let start = match parse_number(chars, from0, to0) {
                    None => {
                        return Err(ParseError::RangeBound);
                    },
                    Some(start) => start,
                };
                let end = match parse_number(chars, from1, to1) {
                    None => {
                        return Err(ParseError::RangeBound);
                    },
                    Some(end) => end,
                };
                if start < 1 || end < 1 {
                    return Err(ParseError::ColumnNumber);
                }
                if start > end {
                    return Err(ParseError::RangeOrder);
                }
                let ghost range = column_range(file, start, end);
                let mut column: usize = start;
                proof {
                    assert(fields_view(fields@) =~= before + range.take(0));
                }
                while column < end
                    invariant
                        1 <= start <= column <= end,
                        range == column_range(file, start, end),
                        fields_view(fields@) == before + range.take(column - start),
                    decreases end - column,
                {
                    let ghost so_far = fields_view(fields@);
                    fields.push(OutputField::FileField { file, field: column - 1 });
                    proof {
                        let pushed = FieldSpec::FileField { file, field: (column - 1) as usize };
                        assert(fields_view(fields@) =~= so_far.push(pushed));
                        assert(range[column - start] == pushed);
                        assert(range.take(column - start + 1) =~= range.take(column - start).push(
                            pushed,
                        ));
                        assert(fields_view(fields@) =~= before + range.take(column - start + 1));
                    }
                    column = column + 1;
                }
                let ghost so_far = fields_view(fields@);
                fields.push(OutputField::FileField { file, field: end - 1 });
                proof {
                    let pushed = FieldSpec::FileField { file, field: (end - 1) as usize };
                    assert(fields_view(fields@) =~= so_far.push(pushed));
                    assert(range[end - start] == pushed);
                    assert(range =~= range.take(end - start).push(pushed));
                    assert(fields_view(fields@) =~= before + range);
                }
                Ok(())
            } else {
                let name = arg.substring_char(from, to).to_owned();
                fields.push(OutputField::NamedFileField { file, field: name });
                proof {
                    assert(fields_view(fields@) =~= before + seq![
                        FieldSpec::NamedFileField { file, field: columns },
                    ]);
                }
                Ok(())
            }
        },
    }
}

/// Appends the output fields that one entry of an output order stands for.
/// Nothing is appended where it stands for none.
fn push_output_fields(
    fields: &mut Vec<OutputField>,
    arg: &str,
    chars: &Vec<char>,
    from: usize,
    to: usize,
) -> (r: Result<(), ParseError>)
    requires
        chars@ == arg@,
        from <= to <= chars@.len(),
    ensures
        match output_fields_of(chars@.subrange(from as int, to as int)) {
            Err(e) => r == Err::<(), ParseError>(e) && final(fields)@ == old(fields)@,
            Ok(more) => r is Ok && fields_view(final(fields)@) == fields_view(old(fields)@) + more,
        },
{
    let ghost before = fields_view(fields@);
    let (a, b) = trim_range(chars, from, to);
    let ghost text = chars@.subrange(a as int, b as int);
    if is_word(chars, a, b, "0") {
        fields.push(OutputField::JoinField);
        proof {
            assert(fields_view(fields@) =~= before + seq![FieldSpec::JoinField]);
        }
        return Ok(());
    }
    let parts = split_range(chars, a, b, '.');
    let ghost texts = split_nonempty(text, '.');
    if parts.len() != 2 {
        return Err(ParseError::FieldFormat);
    }
    let (from0, to0) = parts[0];
    let (from1, to1) = parts[1];
    proof {
        assert(chars@.subrange(from0 as int, to0 as int) == texts[0]);
        assert(chars@.subrange(from1 as int, to1 as int) == texts[1]);
    }
    let file = match parse_output_field_file(arg.substring_char(from0, to0)) {
        Err(e) => {
            return Err(e);
        },
        Ok(file) => file,
    };
    push_columns(fields, arg, chars, file, from1, to1)
}

/// Parses an output order: `auto`, `gnudefault`, or entries with commas
/// between them. An entry is `0` for the join key, or a file and its
/// columns with a dot between them: the file as `1`, `2`, `l`, `left`, `r`
/// or `right`, in any case; the columns as a number, counted from 1, as a
/// range `a-b` of such numbers, or as a name.
pub fn parse_output_fields(arg: &str) -> (r: Result<OutputOrder, ParseError>)
    ensures
        order_result_view(r) == parsed_output_fields(arg@),
{
    let chars = chars_of(arg);
    let n: usize = chars.len();
    proof {
        assert(chars@.subrange(0, n as int) =~= arg@);
    }
    let (a, b) = trim_range(&chars, 0, n);
    if is_word(&chars, a, b, "auto") {
        return Ok(OutputOrder::Auto);
    }
    if is_word(&chars, a, b, "gnudefault") {
        return Ok(OutputOrder::GnuDefault);
    }
    let items = split_range(&chars, 0, n, ',');
    let ghost texts = split_nonempty(arg@, ',');
    let mut fields: Vec<OutputField> = Vec::new();
    let mut k: usize = 0;
    proof {
        assert(fields_view(fields@) =~= Seq::<FieldSpec>::empty());
    }
    while k < items.len()
        invariant
            k <= items@.len(),
            chars@ == arg@,
            n == chars@.len(),
            trimmed(arg@) != "auto"@,
            trimmed(arg@) != "gnudefault"@,
            texts == split_nonempty(arg@, ','),
            texts.len() == items@.len(),
            forall|m: int| 0 <= m < items@.len() ==> (#[trigger] items@[m]).0 <= items@[m].1 <= n,
            forall|m: int|
                0 <= m < items@.len() ==> chars@.subrange(
                    (#[trigger] items@[m]).0 as int,
                    items@[m].1 as int,
                ) == texts[m],
            output_fields_upto(texts, k as int) == Ok::<Seq<FieldSpec>, ParseError>(
                fields_view(fields@),
            ),
        decreases items@.len() - k,
    {
        let (from, to) = items[k];
        match push_output_fields(&mut fields, arg, &chars, from, to) {
            Err(e) => {
                proof {
                    lemma_output_fields_fail(texts, k + 1);
                }
                return Err(e);
            },
            Ok(()) => {},
        }
        k = k + 1;
    }
    let order = OutputOrder::Explicit(fields);
    proof {
        assert(order@ == OrderSpec::Explicit(fields_view(fields@)));
    }
    Ok(order)
}

} // verus!
