//! What a join is configured with, and what can be wrong with it.

use vstd::prelude::*;
use vstd::utf8::encode_utf8;

verus! {

/// One field of a join key: by its position, counted from 0, or by the name
/// that the header line gives it.
#[derive(Debug, Clone, PartialEq, Eq)]
pub enum KeyField {
    Indexed(usize),
    Named(String),
}

pub type KeyFields = Vec<KeyField>;

/// One input of the join.
pub struct JoinFileConfig {
    /// Emit the rows of this input that find no partner.
    pub all: bool,
    /// The fields that make up the key, in order.
    pub key_fields: KeyFields,
    /// Where the lines come from. The library never opens it.
    pub filename: String,
    /// What stands in for a field of this input on a row that it is absent from.
    pub missing: String,
}

/// One entry of an output order.
#[derive(Debug, PartialEq, Eq)]
#[allow(inconsistent_fields)]
pub enum OutputField {
    /// The join key, one column for each of its fields.
    JoinField,
    /// A field of one input. `file` is 1 or 2, `field` counts from 0.
    FileField { file: usize, field: usize },
    /// A field of one input by the name that the header line gives it.
    NamedFileField { file: usize, field: String },
}

/// The columns of an output row.
#[derive(Debug, PartialEq, Eq)]
pub enum OutputOrder {
    /// The key, then the other fields of the first input, then of the second.
    GnuDefault,
    /// The same columns, laid out once from the first row of each input, so
    /// that every output row has as many columns as every other.
    Auto,
    /// The listed columns.
    Explicit(Vec<OutputField>),
}

/// The whole configuration of a join.
pub struct JoinConfig {
    /// The first input.
    pub left: JoinFileConfig,
    /// The second input.
    pub right: JoinFileConfig,
    /// The columns of every output row.
    pub output: OutputOrder,
    /// The delimiter of the inputs and of the output: a single byte.
    pub delim: String,
    /// Whether each input starts with a header line.
    pub has_header: bool,
}

/// The mathematical value of a `KeyField`.
pub enum KeySpec {
    Indexed(usize),
    Named(Seq<char>),
}

impl View for KeyField {
    type V = KeySpec;

    open spec fn view(&self) -> KeySpec {
        match self {
            KeyField::Indexed(index) => KeySpec::Indexed(*index),
            KeyField::Named(name) => KeySpec::Named(name@),
        }
    }
}

/// The mathematical value of an `OutputField`.
#[allow(inconsistent_fields)]
pub enum FieldSpec {
    JoinField,
    FileField { file: usize, field: usize },
    NamedFileField { file: usize, field: Seq<char> },
}

impl View for OutputField {
    type V = FieldSpec;

    open spec fn view(&self) -> FieldSpec {
        match self {
            OutputField::JoinField => FieldSpec::JoinField,
            OutputField::FileField { file, field } => FieldSpec::FileField {
                file: *file,
                field: *field,
            },
            OutputField::NamedFileField { file, field } => FieldSpec::NamedFileField {
                file: *file,
                field: field@,
            },
        }
    }
}

/// The mathematical value of an `OutputOrder`.
pub enum OrderSpec {
    GnuDefault,
    Auto,
    Explicit(Seq<FieldSpec>),
}

impl View for OutputOrder {
    type V = OrderSpec;

    open spec fn view(&self) -> OrderSpec {
        match self {
            OutputOrder::GnuDefault => OrderSpec::GnuDefault,
            OutputOrder::Auto => OrderSpec::Auto,
            OutputOrder::Explicit(fields) => OrderSpec::Explicit(
                Seq::new(fields@.len(), |i: int| fields@[i]@),
            ),
        }
    }
}

/// The mathematical value of a `JoinFileConfig`.
pub struct SideSpec {
    pub all: bool,
    pub key_fields: Seq<KeySpec>,
    pub filename: Seq<char>,
    pub missing: Seq<char>,
}

impl View for JoinFileConfig {
    type V = SideSpec;

    open spec fn view(&self) -> SideSpec {
        SideSpec {
            all: self.all,
            key_fields: Seq::new(self.key_fields@.len(), |i: int| self.key_fields@[i]@),
            filename: self.filename@,
            missing: self.missing@,
        }
    }
}

/// The mathematical value of a `JoinConfig`.
pub struct ConfigSpec {
    pub left: SideSpec,
    pub right: SideSpec,
    pub output: OrderSpec,
    pub delim: Seq<char>,
    pub has_header: bool,
}

impl View for JoinConfig {
    type V = ConfigSpec;

    open spec fn view(&self) -> ConfigSpec {
        ConfigSpec {
            left: self.left@,
            right: self.right@,
            output: self.output@,
            delim: self.delim@,
            has_header: self.has_header,
        }
    }
}

/// One of the two inputs.
#[derive(Debug, Clone, Copy, PartialEq, Eq, Structural)]
pub enum Side {
    Left,
    Right,
}

/// Why a join cannot run.
#[derive(Debug, Clone, Copy, PartialEq, Eq, Structural)]
pub enum JoinError {
    /// The delimiter is not a single byte.
    Delimiter,
    /// An input has an empty key.
    NoKeyFields(Side),
    /// The two keys have different numbers of fields.
    KeyArity,
    /// An explicit output field names a file other than 1 and 2.
    FileNumber,
    /// A field is given by name, and the inputs have no header line.
    NamedWithoutHeader,
    /// The header line that the configuration announces is not there.
    NoHeader(Side),
    /// A field is given by a name that the header line of its input lacks.
    UnknownColumn(Side),
    /// An input has no record at all.
    NoInput(Side),
}

/// The bytes of a text.
pub open spec fn bytes_of(text: Seq<char>) -> Seq<u8> {
    encode_utf8(text)
}

impl JoinError {
    /// The error in words.
    pub open spec fn text(self) -> Seq<char> {
        match self {
            JoinError::Delimiter => "delimiter must be a single character"@,
            JoinError::NoKeyFields(Side::Left) => "no key field given for the left side"@,
            JoinError::NoKeyFields(Side::Right) => "no key field given for the right side"@,
            JoinError::KeyArity => "left and right keys differ in their number of fields"@,
            JoinError::FileNumber => "output field file number must be either 1 or 2"@,
            JoinError::NamedWithoutHeader => "named fields require --header"@,
            JoinError::NoHeader(Side::Left) => "no header line on left side"@,
            JoinError::NoHeader(Side::Right) => "no header line on right side"@,
            JoinError::UnknownColumn(Side::Left) => "named column not found on left side"@,
            JoinError::UnknownColumn(Side::Right) => "named column not found on right side"@,
            JoinError::NoInput(Side::Left) => "No input found on left side"@,
            JoinError::NoInput(Side::Right) => "No input found on right side"@,
        }
    }

    /// The error in words.
    pub fn message(&self) -> (text: String)
        ensures
            text@ == self.text(),
    {
        match self {
            JoinError::Delimiter => "delimiter must be a single character".to_owned(),
            JoinError::NoKeyFields(Side::Left) => "no key field given for the left side".to_owned(),
            JoinError::NoKeyFields(Side::Right) => "no key field given for the right side".to_owned(),
            JoinError::KeyArity => "left and right keys differ in their number of fields".to_owned(),
            JoinError::FileNumber => "output field file number must be either 1 or 2".to_owned(),
            JoinError::NamedWithoutHeader => "named fields require --header".to_owned(),
            JoinError::NoHeader(Side::Left) => "no header line on left side".to_owned(),
            JoinError::NoHeader(Side::Right) => "no header line on right side".to_owned(),
            JoinError::UnknownColumn(Side::Left) => "named column not found on left side".to_owned(),
            JoinError::UnknownColumn(Side::Right) => "named column not found on right side".to_owned(),
            JoinError::NoInput(Side::Left) => "No input found on left side".to_owned(),
            JoinError::NoInput(Side::Right) => "No input found on right side".to_owned(),
        }
    }
}

} // verus!
