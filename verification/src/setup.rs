//! From the values of the command line to the configuration of a join.

use vstd::prelude::*;
use crate::config::{bytes_of, ConfigSpec, JoinConfig, JoinFileConfig, SideSpec};
use crate::parse::{
    parse_key_fields, parse_output_fields, parsed_key_fields, parsed_output_fields, ParseError,
};

verus! {

/// The values that the command line gives, as they stand.
pub struct Args {
    /// The key of the left input.
    pub left_field: Option<String>,
    /// The key of the right input.
    pub right_field: Option<String>,
    /// The key of an input that is given none of its own.
    pub join_field: Option<String>,
    /// Emit the rows of the left input that find no partner.
    pub left_all: bool,
    /// Emit the rows of the right input that find no partner.
    pub right_all: bool,
    /// Emit the rows of both inputs that find no partner.
    pub outer: bool,
    /// Where the left input comes from.
    pub left_file: String,
    /// Where the right input comes from.
    pub right_file: String,
    /// What stands in for the fields of the left input where it is absent.
    pub left_missing: Option<String>,
    /// What stands in for the fields of the right input where it is absent.
    pub right_missing: Option<String>,
    /// The output order.
    pub output: Option<String>,
    /// The delimiter of the inputs and of the output.
    pub delim: Option<String>,
    /// Whether each input starts with a header line.
    pub header: bool,
}

/// What an optional text holds, or `default` where there is none.
pub open spec fn text_or(text: Option<String>, default: Seq<char>) -> Seq<char> {
    match text {
        Some(t) => t@,
        None => default,
    }
}

/// The configuration that the values of the command line stand for.
///
/// The delimiter is a tab unless one is given, and is a single byte. The
/// key of an input is its own, or the common one, or the first column. An
/// input emits its unmatched rows if it is told to or both are. The
/// placeholder of an input is empty unless one is given. The output order
/// is `auto` unless one is given.
pub open spec fn configured(args: Args) -> Result<ConfigSpec, ParseError> {
    let delim = text_or(args.delim, "\t"@);
    let common = text_or(args.join_field, "1"@);
    if bytes_of(delim).len() != 1 {
        Err(ParseError::Delimiter)
    } else {
        match parsed_key_fields(text_or(args.left_field, common)) {
            Err(e) => Err(e),
            Ok(left_keys) => match parsed_key_fields(text_or(args.right_field, common)) {
                Err(e) => Err(e),
                Ok(right_keys) => match parsed_output_fields(text_or(args.output, "auto"@)) {
                    Err(e) => Err(e),
                    Ok(output) => Ok(
                        ConfigSpec {
                            left: SideSpec {
                                all: args.left_all || args.outer,
                                key_fields: left_keys,
                                filename: args.left_file@,
                                missing: text_or(args.left_missing, ""@),
                            },
                            right: SideSpec {
                                all: args.right_all || args.outer,
                                key_fields: right_keys,
                                filename: args.right_file@,
                                missing: text_or(args.right_missing, ""@),
                            },
                            output,
                            delim,
                            has_header: args.header,
                        },
                    ),
                },
            },
        }
    }
}

/// What the result of a setup holds.
pub open spec fn config_result_view(r: Result<JoinConfig, ParseError>) -> Result<
    ConfigSpec,
    ParseError,
> {
    match r {
        Ok(config) => Ok(config@),
        Err(e) => Err(e),
    }
}

/// The text, or `default` where there is none.
fn or_default(text: Option<String>, default: &str) -> (out: String)
    ensures
        out@ == text_or(text, default@),
{
    match text {
        Some(t) => t,
        None => default.to_owned(),
    }
}

/// Makes the configuration of a join from the values of the command line.
pub fn setup(args: Args) -> (r: Result<JoinConfig, ParseError>)
    ensures
        config_result_view(r) == configured(args),
{
    let Args {
        left_field,
        right_field,
        join_field,
        left_all,
        right_all,
        outer,
        left_file,
        right_file,
        left_missing,
        right_missing,
        output,
        delim,
        header,
    } = args;
    let delim = or_default(delim, "\t");
    if delim.as_str().as_bytes().len() != 1 {
        return Err(ParseError::Delimiter);
    }
    let common = or_default(join_field, "1");
    let left_text = or_default(left_field, common.as_str());
    let left_keys = match parse_key_fields(left_text.as_str()) {
        Err(e) => {
            return Err(e);
        },
        Ok(keys) => keys,
    };
    let right_text = or_default(right_field, common.as_str());
    let right_keys = match parse_key_fields(right_text.as_str()) {
        Err(e) => {
            return Err(e);
        },
        Ok(keys) => keys,
    };
    let output_text = or_default(output, "auto");
    let output = match parse_output_fields(output_text.as_str()) {
        Err(e) => {
            return Err(e);
        },
        Ok(order) => order,
    };
    Ok(
        JoinConfig {
            left: JoinFileConfig {
                all: left_all || outer,
                key_fields: left_keys,
                filename: left_file,
                missing: or_default(left_missing, ""),
            },
            right: JoinFileConfig {
                all: right_all || outer,
                key_fields: right_keys,
                filename: right_file,
                missing: or_default(right_missing, ""),
            },
            output,
            delim,
            has_header: header,
        },
    )
}

} // verus!
