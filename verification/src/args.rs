//! The configuration of a run, resolved from the values that the user gave
//! on the command line.

use crate::message::fault_message;
use crate::parse::{parse, parse_spec};
use crate::pattern::{compile_pattern, compiled_pattern};
use crate::range::{below_max, cut_covers, CutRange, Ranges};
use crate::text::{chars_of, string_of};
use regex::Regex;
use vstd::prelude::*;

verus! {

/// What to cut, and how.
pub enum ModeArgs {
    /// Bytes at the given positions.
    Bytes(Ranges),
    /// Characters at the given positions.
    Characters(Ranges),
    /// Fields that a character delimits: the ranges, the delimiter, the
    /// string that joins the selected fields, and whether lines without a
    /// delimiter are dropped.
    FieldsChar(Ranges, char, String, bool),
    /// Fields that the matches of a regular expression delimit: the ranges,
    /// the delimiter, the string that joins the selected fields, and whether
    /// lines without a delimiter are dropped.
    FieldsRegex(Ranges, Regex, String, bool),
}

/// The resolved configuration of a run.
pub struct Args {
    pub mode_args: ModeArgs,
    pub line_delimiter: u8,
    pub filenames: Vec<String>,
}

/// The values given on the command line, before validation.
pub struct RawArgs {
    /// The value of `--bytes`.
    pub bytes: Option<String>,
    /// The value of `--characters`.
    pub characters: Option<String>,
    /// The value of `--fields`.
    pub fields: Option<String>,
    /// The value of `--delimiter`.
    pub char_delimiter: Option<String>,
    /// The value of `--regex-delimiter`.
    pub regex_delimiter: Option<String>,
    /// The value of `--output-delimiter`.
    pub output_delimiter: Option<String>,
    /// Whether `--complement` was given.
    pub complement: bool,
    /// Whether `--only-delimited` was given.
    pub suppress: bool,
    /// Whether `--zero-terminated` was given.
    pub zero_terminated: bool,
    /// The files to cut, `-` for the standard input.
    pub filenames: Vec<String>,
}

/// Whether `r` is what validating a list of ranges must give: a message if
/// the value is empty or no range list, and else the canonical list that
/// selects the positions that the written ranges cover, or exactly the
/// others if the complement is asked for.
pub open spec fn ranges_validated(
    r: Result<Ranges, String>,
    value: Seq<char>,
    complement: bool,
) -> bool {
    if value.len() == 0 {
        r is Err && r->Err_0@ == "List of ranges must be provided"@
    } else {
        match parse_spec(value) {
            Err(fault) => r is Err && r->Err_0@ == fault_message(fault),
            Ok(cut_ranges) => {
                &&& r is Ok
                &&& r->Ok_0.wf()
                &&& below_max(r->Ok_0@)
                &&& forall|i: int|
                    #![trigger r->Ok_0.contains(i)]
                    #![trigger cut_covers(cut_ranges, i)]
                    r->Ok_0.contains(i) <==> selects(cut_ranges, complement, i)
            },
        }
    }
}

/// Whether position `i` is selected by the written ranges, or by their
/// complement.
pub open spec fn selects(cut_ranges: Seq<CutRange>, complement: bool, i: int) -> bool {
    if complement {
        0 <= i && !cut_covers(cut_ranges, i)
    } else {
        cut_covers(cut_ranges, i)
    }
}

/// Whether `r` is what validating a delimiter must give: the character if
/// the value is a single one, and a message if it is longer.
pub open spec fn char_delimiter_validated(r: Result<char, String>, value: Seq<char>) -> bool {
    if value.len() == 1 {
        r == Ok::<char, String>(value[0])
    } else {
        r is Err && r->Err_0@ == "'--delimiter <delim>' must be a single character"@
    }
}

/// Whether `r` is what validating a regular expression must give: the
/// compiled expression if there is one, and a message if not.
pub open spec fn regex_delimiter_validated(r: Result<Regex, String>, compiled: Option<Regex>) -> bool {
    match compiled {
        Some(delimiter) => r == Ok::<Regex, String>(delimiter),
        None => r is Err && r->Err_0@
            == "A valid regular expression must be provided with '--regex-delimiter <regex>'"@,
    }
}

/// Validates a list of ranges, and takes its complement if asked to.
pub fn validate_ranges(value: &str, complement: bool) -> (r: Result<Ranges, String>)
    ensures
        ranges_validated(r, value@, complement),
{
    if value.is_empty() {
        return Err("List of ranges must be provided".to_owned());
    }
    match parse(value) {
        Ok(ranges) => {
            if complement {
                Ok(ranges.complement())
            } else {
                Ok(ranges)
            }
        },
        Err(e) => Err(e.message()),
    }
}

/// Validates a field delimiter: it must be a single character.
pub fn validate_char_delimiter(value: &str) -> (r: Result<char, String>)
    requires
        value@.len() > 0,
    ensures
        char_delimiter_validated(r, value@),
{
    let chars = chars_of(value);
    if chars.len() > 1 {
        return Err("'--delimiter <delim>' must be a single character".to_owned());
    }
    Ok(chars[0])
}

/// Turns the outcome of compiling a regular expression into the validated
/// delimiter or the message for the user.
pub fn regex_delimiter_from(compiled: Option<Regex>) -> (r: Result<Regex, String>)
    ensures
        regex_delimiter_validated(r, compiled),
{
    match compiled {
        Some(delimiter) => Ok(delimiter),
        None => Err(
            "A valid regular expression must be provided with '--regex-delimiter <regex>'".to_owned(),
        ),
    }
}

/// Validates a regular expression that is to delimit fields.
pub fn validate_regex_delimiter(value: &str) -> (r: Result<Regex, String>)
    ensures
        regex_delimiter_validated(r, compiled_pattern(value@)),
{
    regex_delimiter_from(compile_pattern(value))
}

/// The range list that decides the mode: that of `--bytes` if it was given,
/// else that of `--characters`, else that of `--fields`.
pub open spec fn mode_value(raw: RawArgs) -> Seq<char> {
    if raw.bytes is Some {
        raw.bytes->0@
    } else if raw.characters is Some {
        raw.characters->0@
    } else {
        raw.fields->0@
    }
}

/// The field delimiter as given, a tab by default.
pub open spec fn char_delimiter_value(raw: RawArgs) -> Seq<char> {
    match raw.char_delimiter {
        Some(d) => d@,
        None => "\t"@,
    }
}

/// The message for the first fault in the values given, if there is one:
/// the range list is validated first, then the delimiter of field mode.
pub open spec fn args_error(raw: RawArgs) -> Option<Seq<char>> {
    let value = mode_value(raw);
    if value.len() == 0 {
        Some("List of ranges must be provided"@)
    } else if parse_spec(value) is Err {
        Some(fault_message(parse_spec(value)->Err_0))
    } else if raw.bytes is Some || raw.characters is Some {
        None
    } else if raw.regex_delimiter is Some {
        if compiled_pattern(raw.regex_delimiter->0@) is None {
            Some("A valid regular expression must be provided with '--regex-delimiter <regex>'"@)
        } else {
            None
        }
    } else if char_delimiter_value(raw).len() != 1 {
        Some("'--delimiter <delim>' must be a single character"@)
    } else {
        None
    }
}

/// The ranges are those that the mode's range list denotes, complemented if
/// asked for.
pub open spec fn ranges_resolved(ranges: Ranges, raw: RawArgs) -> bool {
    ranges_validated(Ok(ranges), mode_value(raw), raw.complement)
}

/// Whether `args` is the configuration that the given values resolve to.
pub open spec fn args_resolved(raw: RawArgs, args: Args) -> bool {
    &&& args.line_delimiter == (if raw.zero_terminated {
        0u8
    } else {
        10u8
    })
    &&& args.filenames == raw.filenames
    &&& match args.mode_args {
        ModeArgs::Bytes(ranges) => raw.bytes is Some && ranges_resolved(ranges, raw),
        ModeArgs::Characters(ranges) => raw.bytes is None && raw.characters is Some
            && ranges_resolved(ranges, raw),
        ModeArgs::FieldsRegex(ranges, delimiter, joiner, suppress) => {
            &&& raw.bytes is None && raw.characters is None && raw.regex_delimiter is Some
            &&& ranges_resolved(ranges, raw)
            &&& Some(delimiter) == compiled_pattern(raw.regex_delimiter->0@)
            &&& joiner@ == match raw.output_delimiter {
                Some(given) => given@,
                None => "\t"@,
            }
            &&& suppress == raw.suppress
        },
        ModeArgs::FieldsChar(ranges, delimiter, joiner, suppress) => {
            &&& raw.bytes is None && raw.characters is None && raw.regex_delimiter is None
            &&& ranges_resolved(ranges, raw)
            &&& char_delimiter_value(raw) == seq![delimiter]
            &&& joiner@ == match raw.output_delimiter {
                Some(given) => given@,
                None => seq![delimiter],
            }
            &&& suppress == raw.suppress
        },
    }
}

/// Resolves the values given on the command line into the configuration of
/// the run, or into the message for the first fault in them.
pub fn parse_args(raw: RawArgs) -> (r: Result<Args, String>)
    requires
        raw.bytes is Some || raw.characters is Some || raw.fields is Some,
        raw.char_delimiter is Some ==> raw.char_delimiter->0@.len() > 0,
    ensures
        match args_error(raw) {
            Some(message) => r is Err && r->Err_0@ == message,
            None => r is Ok && args_resolved(raw, r->Ok_0),
        },
{
    let ghost given = raw;
    let RawArgs {
        bytes,
        characters,
        fields,
        char_delimiter,
        regex_delimiter,
        output_delimiter,
        complement,
        suppress,
        zero_terminated,
        filenames,
    } = raw;
    let line_delimiter: u8 = if zero_terminated {
        0
    } else {
        10
    };
    let mode_args = if let Some(value) = bytes {
        match validate_ranges(value.as_str(), complement) {
            Ok(ranges) => ModeArgs::Bytes(ranges),
            Err(message) => {
                return Err(message);
            },
        }
    } else if let Some(value) = characters {
        match validate_ranges(value.as_str(), complement) {
            Ok(ranges) => ModeArgs::Characters(ranges),
            Err(message) => {
                return Err(message);
            },
        }
    } else {
        let value = fields.unwrap();
        let ranges = match validate_ranges(value.as_str(), complement) {
            Ok(ranges) => ranges,
            Err(message) => {
                return Err(message);
            },
        };
        match regex_delimiter {
            Some(pattern) => {
                let delimiter = match validate_regex_delimiter(pattern.as_str()) {
                    Ok(delimiter) => delimiter,
                    Err(message) => {
                        return Err(message);
                    },
                };
                let joiner = match output_delimiter {
                    Some(joiner) => joiner,
                    None => "\t".to_owned(),
                };
                ModeArgs::FieldsRegex(ranges, delimiter, joiner, suppress)
            },
            None => {
                proof {
                    reveal_strlit("\t");
                }
                let validated = match char_delimiter {
                    Some(given_delimiter) => validate_char_delimiter(given_delimiter.as_str()),
                    None => validate_char_delimiter("\t"),
                };
                let delimiter = match validated {
                    Ok(delimiter) => delimiter,
                    Err(message) => {
                        return Err(message);
                    },
                };
                let joiner = match output_delimiter {
                    Some(joiner) => joiner,
                    None => {
                        let single = vec![delimiter];
                        assert(single@ =~= seq![delimiter]);
                        string_of(single.as_slice())
                    },
                };
                assert(char_delimiter_value(given) =~= seq![delimiter]);
                ModeArgs::FieldsChar(ranges, delimiter, joiner, suppress)
            },
        }
    };
    Ok(Args { mode_args, line_delimiter, filenames })
}

} // verus!
