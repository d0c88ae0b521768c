//! What the settings of both programs have in common.
use crate::text::parse_number;
use vstd::prelude::*;
use vstd::string::StringExecFns;

#[allow(unused_imports)]
use crate::text::{number_in, number_up_to, string_views};

verus! {

pub open spec fn invalid_value(label: Seq<char>, value: Seq<char>) -> Seq<char> {
    "invalid value for "@ + label + ": "@ + value
}

pub open spec fn missing_value(flag: Seq<char>, usage: Seq<char>) -> Seq<char> {
    "missing value for "@ + flag + "\n\n"@ + usage
}

pub open spec fn unknown_argument(flag: Seq<char>, usage: Seq<char>) -> Seq<char> {
    "unknown argument: "@ + flag + "\n\n"@ + usage
}

/// Among arguments that come in pairs of a flag and its value, `flag` is one of the flags.
pub open spec fn names_flag(args: Seq<Seq<char>>, flag: Seq<char>) -> bool {
    exists|i: int| 0 <= i < args.len() && i % 2 == 0 && #[trigger] args[i] == flag
}

/// The port that a setting gives, or what is wrong with it.
pub open spec fn u16_setting(label: Seq<char>, value: Seq<char>) -> Result<u16, Seq<char>> {
    match number_up_to(value, u16::MAX as nat) {
        Some(number) => Ok(number as u16),
        None => Err(invalid_value(label, value)),
    }
}

/// The count that a setting gives, or what is wrong with it.
pub open spec fn usize_setting(label: Seq<char>, value: Seq<char>) -> Result<usize, Seq<char>> {
    match number_up_to(value, usize::MAX as nat) {
        Some(number) => Ok(number as usize),
        None => Err(invalid_value(label, value)),
    }
}

pub fn invalid_value_text(label: &str, value: &str) -> (text: String)
    ensures
        text@ == invalid_value(label@, value@),
{
    let mut text = "invalid value for ".to_owned();
    text.append(label);
    text.append(": ");
    text.append(value);
    text
}

pub fn unknown_argument_text(flag: &str, usage: &str) -> (text: String)
    ensures
        text@ == unknown_argument(flag@, usage@),
{
    let mut text = "unknown argument: ".to_owned();
    text.append(flag);
    text.append("\n\n");
    text.append(usage);
    text
}

/// Reads a port.
pub fn parse_u16(label: &str, value: &str) -> (result: Result<u16, String>)
    ensures
        match result {
            Ok(number) => u16_setting(label@, value@) == Ok::<u16, Seq<char>>(number),
            Err(text) => u16_setting(label@, value@) == Err::<u16, Seq<char>>(text@),
        },
{
    match parse_number(value, u16::MAX as usize) {
        Some(number) => Ok(number as u16),
        None => Err(invalid_value_text(label, value)),
    }
}

/// Reads a count.
pub fn parse_usize(label: &str, value: &str) -> (result: Result<usize, String>)
    ensures
        match result {
            Ok(number) => usize_setting(label@, value@) == Ok::<usize, Seq<char>>(number),
            Err(text) => usize_setting(label@, value@) == Err::<usize, Seq<char>>(text@),
        },
{
    match parse_number(value, usize::MAX) {
        Some(number) => Ok(number),
        None => Err(invalid_value_text(label, value)),
    }
}

/// The value that follows the flag at `at`.
pub fn next_value(args: &Vec<String>, at: usize, usage: &str) -> (result: Result<String, String>)
    requires
        at < args@.len(),
    ensures
        match result {
            Ok(value) => at + 1 < args@.len() && value@ == string_views(args@)[at + 1],
            Err(text) => at + 1 == args@.len() && text@ == missing_value(args@[at as int]@, usage@),
        },
{
    if args.len() - at > 1 {
        Ok(args[at + 1].clone())
    } else {
        let mut text = "missing value for ".to_owned();
        text.append(args[at].as_str());
        text.append("\n\n");
        text.append(usage);
        Err(text)
    }
}

/// A flag that comes later in the arguments is one of their flags.
pub(crate) proof fn lemma_later_flag(args: Seq<Seq<char>>, flag: Seq<char>)
    requires
        args.len() >= 2,
        names_flag(args.skip(2), flag),
    ensures
        names_flag(args, flag),
{
    let rest = args.skip(2);
    let i = choose|i: int| 0 <= i < rest.len() && i % 2 == 0 && #[trigger] rest[i] == flag;
    assert(args[i + 2] == flag);
}

/// A port or a count is what its text stands for, and text that stands for no number, or for one
/// that is too large, is complained about by name.
pub proof fn law_settings_are_the_numbers_given(
    label: Seq<char>,
    value: Seq<char>,
    port: u16,
    count: usize,
)
    ensures
        u16_setting(label, value) == Ok::<u16, Seq<char>>(port) <==> number_in(value) == Some(
            port as nat,
        ),
        usize_setting(label, value) == Ok::<usize, Seq<char>>(count) <==> number_in(value) == Some(
            count as nat,
        ),
        u16_setting(label, value) is Err <==> number_in(value) is None || number_in(value)->0
            > 65535,
        usize_setting(label, value) is Err <==> number_in(value) is None || number_in(value)->0
            > usize::MAX,
        u16_setting(label, value) matches Err(text) ==> text == "invalid value for "@ + label
            + ": "@ + value,
        usize_setting(label, value) matches Err(text) ==> text == "invalid value for "@ + label
            + ": "@ + value,
{
}

} // verus!
