//! What a run is configured with: the command-line options and the page size.

use vstd::prelude::*;

verus! {

/// The page size that is used when none is configured.
pub const GH_TEAMS_PER_PAGE: u8 = 100;

/// The options of a run.
#[derive(Debug)]
pub struct CmdArgs {
    /// Whether diagnostics are wanted.
    pub debug: bool,
    /// The organization whose teams are listed.
    pub organization: String,
}

impl CmdArgs {
    /// The options of a run, from the values that the command line gave.
    pub fn opts(debug: bool, organization: String) -> (args: CmdArgs)
        ensures
            args.debug == debug,
            args.organization == organization,
    {
        CmdArgs { debug, organization }
    }
}

/// Whether `c` is one of the ten decimal digits.
pub open spec fn is_digit(c: char) -> bool {
    '0' <= c <= '9'
}

/// The number that a string of decimal digits denotes.
pub open spec fn decimal_value(digits: Seq<char>) -> nat
    decreases digits.len(),
{
    if digits.len() == 0 {
        0
    } else {
        (10 * decimal_value(digits.drop_last()) + (digits.last() as nat - '0' as nat)) as nat
    }
}

/// Whether `text` holds decimal digits only.
pub open spec fn all_digits(text: Seq<char>) -> bool {
    forall|i: int| 0 <= i < text.len() ==> is_digit(#[trigger] text[i])
}

/// What follows the plus sign, where `text` starts with one; else `text`.
pub open spec fn unsigned_part(text: Seq<char>) -> Seq<char> {
    if text.len() > 0 && text[0] == '+' {
        text.skip(1)
    } else {
        text
    }
}

/// The byte that `text` denotes in decimal notation: an optional plus sign, then
/// one or more digits, and a value of at most 255.
pub open spec fn decimal_u8(text: Seq<char>) -> Option<u8> {
    let digits = unsigned_part(text);
    if digits.len() > 0 && all_digits(digits) && decimal_value(digits) <= 255 {
        Some(decimal_value(digits) as u8)
    } else {
        None
    }
}

/// `str::parse::<u8>`: the byte that the text denotes in decimal notation, or
/// nothing where the text is empty, holds anything but an optional plus sign
/// followed by digits, or denotes a number above 255.
#[verifier::external_body]
fn parse_u8(text: &str) -> (parsed: Option<u8>)
    ensures
        parsed == decimal_u8(text@),
{
    match text.parse::<u8>() {
        Ok(number) => Some(number),
        Err(_) => None,
    }
}

/// The page size for a setting: the number that the setting denotes where it
/// is a positive byte, and the default otherwise.
pub open spec fn page_size(setting: Option<Seq<char>>) -> u8 {
    match setting {
        Some(text) => match decimal_u8(text) {
            Some(number) => if number > 0 {
                number
            } else {
                GH_TEAMS_PER_PAGE
            },
            None => GH_TEAMS_PER_PAGE,
        },
        None => GH_TEAMS_PER_PAGE,
    }
}

/// The number of teams to ask for in one page, given the configured setting,
/// if there is one.
pub fn pagination_limit(setting: Option<&str>) -> (limit: u8)
    ensures
        limit == page_size(
            match setting {
                Some(text) => Some(text@),
                None => None,
            },
        ),
        limit >= 1,
{
    match setting {
        Some(text) => match parse_u8(text) {
            Some(number) => if number > 0 {
                number
            } else {
                GH_TEAMS_PER_PAGE
            },
            None => GH_TEAMS_PER_PAGE,
        },
        None => GH_TEAMS_PER_PAGE,
    }
}

} // verus!
