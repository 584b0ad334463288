//! Rewriting of the payment addresses in a chat line.
//!
//! An address is a word of 26 to 35 letters and digits that begins with `7`
//! and has a space or the line's border on each side. Every address in a
//! line is replaced by one fixed address.

use vstd::prelude::*;
use fancy_regex::Regex;

verus! {

/// The pattern that finds an address.
pub const ADDRESS_PATTERN: &'static str = "(?<= |^)7[a-zA-Z0-9]{25,34}(?= |$)";

/// The address that every address is replaced by.
pub const TARGET_BOGUSCOIN: &'static str = "7YWHMfk9JZe0LM0g1ZauHuiSxhI";

/// What `fancy_regex` makes of `text` when it replaces every match of the
/// regular expression `pattern` by `replacement`; none where `pattern` is no
/// regular expression, or the search gives up.
pub uninterp spec fn replaced_all(pattern: Seq<char>, text: Seq<char>, replacement: Seq<char>)
    -> Option<Seq<char>>;

/// `fancy_regex::Regex::new` and `Regex::try_replacen` with the limit 0:
/// compiles `pattern` and replaces all of its matches in `text`, one after
/// the other and none overlapping another, by `replacement`. The result is a
/// function of the three texts alone; nothing more is claimed of it.
#[verifier::external_body]
fn replace_all(pattern: &str, text: &str, replacement: &str) -> (replaced: Option<String>)
    ensures
        match replaced {
            Some(out) => replaced_all(pattern@, text@, replacement@) == Some(out@),
            None => replaced_all(pattern@, text@, replacement@) is None,
        },
{
    match Regex::new(pattern) {
        Ok(regex) => match regex.try_replacen(text, 0, replacement) {
            Ok(out) => Some(out.into_owned()),
            Err(_) => None,
        },
        Err(_) => None,
    }
}

/// The line to pass on, given the line that came and what the replacement
/// made of it: the rewritten line, or, where there is none, the line as it
/// came.
pub fn rewritten_or_unchanged(message: &str, replaced: Option<String>) -> (line: String)
    ensures
        line@ == match replaced {
            Some(out) => out@,
            None => message@,
        },
{
    match replaced {
        Some(out) => out,
        None => message.to_owned(),
    }
}

/// The line with each address in it replaced by `TARGET_BOGUSCOIN`.
pub fn hack_boguscoin_message(message: &str) -> (line: String)
    ensures
        line@ == match replaced_all(ADDRESS_PATTERN@, message@, TARGET_BOGUSCOIN@) {
            Some(out) => out,
            None => message@,
        },
{
    let replaced = replace_all(ADDRESS_PATTERN, message, TARGET_BOGUSCOIN);
    rewritten_or_unchanged(message, replaced)
}

} // verus!
