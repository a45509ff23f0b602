//! Which names may stand at the top level of an environment.

use vstd::prelude::*;

verus! {

/// The pattern that the top-level keys of an environment must match.
pub const IDENTIFIER_PATTERN: &'static str = "^[a-zA-Z_][a-zA-Z0-9_]*$";

/// A character that may start an identifier: an ASCII letter or `_`.
pub open spec fn ident_start(c: char) -> bool {
    ('a' <= c <= 'z') || ('A' <= c <= 'Z') || c == '_'
}

/// A character that may follow in an identifier: also an ASCII digit.
pub open spec fn ident_rest(c: char) -> bool {
    ident_start(c) || ('0' <= c <= '9')
}

/// The texts that `IDENTIFIER_PATTERN` matches as a whole: a letter or `_`,
/// then letters, digits and `_`.
pub open spec fn identifier_text(s: Seq<char>) -> bool {
    &&& s.len() > 0
    &&& ident_start(s[0])
    &&& forall|i: int| 1 <= i < s.len() ==> ident_rest(#[trigger] s[i])
}

/// What `regex::Regex::new(pattern)` and then `Regex::is_match(text)` give:
/// `None` where the pattern does not compile, else whether it matches.
pub uninterp spec fn regex_match(pattern: Seq<char>, text: Seq<char>) -> Option<bool>;

/// Compiles `pattern` with `regex::Regex::new` and, where it compiles, asks
/// `Regex::is_match` whether it matches `text`. The contract names the result;
/// of `IDENTIFIER_PATTERN` it states what the regex syntax documents: the
/// pattern compiles, `^` and `$` (without the multi-line flag) anchor at the
/// start and end of the text, and the classes are the ASCII ranges written.
/// Of other patterns it says nothing.
#[verifier::external_body]
fn regex_is_match(pattern: &str, text: &str) -> (r: Option<bool>)
    ensures
        r == regex_match(pattern@, text@),
        pattern@ == IDENTIFIER_PATTERN@ ==> r == Some(identifier_text(text@)),
{
    match regex::Regex::new(pattern) {
        Ok(re) => Some(re.is_match(text)),
        Err(_) => None,
    }
}

/// Whether a name is an identifier: `[a-zA-Z_][a-zA-Z0-9_]*`, as the regular
/// expression `IDENTIFIER_PATTERN` decides. The pattern always compiles, so
/// the result is always `Some`.
pub fn is_identifier(name: &str) -> (r: Option<bool>)
    ensures
        r == regex_match(IDENTIFIER_PATTERN@, name@),
        r == Some(identifier_text(name@)),
{
    regex_is_match(IDENTIFIER_PATTERN, name)
}

} // verus!
