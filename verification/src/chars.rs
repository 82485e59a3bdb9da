//! The two character classes the scanner distinguishes besides the quote:
//! whitespace, which separates tokens, and word characters, which form
//! identifier and number tokens.

use vstd::prelude::*;

verus! {

/// The whitespace characters: the Unicode `White_Space` set, written out.
pub open spec fn is_space_char(c: char) -> bool {
    c == ' ' || c == '\t' || c == '\n' || c == '\r' || c == '\u{000b}' || c == '\u{000c}'
        || c == '\u{0085}' || c == '\u{00a0}' || c == '\u{1680}' || (c as u32 >= 0x2000 && c as u32
        <= 0x200a) || c == '\u{2028}' || c == '\u{2029}' || c == '\u{202f}' || c == '\u{205f}'
        || c == '\u{3000}'
}

/// Decides whitespace; agrees with `is_space_char` on every character.
pub fn space_char(c: char) -> (r: bool)
    ensures
        r == is_space_char(c),
{
    c == ' ' || c == '\t' || c == '\n' || c == '\r' || c == '\u{000b}' || c == '\u{000c}'
        || c == '\u{0085}' || c == '\u{00a0}' || c == '\u{1680}' || (c as u32 >= 0x2000 && c as u32
        <= 0x200a) || c == '\u{2028}' || c == '\u{2029}' || c == '\u{202f}' || c == '\u{205f}'
        || c == '\u{3000}'
}

/// What `char::is_alphanumeric` returns for a character: whether it is
/// Unicode alphabetic or numeric.  The result depends on the character
/// alone; its full definition is the Unicode character database, so it is
/// left unspecified here.
pub uninterp spec fn alnum(c: char) -> bool;

/// Relies on `char::is_alphanumeric`: true exactly for Unicode alphabetic
/// and numeric characters, a function of the character alone.
#[verifier::external_body]
pub(crate) fn alnum_char(c: char) -> (r: bool)
    ensures
        r == alnum(c),
{
    c.is_alphanumeric()
}

/// A word character: an underscore or an alphanumeric character.  No
/// alphanumeric character is whitespace, and excluding whitespace here
/// makes the two classes disjoint by definition, so the scanner's
/// behaviour does not depend on that fact about Unicode.
pub open spec fn is_word_char(c: char) -> bool {
    c == '_' || (alnum(c) && !is_space_char(c))
}

/// Decides word characters; agrees with `is_word_char` on every character.
pub fn word_char(c: char) -> (r: bool)
    ensures
        r == is_word_char(c),
{
    c == '_' || (alnum_char(c) && !space_char(c))
}

} // verus!
