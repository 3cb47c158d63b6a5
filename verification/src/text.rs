//! ASCII case normalization for words and guesses.
//!
//! The whole engine stores and compares words in lower case, so the
//! normalization used everywhere is defined here once, as a spec function,
//! together with its executable counterparts.

use vstd::prelude::*;

verus! {

/// ASCII lowercasing of a single character: `'A'..='Z'` map to `'a'..='z'`,
/// every other character is unchanged.
pub open spec fn lower_char(c: char) -> char {
    if 'A' <= c && c <= 'Z' {
        (c as u8 + 32) as char
    } else {
        c
    }
}

/// Character-wise ASCII lowercasing of a character sequence.
pub open spec fn lower_seq(s: Seq<char>) -> Seq<char> {
    Seq::new(s.len(), |i: int| lower_char(s[i]))
}

/// A sequence is normalized when lowercasing it changes nothing.
pub open spec fn is_lower(s: Seq<char>) -> bool {
    lower_seq(s) == s
}

/// Executable ASCII lowercasing of one character, proved against `lower_char`.
pub fn lower_char_exec(c: char) -> (r: char)
    ensures
        r == lower_char(c),
{
    if 'A' <= c && c <= 'Z' {
        (c as u8 + 32) as char
    } else {
        c
    }
}

/// Relies on `str::to_ascii_lowercase`: every ASCII upper-case letter is
/// mapped to its lower-case equivalent and all other characters are unchanged.
#[verifier::external_body]
pub fn to_lower(s: &str) -> (r: String)
    ensures
        r@ == lower_seq(s@),
{
    s.to_ascii_lowercase()
}

/// Lowercasing is idempotent: a lowered sequence is normalized.
pub proof fn lemma_lower_idempotent(s: Seq<char>)
    ensures
        is_lower(lower_seq(s)),
{
    assert(lower_seq(lower_seq(s)) =~= lower_seq(s));
}

} // verus!

