//! Session tokens: the opaque strings that clients present.

use vstd::prelude::*;

verus! {

/// Whether `c` is one of `0`-`9` or `a`-`f`.
pub open spec fn is_lower_hex(c: char) -> bool {
    ('0' <= c && c <= '9') || ('a' <= c && c <= 'f')
}

/// Whether position `i` of a token holds a hyphen.
pub open spec fn is_hyphen_position(i: int) -> bool {
    i == 8 || i == 13 || i == 18 || i == 23
}

/// The shape of every token that the broker issues: thirty-six characters,
/// hyphens after the eighth, twelfth, sixteenth and twentieth digit, lower-case
/// hexadecimal digits everywhere else, and the version digit `4`.
pub open spec fn is_token_text(s: Seq<char>) -> bool {
    &&& s.len() == 36
    &&& forall|i: int|
        0 <= i < 36 ==> if is_hyphen_position(i) {
            (#[trigger] s[i]) == '-'
        } else {
            is_lower_hex(s[i])
        }
    &&& s[14] == '4'
}

/// Draws a new random token.
///
/// Trusted: this calls `uuid::Uuid::new_v4` and renders the result with its
/// `Display` impl. Which token comes back is left open, since it is random;
/// the contract only claims the hyphenated lower-case layout that `Display`
/// always writes and the version digit that `new_v4` always sets. Nothing is
/// claimed about uniqueness: the engine checks that itself. The call aborts
/// if the operating system cannot supply random bytes.
#[verifier::external_body]
pub(crate) fn fresh_token() -> (t: String)
    ensures
        is_token_text(t@),
{
    uuid::Uuid::new_v4().to_string()
}

} // verus!
