//! Character classes and case conversions of the standard library, as the rest of
//! the crate sees them, and the link between a text's characters and its bytes.

use vstd::prelude::*;
use vstd::utf8::{encode_scalar, encode_utf8};

verus! {

/// Whether the standard library classes `c` as a lowercase letter.
pub uninterp spec fn lowercase_letter(c: char) -> bool;

/// Whether the standard library classes `c` as an uppercase letter.
pub uninterp spec fn uppercase_letter(c: char) -> bool;

/// The text that the standard library's uppercase conversion makes of `s`.
pub uninterp spec fn uppercased(s: Seq<char>) -> Seq<char>;

/// The text that the standard library's lowercase conversion makes of `s`.
pub uninterp spec fn lowercased(s: Seq<char>) -> Seq<char>;

/// The characters that the standard library's uppercase mapping gives for `c`.
pub uninterp spec fn char_uppercased(c: char) -> Seq<char>;

/// `char::is_lowercase` decides the class named [`lowercase_letter`]; nothing more
/// is claimed of it than that it is a function of the character.
pub assume_specification[ char::is_lowercase ](c: char) -> (r: bool)
    ensures
        r == lowercase_letter(c),
;

/// `char::is_uppercase` decides the class named [`uppercase_letter`]; nothing more
/// is claimed of it than that it is a function of the character.
pub assume_specification[ char::is_uppercase ](c: char) -> (r: bool)
    ensures
        r == uppercase_letter(c),
;

/// `str::to_uppercase` returns the text named [`uppercased`], a function of the
/// characters of its argument alone.
pub assume_specification[ str::to_uppercase ](s: &str) -> (r: String)
    ensures
        r@ == uppercased(s@),
;

/// `str::to_lowercase` returns the text named [`lowercased`], a function of the
/// characters of its argument alone.
pub assume_specification[ str::to_lowercase ](s: &str) -> (r: String)
    ensures
        r@ == lowercased(s@),
;

/// `String::push` appends the character to the end of the string.
pub assume_specification[ String::push ](s: &mut String, c: char)
    ensures
        final(s)@ == old(s)@.push(c),
;

/// `char::to_uppercase` yields the characters named [`char_uppercased`]; they are
/// gathered here into a `String`, in the order in which they are yielded.
#[verifier::external_body]
pub(crate) fn upper_of_char(c: char) -> (r: String)
    ensures
        r@ == char_uppercased(c),
{
    c.to_uppercase().collect()
}

/// A text has at most as many characters as its UTF-8 encoding has bytes.
pub proof fn lemma_chars_fit_in_bytes(chars: Seq<char>)
    ensures
        chars.len() <= encode_utf8(chars).len(),
    decreases chars.len(),
{
    if chars.len() > 0 {
        lemma_chars_fit_in_bytes(chars.drop_first());
        assert(encode_scalar(chars[0] as u32).len() >= 1);
    }
}

} // verus!
