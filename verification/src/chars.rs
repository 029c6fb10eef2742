//! Character-level helpers: case folding and code-point extraction.
//!
//! Comparison between query and candidate characters is case-insensitive
//! per Unicode code point: two characters are considered equal when their
//! full lowercase mappings agree.

use vstd::prelude::*;
use vstd::std_specs::iter::IteratorSpec;

verus! {

/// The full Unicode lowercase mapping of a character, as the sequence of
/// characters that `char::to_lowercase` yields for it.
pub uninterp spec fn lower_chars(c: char) -> Seq<char>;

/// Whether a character is uppercase in the Unicode sense.
pub uninterp spec fn uppercase(c: char) -> bool;

/// Whether a character is lowercase in the Unicode sense.
pub uninterp spec fn lowercase(c: char) -> bool;

/// Two characters are equal under case folding when their lowercase
/// mappings agree.
pub open spec fn fold_eq(a: char, b: char) -> bool {
    lower_chars(a) == lower_chars(b)
}

/// Relies on `char::to_lowercase`: the lowercase mapping of a character is a
/// function of that character alone, and `Iterator::eq` compares the two
/// mappings element by element.
#[verifier::external_body]
pub fn fold_eq_chars(a: char, b: char) -> (r: bool)
    ensures
        r == (lower_chars(a) == lower_chars(b)),
{
    a.to_lowercase().eq(b.to_lowercase())
}

/// Relies on `char::is_uppercase`: uppercaseness is a function of the
/// character alone.
#[verifier::external_body]
pub fn char_is_uppercase(c: char) -> (r: bool)
    ensures
        r == uppercase(c),
{
    c.is_uppercase()
}

/// Relies on `char::is_lowercase`: lowercaseness is a function of the
/// character alone.
#[verifier::external_body]
pub fn char_is_lowercase(c: char) -> (r: bool)
    ensures
        r == lowercase(c),
{
    c.is_lowercase()
}

/// Collect the code points of a string slice into a vector.
pub fn chars_of(s: &str) -> (r: Vec<char>)
    ensures
        r@ == s@,
{
    broadcast use vstd::string::axiom_spec_iter;
    broadcast use vstd::string::next_postcondition;

    let mut out: Vec<char> = Vec::new();
    let mut it = s.chars();
    loop
        invariant_except_break
            out@ + it.remaining() == s@,
        ensures
            out@ == s@,
        decreases s@.len() - out@.len(),
    {
        match it.next() {
            Some(c) => {
                out.push(c);
                proof {
                    assert(out@ + it.remaining() =~= s@);
                }
            },
            None => {
                proof {
                    assert(out@ =~= s@);
                }
                break;
            },
        }
    }
    out
}

} // verus!
