//! Locale-independent case folding, one character at a time.
//!
//! Folding character by character keeps the folded text exactly as long as
//! the original, so offsets into the folded text are also offsets into the
//! original text.

use vstd::prelude::*;

verus! {

/// The case-folded form of a single character: the first character that
/// `char::to_lowercase` yields for it.
pub uninterp spec fn lower_char_of(c: char) -> char;

/// A string folded character by character.
pub open spec fn fold_chars(s: Seq<char>) -> Seq<char> {
    s.map_values(|c: char| lower_char_of(c))
}

/// Relies on `char::to_lowercase` from std: the mapping depends on the
/// character alone, and the iterator always yields at least one character,
/// so `unwrap` cannot panic.
#[verifier::external_body]
pub(crate) fn lower_char(c: char) -> (r: char)
    ensures
        r == lower_char_of(c),
{
    c.to_lowercase().next().unwrap()
}

/// Relies on `String::push` from std: it appends the given character to the
/// end of the string.
#[verifier::external_body]
pub(crate) fn push_char(s: &mut String, c: char)
    ensures
        final(s)@ == old(s)@.push(c),
{
    s.push(c);
}

/// Case-fold a string character by character.
pub(crate) fn fold_str(s: &str) -> (r: String)
    ensures
        r@ == fold_chars(s@),
{
    let n: usize = s.unicode_len();
    let mut r = String::new();
    let mut i: usize = 0;
    while i < n
        invariant
            n == s@.len(),
            i <= n,
            r@.len() == i,
            forall|j: int| 0 <= j < i ==> r@[j] == lower_char_of(s@[j]),
        decreases n - i,
    {
        let c = lower_char(s.get_char(i));
        push_char(&mut r, c);
        i = i + 1;
    }
    proof {
        assert(r@ =~= fold_chars(s@));
    }
    r
}

} // verus!
