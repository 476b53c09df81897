//! The character-granularity tokenizer: it cuts a text into maximal runs of
//! word characters and single non-word characters, gated by a configurable
//! set of "non-word-boundary" characters (the characters that count as part
//! of a word).

use vstd::prelude::*;
use std::collections::HashSet;

verus! {

/// The default word characters: ASCII digits, letters and the underscore.
pub open spec fn default_non_word_boundaries() -> Set<char> {
    "0123456789abcdefghijklmnopqrstuvwxyzABCDEFGHIJKLMNOPQRSTUVWXYZ_"@.to_set()
}

/// Relies on `HashSet::insert` from std: afterwards the set holds `c` and
/// everything it held before (`char` has well-behaved `Eq` and `Hash`).
#[verifier::external_body]
pub(crate) fn boundary_set_insert(s: &mut HashSet<char>, c: char)
    ensures
        final(s)@ == old(s)@.insert(c),
{
    s.insert(c);
}

/// Relies on `HashSet::contains` from std: whether the set holds `c`.
#[verifier::external_body]
pub(crate) fn boundary_set_contains(s: &HashSet<char>, c: char) -> (r: bool)
    ensures
        r == s@.contains(c),
{
    s.contains(&c)
}

/// Relies on `HashSet::clone` from std: the copy holds the same elements.
#[verifier::external_body]
pub(crate) fn boundary_set_clone(s: &HashSet<char>) -> (r: HashSet<char>)
    ensures
        r@ == s@,
{
    s.clone()
}

/// Relies on `HashSet`'s `PartialEq` from std: two sets are equal exactly
/// when they hold the same elements.
#[verifier::external_body]
pub(crate) fn boundary_set_eq(a: &HashSet<char>, b: &HashSet<char>) -> (r: bool)
    ensures
        r == (a@ == b@),
{
    a == b
}

proof fn lemma_to_set_push(s: Seq<char>, c: char)
    ensures
        (s.push(c)).to_set() == s.to_set().insert(c),
{
    let p = s.push(c);
    assert(p[s.len() as int] == c);
    assert(p.contains(c));
    assert forall|x: char| #[trigger] p.to_set().contains(x) implies s.to_set().insert(
        c,
    ).contains(x) by {
        assert(p.contains(x));
        let i = choose|i: int| 0 <= i < p.len() && p[i] == x;
        if i < s.len() {
            assert(s[i] == x);
            assert(s.contains(x));
        } else {
            assert(x == c);
        }
    }
    assert forall|x: char| #[trigger] s.to_set().insert(c).contains(x) implies p.to_set().contains(
        x,
    ) by {
        if x == c {
            assert(p.contains(c));
        } else {
            assert(s.contains(x));
            let i = choose|i: int| 0 <= i < s.len() && s[i] == x;
            assert(p[i] == x);
            assert(p.contains(x));
        }
    }
    assert((s.push(c)).to_set() =~= s.to_set().insert(c));
}

/// The default word-character set, as a `HashSet`.
pub(crate) fn default_boundary_set() -> (r: HashSet<char>)
    ensures
        r@ == default_non_word_boundaries(),
{
    let lit = "0123456789abcdefghijklmnopqrstuvwxyzABCDEFGHIJKLMNOPQRSTUVWXYZ_";
    let n: usize = lit.unicode_len();
    let mut r: HashSet<char> = HashSet::new();
    let mut i: usize = 0;
    proof {
        assert(lit@.take(0) =~= Seq::<char>::empty());
        assert(Seq::<char>::empty().to_set() =~= Set::<char>::empty());
    }
    while i < n
        invariant
            n == lit@.len(),
            i <= n,
            r@ == lit@.take(i as int).to_set(),
        decreases n - i,
    {
        let c = lit.get_char(i);
        proof {
            lemma_to_set_push(lit@.take(i as int), lit@[i as int]);
            assert(lit@.take(i as int + 1) =~= lit@.take(i as int).push(lit@[i as int]));
        }
        boundary_set_insert(&mut r, c);
        i = i + 1;
    }
    proof {
        assert(lit@.take(n as int) =~= lit@);
    }
    r
}

/// One token of the character-granularity split: either a single character
/// that is not a word character, or a maximal run of word characters.
pub open spec fn is_token(text: Seq<char>, ws: Set<char>, lo: int, hi: int) -> bool {
    ||| (hi == lo + 1 && !ws.contains(text[lo]))
    ||| ((forall|j: int| lo <= j < hi ==> ws.contains(#[trigger] text[j])) && (lo == 0
        || !ws.contains(text[lo - 1])) && (hi == text.len() || !ws.contains(text[hi])))
}

/// The ranges `r` tile `text` from start to end, in order, and each range is
/// one token.
pub open spec fn is_token_split(text: Seq<char>, ws: Set<char>, r: Seq<(usize, usize)>) -> bool {
    &&& (r.len() == 0 <==> text.len() == 0)
    &&& (r.len() > 0 ==> r[0].0 == 0 && r.last().1 == text.len())
    &&& (forall|k: int| 0 <= k < r.len() ==> (#[trigger] r[k]).0 < r[k].1 <= text.len())
    &&& (forall|k: int| 0 <= k < r.len() - 1 ==> (#[trigger] r[k]).1 == r[k + 1].0)
    &&& (forall|k: int|
        0 <= k < r.len() ==> is_token(text, ws, (#[trigger] r[k]).0 as int, r[k].1 as int))
}

/// Split `text` into tokens, reporting each token as its character-offset
/// range: maximal runs of characters from `non_word_boundaries` stand as one
/// token each, and every other character stands alone.
pub fn split_text_idx(text: &str, non_word_boundaries: &HashSet<char>) -> (r: Vec<(usize, usize)>)
    ensures
        is_token_split(text@, non_word_boundaries@, r@),
{
    let n: usize = text.unicode_len();
    let mut r: Vec<(usize, usize)> = Vec::new();
    let mut start: usize = 0;
    let mut i: usize = 0;
    while i < n
        invariant
            n == text@.len(),
            start <= i <= n,
            r@.len() == 0 ==> start == 0,
            r@.len() > 0 ==> r@[0].0 == 0 && r@.last().1 == start,
            forall|k: int| 0 <= k < r@.len() ==> (#[trigger] r@[k]).0 < r@[k].1 <= start,
            forall|k: int| 0 <= k < r@.len() - 1 ==> (#[trigger] r@[k]).1 == r@[k + 1].0,
            forall|k: int|
                0 <= k < r@.len() ==> is_token(
                    text@,
                    non_word_boundaries@,
                    (#[trigger] r@[k]).0 as int,
                    r@[k].1 as int,
                ),
            forall|j: int| start <= j < i ==> non_word_boundaries@.contains(#[trigger] text@[j]),
            start == 0 || !non_word_boundaries@.contains(text@[start - 1]),
        decreases n - i,
    {
        let c = text.get_char(i);
        if boundary_set_contains(non_word_boundaries, c) {
            // a word character: the pending run grows
        } else {
            if start < i {
                r.push((start, i));
            }
            r.push((i, i + 1));
            start = i + 1;
        }
        i = i + 1;
    }
    if start < n {
        r.push((start, n));
    }
    r
}

} // verus!
