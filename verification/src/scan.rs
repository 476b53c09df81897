//! The single-pass scan, specified over an abstract keyword dictionary.
//!
//! A dictionary maps token sequences (the segments of a normalized keyword)
//! to clean replacement words.  [`spec_scan`] is the meaning of one scan over
//! a tokenized text: from each position, take the longest keyword that starts
//! there, emit it, and resume right after it; otherwise move one token ahead.

use vstd::prelude::*;
use vstd::seq_lib::lemma_flatten_concat;

verus! {

/// One match reported by the scan: the matched key (a run of whole tokens),
/// its clean word, and the token positions `begin <= end` it covers.
pub struct ScanMatch {
    pub key: Seq<Seq<char>>,
    pub clean: Seq<char>,
    pub begin: int,
    pub end: int,
}

/// A keyword of the dictionary `d` matches at token position `pos` of `words`
/// with length `n`.
pub open spec fn match_at(
    d: Map<Seq<Seq<char>>, Seq<char>>,
    words: Seq<Seq<char>>,
    pos: int,
    n: int,
) -> bool {
    &&& 1 <= n
    &&& pos + n <= words.len()
    &&& d.contains_key(words.subrange(pos, pos + n))
}

/// `n` is the length of the longest keyword match at `pos`.
pub open spec fn longest_at(
    d: Map<Seq<Seq<char>>, Seq<char>>,
    words: Seq<Seq<char>>,
    pos: int,
    n: int,
) -> bool {
    &&& match_at(d, words, pos, n)
    &&& forall|m: int| match_at(d, words, pos, m) ==> m <= n
}

/// The matches the scan reports from position `pos` on: greedy longest match,
/// resuming immediately after each match.
pub open spec fn spec_scan(
    d: Map<Seq<Seq<char>>, Seq<char>>,
    words: Seq<Seq<char>>,
    pos: int,
) -> Seq<ScanMatch>
    decreases words.len() - pos,
{
    if pos < 0 || pos >= words.len() {
        Seq::empty()
    } else if exists|n: int| longest_at(d, words, pos, n) {
        let n = choose|n: int| longest_at(d, words, pos, n);
        seq![
            ScanMatch {
                key: words.subrange(pos, pos + n),
                clean: d[words.subrange(pos, pos + n)],
                begin: pos,
                end: pos + n,
            },
        ] + spec_scan(d, words, pos + n)
    } else {
        spec_scan(d, words, pos + 1)
    }
}

/// The number of characters in the first `i` tokens of `words`.
pub open spec fn chars_before(words: Seq<Seq<char>>, i: int) -> int {
    words.subrange(0, i).flatten().len() as int
}

/// The text rebuilt by the replacer from position `from` on: for each match,
/// the stretch of `text` up to the match, then the clean word in its place.
pub open spec fn replaced_text(
    text: Seq<char>,
    words: Seq<Seq<char>>,
    ms: Seq<ScanMatch>,
    from: int,
) -> Seq<char>
    decreases ms.len(),
{
    if ms.len() == 0 {
        text.subrange(from, text.len() as int)
    } else {
        text.subrange(from, chars_before(words, ms[0].begin)) + ms[0].clean + replaced_text(
            text,
            words,
            ms.drop_first(),
            chars_before(words, ms[0].end),
        )
    }
}

pub proof fn lemma_chars_before_zero(words: Seq<Seq<char>>)
    ensures
        chars_before(words, 0) == 0,
{
    assert(words.subrange(0, 0) =~= Seq::<Seq<char>>::empty());
}

pub proof fn lemma_chars_before_step(words: Seq<Seq<char>>, i: int)
    requires
        0 <= i < words.len(),
    ensures
        chars_before(words, i + 1) == chars_before(words, i) + words[i].len(),
{
    assert(words.subrange(0, i + 1) =~= words.subrange(0, i).push(words[i]));
    words.subrange(0, i).lemma_flatten_push(words[i]);
}

pub proof fn lemma_chars_before_mono(words: Seq<Seq<char>>, i: int, j: int)
    requires
        0 <= i <= j <= words.len(),
    ensures
        chars_before(words, i) <= chars_before(words, j),
{
    assert(words.subrange(0, j) =~= words.subrange(0, i) + words.subrange(i, j));
    lemma_flatten_concat(words.subrange(0, i), words.subrange(i, j));
}

pub proof fn lemma_chars_before_total(words: Seq<Seq<char>>)
    ensures
        chars_before(words, words.len() as int) == words.flatten().len(),
{
    assert(words.subrange(0, words.len() as int) =~= words);
}

/// The characters that a run of whole tokens covers are exactly the
/// flattening of those tokens.
pub proof fn lemma_flatten_slice(words: Seq<Seq<char>>, i: int, j: int)
    requires
        0 <= i <= j <= words.len(),
    ensures
        chars_before(words, j) == chars_before(words, i) + words.subrange(i, j).flatten().len(),
        words.flatten().subrange(chars_before(words, i), chars_before(words, j)) == words.subrange(
            i,
            j,
        ).flatten(),
{
    assert(words.subrange(0, j) =~= words.subrange(0, i) + words.subrange(i, j));
    lemma_flatten_concat(words.subrange(0, i), words.subrange(i, j));
    assert(words =~= words.subrange(0, j) + words.subrange(j, words.len() as int));
    lemma_flatten_concat(words.subrange(0, j), words.subrange(j, words.len() as int));
    assert(words.flatten().subrange(chars_before(words, i), chars_before(words, j))
        =~= words.subrange(i, j).flatten());
}

/// Every reported match starts no earlier than `pos`, covers at least one
/// token, stays within the text, and is a keyword of the dictionary mapped to
/// its clean word; and the matches come in order, without overlap.
pub proof fn lemma_scan_ordered(d: Map<Seq<Seq<char>>, Seq<char>>, words: Seq<Seq<char>>, pos: int)
    ensures
        forall|i: int|
            0 <= i < spec_scan(d, words, pos).len() ==> {
                let m = #[trigger] spec_scan(d, words, pos)[i];
                &&& pos <= m.begin && m.begin + 1 <= m.end <= words.len()
                &&& m.key == words.subrange(m.begin, m.end)
                &&& d.contains_key(m.key)
                &&& d[m.key] == m.clean
            },
        forall|i: int, j: int|
            0 <= i < j < spec_scan(d, words, pos).len() ==> (#[trigger] spec_scan(
                d,
                words,
                pos,
            )[i]).end <= (#[trigger] spec_scan(d, words, pos)[j]).begin,
    decreases words.len() - pos,
{
    let ms = spec_scan(d, words, pos);
    if pos < 0 || pos >= words.len() {
    } else if exists|n: int| longest_at(d, words, pos, n) {
        let n = choose|n: int| longest_at(d, words, pos, n);
        let rest = spec_scan(d, words, pos + n);
        lemma_scan_ordered(d, words, pos + n);
        assert(match_at(d, words, pos, n));
        assert forall|i: int| 0 <= i < ms.len() implies {
            let m = #[trigger] ms[i];
            &&& pos <= m.begin && m.begin + 1 <= m.end <= words.len()
            &&& m.key == words.subrange(m.begin, m.end)
            &&& d.contains_key(m.key)
            &&& d[m.key] == m.clean
        } by {
            if i > 0 {
                assert(ms[i] == rest[i - 1]);
                assert(rest[i - 1] == spec_scan(d, words, pos + n)[i - 1]);
            }
        }
        assert forall|i: int, j: int| 0 <= i < j < ms.len() implies (#[trigger] ms[i]).end
            <= (#[trigger] ms[j]).begin by {
            assert(ms[j] == rest[j - 1]);
            assert(rest[j - 1] == spec_scan(d, words, pos + n)[j - 1]);
            if i > 0 {
                assert(ms[i] == rest[i - 1]);
                assert(rest[i - 1] == spec_scan(d, words, pos + n)[i - 1]);
            }
        }
    } else {
        lemma_scan_ordered(d, words, pos + 1);
        assert forall|i: int| 0 <= i < ms.len() implies {
            let m = #[trigger] ms[i];
            &&& pos <= m.begin && m.begin + 1 <= m.end <= words.len()
            &&& m.key == words.subrange(m.begin, m.end)
            &&& d.contains_key(m.key)
            &&& d[m.key] == m.clean
        } by {
            assert(ms[i] == spec_scan(d, words, pos + 1)[i]);
        }
        assert forall|i: int, j: int| 0 <= i < j < ms.len() implies (#[trigger] ms[i]).end
            <= (#[trigger] ms[j]).begin by {
            assert(ms[i] == spec_scan(d, words, pos + 1)[i]);
            assert(ms[j] == spec_scan(d, words, pos + 1)[j]);
        }
    }
}

/// Wherever some keyword matches, there is a longest such match.
pub proof fn lemma_match_has_longest(
    d: Map<Seq<Seq<char>>, Seq<char>>,
    words: Seq<Seq<char>>,
    pos: int,
    k: int,
)
    requires
        match_at(d, words, pos, k),
    ensures
        exists|n: int| longest_at(d, words, pos, n),
    decreases words.len() - pos - k,
{
    if exists|m: int| match_at(d, words, pos, m) && m > k {
        let m = choose|m: int| match_at(d, words, pos, m) && m > k;
        lemma_match_has_longest(d, words, pos, m);
    } else {
        assert(longest_at(d, words, pos, k));
    }
}

/// Longest-match precedence: every reported match is the longest keyword
/// match at its start position.
pub proof fn lemma_scan_longest(d: Map<Seq<Seq<char>>, Seq<char>>, words: Seq<Seq<char>>, pos: int)
    ensures
        forall|i: int|
            0 <= i < spec_scan(d, words, pos).len() ==> {
                let m = #[trigger] spec_scan(d, words, pos)[i];
                longest_at(d, words, m.begin, m.end - m.begin)
            },
    decreases words.len() - pos,
{
    let ms = spec_scan(d, words, pos);
    if pos < 0 || pos >= words.len() {
    } else if exists|n: int| longest_at(d, words, pos, n) {
        let n = choose|n: int| longest_at(d, words, pos, n);
        let rest = spec_scan(d, words, pos + n);
        lemma_scan_longest(d, words, pos + n);
        assert forall|i: int| 0 <= i < ms.len() implies {
            let m = #[trigger] ms[i];
            longest_at(d, words, m.begin, m.end - m.begin)
        } by {
            if i > 0 {
                assert(ms[i] == rest[i - 1]);
                assert(rest[i - 1] == spec_scan(d, words, pos + n)[i - 1]);
            }
        }
    } else {
        lemma_scan_longest(d, words, pos + 1);
        assert forall|i: int| 0 <= i < ms.len() implies {
            let m = #[trigger] ms[i];
            longest_at(d, words, m.begin, m.end - m.begin)
        } by {
            assert(ms[i] == spec_scan(d, words, pos + 1)[i]);
        }
    }
}

/// Completeness of the scan: every position from `pos` on at which some
/// keyword matches is covered by a reported match.  In particular a keyword
/// that starts exactly where the previous match ended is found, and a
/// position that no match covers has no keyword match at all.
pub proof fn lemma_scan_gaps(d: Map<Seq<Seq<char>>, Seq<char>>, words: Seq<Seq<char>>, pos: int)
    requires
        0 <= pos,
    ensures
        forall|q: int, nn: int|
            pos <= q && #[trigger] match_at(d, words, q, nn) ==> exists|i: int|
                0 <= i < spec_scan(d, words, pos).len() && (#[trigger] spec_scan(
                    d,
                    words,
                    pos,
                )[i]).begin <= q < spec_scan(d, words, pos)[i].end,
    decreases words.len() - pos,
{
    let ms = spec_scan(d, words, pos);
    if pos >= words.len() {
    } else if exists|n: int| longest_at(d, words, pos, n) {
        let n = choose|n: int| longest_at(d, words, pos, n);
        let rest = spec_scan(d, words, pos + n);
        lemma_scan_gaps(d, words, pos + n);
        assert forall|q: int, nn: int|
            pos <= q && #[trigger] match_at(d, words, q, nn) implies exists|i: int|
            0 <= i < ms.len() && (#[trigger] ms[i]).begin <= q < ms[i].end by {
            assert(match_at(d, words, pos, n));
            if q < pos + n {
                assert(ms[0].begin == pos && ms[0].end == pos + n);
                assert(0 <= 0 < ms.len() && ms[0].begin <= q < ms[0].end);
            } else {
                let i = choose|i: int|
                    0 <= i < rest.len() && (#[trigger] rest[i]).begin <= q < rest[i].end;
                assert(ms[i + 1] == rest[i]);
                assert(0 <= i + 1 < ms.len() && ms[i + 1].begin <= q < ms[i + 1].end);
            }
        }
    } else {
        lemma_scan_gaps(d, words, pos + 1);
        assert forall|q: int, nn: int|
            pos <= q && #[trigger] match_at(d, words, q, nn) implies exists|i: int|
            0 <= i < ms.len() && (#[trigger] ms[i]).begin <= q < ms[i].end by {
            if q == pos {
                lemma_match_has_longest(d, words, pos, nn);
                assert(false);
            } else {
                let i = choose|i: int|
                    0 <= i < spec_scan(d, words, pos + 1).len() && (#[trigger] spec_scan(
                        d,
                        words,
                        pos + 1,
                    )[i]).begin <= q < spec_scan(d, words, pos + 1)[i].end;
                assert(ms[i] == spec_scan(d, words, pos + 1)[i]);
                assert(0 <= i < ms.len() && ms[i].begin <= q < ms[i].end);
            }
        }
    }
}

/// Spans are sound: each reported span lies inside the text, the spans come
/// strictly increasing and non-overlapping, and the text under each span
/// reads exactly the matched keyword.
pub proof fn lemma_scan_spans(d: Map<Seq<Seq<char>>, Seq<char>>, words: Seq<Seq<char>>, pos: int)
    requires
        forall|i: int| 0 <= i < words.len() ==> (#[trigger] words[i]).len() > 0,
    ensures
        forall|i: int|
            0 <= i < spec_scan(d, words, pos).len() ==> {
                let m = #[trigger] spec_scan(d, words, pos)[i];
                &&& 0 <= chars_before(words, m.begin) < chars_before(words, m.end)
                    <= words.flatten().len()
                &&& words.flatten().subrange(
                    chars_before(words, m.begin),
                    chars_before(words, m.end),
                ) == m.key.flatten()
                &&& d.contains_key(m.key)
                &&& d[m.key] == m.clean
            },
        forall|i: int, j: int|
            0 <= i < j < spec_scan(d, words, pos).len() ==> chars_before(
                words,
                (#[trigger] spec_scan(d, words, pos)[i]).end,
            ) <= chars_before(words, (#[trigger] spec_scan(d, words, pos)[j]).begin),
{
    let ms = spec_scan(d, words, pos);
    lemma_scan_ordered(d, words, pos);
    lemma_chars_before_total(words);
    assert forall|i: int| 0 <= i < ms.len() implies {
        let m = #[trigger] ms[i];
        &&& 0 <= chars_before(words, m.begin) < chars_before(words, m.end)
            <= words.flatten().len()
        &&& words.flatten().subrange(chars_before(words, m.begin), chars_before(words, m.end))
            == m.key.flatten()
        &&& d.contains_key(m.key)
        &&& d[m.key] == m.clean
    } by {
        let m = ms[i];
        lemma_chars_before_mono(words, 0, m.begin);
        lemma_chars_before_step(words, m.begin);
        lemma_chars_before_mono(words, m.begin + 1, m.end);
        lemma_chars_before_mono(words, m.end, words.len() as int);
        lemma_flatten_slice(words, m.begin, m.end);
    }
    assert forall|i: int, j: int| 0 <= i < j < ms.len() implies chars_before(
        words,
        (#[trigger] ms[i]).end,
    ) <= chars_before(words, (#[trigger] ms[j]).begin) by {
        lemma_chars_before_mono(words, ms[i].end, ms[j].begin);
    }
}

/// If the scan finds no match, replacement returns the text unchanged.
pub proof fn lemma_replace_identity(text: Seq<char>, words: Seq<Seq<char>>, ms: Seq<ScanMatch>)
    requires
        ms.len() == 0,
    ensures
        replaced_text(text, words, ms, 0) == text,
{
    assert(text.subrange(0, text.len() as int) =~= text);
}

/// If the matches cover the text back to back from its very first character
/// to its last, the replacement is exactly the clean words, concatenated: in
/// particular its length is the total clean-word length.
pub proof fn lemma_replace_total(text: Seq<char>, words: Seq<Seq<char>>, ms: Seq<ScanMatch>)
    requires
        text == words.flatten(),
        ms.len() > 0,
        ms[0].begin == 0,
        ms.last().end == words.len(),
        forall|i: int|
            0 <= i < ms.len() ==> 0 <= (#[trigger] ms[i]).begin <= ms[i].end <= words.len(),
        forall|i: int| 0 <= i < ms.len() - 1 ==> (#[trigger] ms[i]).end == ms[i + 1].begin,
    ensures
        replaced_text(text, words, ms, 0) == ms.map_values(|m: ScanMatch| m.clean).flatten(),
{
    lemma_chars_before_zero(words);
    lemma_replace_flush(text, words, ms);
}

proof fn lemma_replace_flush(text: Seq<char>, words: Seq<Seq<char>>, ms: Seq<ScanMatch>)
    requires
        text == words.flatten(),
        forall|i: int|
            0 <= i < ms.len() ==> 0 <= (#[trigger] ms[i]).begin <= ms[i].end <= words.len(),
        forall|i: int| 0 <= i < ms.len() - 1 ==> (#[trigger] ms[i]).end == ms[i + 1].begin,
        ms.len() > 0 ==> ms.last().end == words.len(),
    ensures
        replaced_text(
            text,
            words,
            ms,
            if ms.len() == 0 {
                text.len() as int
            } else {
                chars_before(words, ms[0].begin)
            },
        ) == ms.map_values(|m: ScanMatch| m.clean).flatten(),
    decreases ms.len(),
{
    let cleans = ms.map_values(|m: ScanMatch| m.clean);
    if ms.len() == 0 {
        assert(text.subrange(text.len() as int, text.len() as int) =~= Seq::<char>::empty());
        assert(cleans.flatten() =~= Seq::<char>::empty());
    } else {
        let from = chars_before(words, ms[0].begin);
        let rest = ms.drop_first();
        lemma_chars_before_total(words);
        lemma_chars_before_mono(words, 0, ms[0].begin);
        lemma_chars_before_mono(words, ms[0].begin, words.len() as int);
        assert(text.subrange(from, from) =~= Seq::<char>::empty());
        assert forall|i: int|
            0 <= i < rest.len() implies 0 <= (#[trigger] rest[i]).begin <= rest[i].end
            <= words.len() by {
            assert(rest[i] == ms[i + 1]);
        }
        assert forall|i: int| 0 <= i < rest.len() - 1 implies (#[trigger] rest[i]).end == rest[i
            + 1].begin by {
            assert(rest[i] == ms[i + 1]);
            assert(rest[i + 1] == ms[i + 2]);
        }
        lemma_replace_flush(text, words, rest);
        lemma_chars_before_total(words);
        if rest.len() == 0 {
            assert(ms[0].end == words.len());
            assert(chars_before(words, ms[0].end) == text.len());
        } else {
            assert(rest[0] == ms[1]);
            assert(ms[0].end == ms[1].begin);
        }
        assert(cleans.drop_first() =~= rest.map_values(|m: ScanMatch| m.clean));
        assert(cleans.flatten() == cleans[0] + cleans.drop_first().flatten());
        assert(replaced_text(text, words, ms, from) =~= cleans.flatten());
    }
}

} // verus!
