//! The keyword processor: the public face of the library.

use vstd::prelude::*;
use std::collections::HashSet;
use crate::casefold::{fold_chars, fold_str};
use crate::scan::{
    chars_before, lemma_chars_before_mono, lemma_chars_before_step, lemma_chars_before_total,
    lemma_chars_before_zero, lemma_scan_ordered, longest_at, match_at, replaced_text, spec_scan,
    ScanMatch,
};
use crate::segment::{split_words, word_segments_of};
use crate::splitter::{
    boundary_set_clone, boundary_set_eq, default_boundary_set, default_non_word_boundaries,
};
use crate::trie::{dict_of, insert_at, longest_match_from, node_eq, node_like, wf_node, Node};

verus! {

/// The text a keyword or a query is matched as: itself when case-sensitive,
/// its case-folded form otherwise.
pub open spec fn normalized_text(case_sensitive: bool, text: Seq<char>) -> Seq<char> {
    if case_sensitive {
        text
    } else {
        fold_chars(text)
    }
}

/// The token sequence a keyword or a query normalizes to: the unicode word
/// segments of its normalized text.
pub open spec fn text_segments(case_sensitive: bool, text: Seq<char>) -> Seq<Seq<char>> {
    word_segments_of(normalized_text(case_sensitive, text))
}

/// A dictionary of keywords, each with a clean replacement form, held in a
/// trie and matched against texts in one left-to-right pass.
#[derive(Debug)]
pub struct KeywordProcessor {
    trie: Node,
    len: usize,
    non_word_boundaries: HashSet<char>,
    case_sensitive: bool,
}

impl KeywordProcessor {
    /// The dictionary this processor holds: each normalized keyword, as its
    /// token sequence, mapped to its clean word.
    pub closed spec fn dict(self) -> Map<Seq<Seq<char>>, Seq<char>> {
        dict_of(self.trie)
    }

    /// Whether keywords and texts are matched without case folding.
    pub closed spec fn spec_case_sensitive(self) -> bool {
        self.case_sensitive
    }

    /// The configured word characters (used by the character tokenizer).
    pub closed spec fn boundary_chars(self) -> Set<char> {
        self.non_word_boundaries@
    }

    /// The internal invariant: a well-formed trie whose stored count is the
    /// number of keywords in the dictionary.
    pub closed spec fn wf(self) -> bool {
        &&& wf_node(self.trie)
        &&& self.dict().dom().finite()
        &&& self.len == self.dict().dom().len()
    }

    /// An empty processor with the default word-character set.
    pub fn new(case_sensitive: bool) -> (r: Self)
        ensures
            r.wf(),
            r.dict() == Map::<Seq<Seq<char>>, Seq<char>>::empty(),
            r.spec_case_sensitive() == case_sensitive,
            r.boundary_chars() == default_non_word_boundaries(),
    {
        let r = KeywordProcessor {
            trie: Node::empty(),
            len: 0,
            non_word_boundaries: default_boundary_set(),
            case_sensitive,
        };
        proof {
            assert(r.dict().dom() =~= Set::<Seq<Seq<char>>>::empty());
        }
        r
    }

    /// An empty processor with a caller-chosen word-character set.
    pub fn with_non_word_boundaries(chars: HashSet<char>, case_sensitive: bool) -> (r: Self)
        ensures
            r.wf(),
            r.dict() == Map::<Seq<Seq<char>>, Seq<char>>::empty(),
            r.spec_case_sensitive() == case_sensitive,
            r.boundary_chars() == chars@,
    {
        let r = KeywordProcessor {
            trie: Node::empty(),
            len: 0,
            non_word_boundaries: chars,
            case_sensitive,
        };
        proof {
            assert(r.dict().dom() =~= Set::<Seq<Seq<char>>>::empty());
        }
        r
    }

    /// A copy of the configured word-character set.
    pub fn non_word_boundaries(&self) -> (r: HashSet<char>)
        ensures
            r@ == self.boundary_chars(),
    {
        boundary_set_clone(&self.non_word_boundaries)
    }

    /// Whether this processor matches case-sensitively.
    pub fn case_sensitive(&self) -> (r: bool)
        ensures
            r == self.spec_case_sensitive(),
    {
        self.case_sensitive
    }

    /// The number of distinct normalized keywords inserted so far.
    pub fn len(&self) -> (r: usize)
        requires
            self.wf(),
        ensures
            r == self.dict().dom().len(),
    {
        self.len
    }

    /// Whether no keyword has been inserted yet.
    pub fn is_empty(&self) -> (r: bool)
        requires
            self.wf(),
        ensures
            r == (self.dict().dom().len() == 0),
    {
        self.len == 0
    }

    /// Insert the keyword `word`, to be replaced by `clean_word`.  Re-inserting
    /// a keyword that normalizes to an already-present one only overwrites its
    /// clean word; otherwise the keyword count grows by one.
    pub fn add_keyword(&mut self, word: &str, clean_word: &str)
        requires
            old(self).wf(),
            old(self).dict().dom().len() < usize::MAX,
        ensures
            final(self).wf(),
            final(self).dict() == old(self).dict().insert(
                text_segments(old(self).spec_case_sensitive(), word@),
                clean_word@,
            ),
            final(self).spec_case_sensitive() == old(self).spec_case_sensitive(),
            final(self).boundary_chars() == old(self).boundary_chars(),
            text_segments(old(self).spec_case_sensitive(), word@).flatten() == normalized_text(
                old(self).spec_case_sensitive(),
                word@,
            ),
    {
        let ghost key = text_segments(self.case_sensitive, word@);
        let normalized: String = if self.case_sensitive {
            word.to_owned()
        } else {
            fold_str(word)
        };
        let words: Vec<String> = split_words(normalized.as_str());
        proof {
            assert(words.deep_view().skip(0) =~= words.deep_view());
            assert(words.deep_view() == key);
        }
        let added = insert_at(&mut self.trie, &words, 0, clean_word);
        if added {
            self.len = self.len + 1;
        }
    }

    /// Scan an already-tokenized text: every match of the scan, as its clean
    /// word and the character-offset span it covers.
    pub fn scan_segments(&self, words: &Vec<String>) -> (r: Vec<(String, usize, usize)>)
        requires
            self.wf(),
            chars_before(words.deep_view(), words.deep_view().len() as int) <= usize::MAX,
        ensures
            ({
                let ms = spec_scan(self.dict(), words.deep_view(), 0);
                &&& r@.len() == ms.len()
                &&& forall|i: int|
                    0 <= i < ms.len() ==> {
                        &&& (#[trigger] r@[i]).0@ == ms[i].clean
                        &&& r@[i].1 == chars_before(words.deep_view(), ms[i].begin)
                        &&& r@[i].2 == chars_before(words.deep_view(), ms[i].end)
                    }
            }),
    {
        let ghost d = self.dict();
        let ghost wv = words.deep_view();
        let n = words.len();
        let mut r: Vec<(String, usize, usize)> = Vec::new();
        let mut pos: usize = 0;
        let mut off: usize = 0;
        let ghost mut emitted = Seq::<ScanMatch>::empty();
        proof {
            lemma_chars_before_zero(wv);
            assert(wv.len() == words@.len());
            assert(emitted + spec_scan(d, wv, 0) =~= spec_scan(d, wv, 0));
        }
        while pos < n
            invariant
                self.wf(),
                d == self.dict(),
                wv == words.deep_view(),
                n == wv.len(),
                n == words@.len(),
                pos <= n,
                off == chars_before(wv, pos as int),
                chars_before(wv, wv.len() as int) <= usize::MAX,
                spec_scan(d, wv, 0) == emitted + spec_scan(d, wv, pos as int),
                r@.len() == emitted.len(),
                forall|i: int|
                    0 <= i < emitted.len() ==> {
                        &&& (#[trigger] r@[i]).0@ == emitted[i].clean
                        &&& r@[i].1 == chars_before(wv, emitted[i].begin)
                        &&& r@[i].2 == chars_before(wv, emitted[i].end)
                    },
            decreases n - pos,
        {
            match longest_match_from(&self.trie, words, pos) {
                Some(found) => {
                    let clean = found.0;
                    let len = found.1;
                    let mut off2 = off;
                    let mut j: usize = 0;
                    while j < len
                        invariant
                            wv == words.deep_view(),
                            n == wv.len(),
                            n == words@.len(),
                            pos + len <= n,
                            j <= len,
                            off2 == chars_before(wv, pos + j),
                            chars_before(wv, wv.len() as int) <= usize::MAX,
                        decreases len - j,
                    {
                        proof {
                            lemma_chars_before_step(wv, pos + j);
                            lemma_chars_before_mono(wv, pos + j + 1, wv.len() as int);
                            assert(wv[pos + j] == words@[pos + j]@);
                        }
                        let w: &String = &words[pos + j];
                        off2 = off2 + w.as_str().unicode_len();
                        j = j + 1;
                    }
                    proof {
                        let k = wv.subrange(pos as int, pos + len);
                        let nn = choose|nn: int| longest_at(d, wv, pos as int, nn);
                        assert(longest_at(d, wv, pos as int, len as int));
                        assert(exists|m: int| longest_at(d, wv, pos as int, m));
                        assert(match_at(d, wv, pos as int, nn));
                        assert(nn == len);
                        let m = ScanMatch { key: k, clean: d[k], begin: pos as int, end: pos + len };
                        assert(spec_scan(d, wv, pos as int) == seq![m] + spec_scan(
                            d,
                            wv,
                            pos + len,
                        ));
                        assert(clean@ == m.clean);
                        emitted = emitted.push(m);
                        assert(spec_scan(d, wv, 0) == emitted + spec_scan(d, wv, pos + len)) by {
                            assert(emitted + spec_scan(d, wv, pos + len) =~= emitted.drop_last() + (
                            seq![m] + spec_scan(d, wv, pos + len)));
                        }
                    }
                    r.push((clean, off, off2));
                    pos = pos + len;
                    off = off2;
                },
                None => {
                    proof {
                        assert(!exists|m: int| longest_at(d, wv, pos as int, m)) by {
                            if exists|m: int| longest_at(d, wv, pos as int, m) {
                                let m = choose|m: int| longest_at(d, wv, pos as int, m);
                                assert(match_at(d, wv, pos as int, m));
                            }
                        }
                        assert(spec_scan(d, wv, pos as int) == spec_scan(d, wv, pos + 1));
                        lemma_chars_before_step(wv, pos as int);
                        lemma_chars_before_mono(wv, pos + 1, wv.len() as int);
                        assert(wv[pos as int] == words@[pos as int]@);
                    }
                    let w: &String = &words[pos];
                    off = off + w.as_str().unicode_len();
                    pos = pos + 1;
                },
            }
        }
        proof {
            assert(spec_scan(d, wv, pos as int) =~= Seq::<ScanMatch>::empty());
            assert(emitted =~= spec_scan(d, wv, 0));
        }
        r
    }

    /// Every keyword found in `text`, in scan order, as its clean word and
    /// the character-offset span `[start, end)` of the match in the text.
    pub fn extract_keywords_with_span(&self, text: &str) -> (r: Vec<(String, usize, usize)>)
        requires
            self.wf(),
        ensures
            ({
                let wv = text_segments(self.spec_case_sensitive(), text@);
                let ms = spec_scan(self.dict(), wv, 0);
                &&& wv.flatten() == normalized_text(self.spec_case_sensitive(), text@)
                &&& forall|i: int| 0 <= i < wv.len() ==> (#[trigger] wv[i]).len() > 0
                &&& r@.len() == ms.len()
                &&& forall|i: int|
                    0 <= i < ms.len() ==> {
                        &&& (#[trigger] r@[i]).0@ == ms[i].clean
                        &&& r@[i].1 == chars_before(wv, ms[i].begin)
                        &&& r@[i].2 == chars_before(wv, ms[i].end)
                    }
            }),
    {
        let normalized: String = if self.case_sensitive {
            text.to_owned()
        } else {
            fold_str(text)
        };
        // the character count fits in usize, so every span offset does too
        let total: usize = normalized.as_str().unicode_len();
        let words: Vec<String> = split_words(normalized.as_str());
        proof {
            lemma_chars_before_total(words.deep_view());
            assert(chars_before(words.deep_view(), words.deep_view().len() as int) == total);
        }
        self.scan_segments(&words)
    }

    /// Every keyword found in `text`, in scan order, as its clean word.
    pub fn extract_keywords(&self, text: &str) -> (r: Vec<String>)
        requires
            self.wf(),
        ensures
            r.deep_view() == spec_scan(
                self.dict(),
                text_segments(self.spec_case_sensitive(), text@),
                0,
            ).map_values(|m: ScanMatch| m.clean),
    {
        let spans = self.extract_keywords_with_span(text);
        let ghost ms = spec_scan(self.dict(), text_segments(self.spec_case_sensitive(), text@), 0);
        let mut r: Vec<String> = Vec::new();
        let mut i: usize = 0;
        while i < spans.len()
            invariant
                spans@.len() == ms.len(),
                forall|k: int| 0 <= k < ms.len() ==> (#[trigger] spans@[k]).0@ == ms[k].clean,
                i <= ms.len(),
                r@.len() == i,
                forall|k: int| 0 <= k < i ==> (#[trigger] r@[k])@ == ms[k].clean,
            decreases spans@.len() - i,
        {
            let c: String = spans[i].0.clone();
            r.push(c);
            i = i + 1;
        }
        proof {
            assert(r.deep_view() =~= ms.map_values(|m: ScanMatch| m.clean));
        }
        r
    }

    /// Rebuild `text` with every match replaced by its clean word; the
    /// stretches of the text that no match covers are kept verbatim.
    pub fn replace_keywords(&self, text: &str) -> (r: String)
        requires
            self.wf(),
        ensures
            ({
                let wv = text_segments(self.spec_case_sensitive(), text@);
                r@ == replaced_text(text@, wv, spec_scan(self.dict(), wv, 0), 0)
            }),
    {
        let spans = self.extract_keywords_with_span(text);
        let n: usize = text.unicode_len();
        let ghost wv = text_segments(self.spec_case_sensitive(), text@);
        let ghost ms = spec_scan(self.dict(), wv, 0);
        proof {
            lemma_scan_ordered(self.dict(), wv, 0);
            lemma_chars_before_total(wv);
            assert(wv.flatten().len() == text@.len());
            assert(ms.skip(0) =~= ms);
            lemma_chars_before_zero(wv);
        }
        let mut out = String::new();
        let mut prev: usize = 0;
        let mut i: usize = 0;
        while i < spans.len()
            invariant
                n == text@.len(),
                wv.flatten().len() == text@.len(),
                chars_before(wv, wv.len() as int) == text@.len(),
                spans@.len() == ms.len(),
                forall|k: int|
                    0 <= k < ms.len() ==> {
                        &&& (#[trigger] spans@[k]).0@ == ms[k].clean
                        &&& spans@[k].1 == chars_before(wv, ms[k].begin)
                        &&& spans@[k].2 == chars_before(wv, ms[k].end)
                    },
                forall|k: int|
                    0 <= k < ms.len() ==> 0 <= (#[trigger] ms[k]).begin && ms[k].begin + 1
                        <= ms[k].end <= wv.len(),
                forall|k1: int, k2: int|
                    0 <= k1 < k2 < ms.len() ==> (#[trigger] ms[k1]).end <= (#[trigger] ms[k2]).begin,
                i <= ms.len(),
                i == 0 ==> prev == 0,
                i > 0 ==> prev == chars_before(wv, ms[i - 1].end),
                prev <= n,
                replaced_text(text@, wv, ms, 0) == out@ + replaced_text(
                    text@,
                    wv,
                    ms.skip(i as int),
                    prev as int,
                ),
            decreases spans@.len() - i,
        {
            let s = spans[i].1;
            let e = spans[i].2;
            proof {
                if i > 0 {
                    lemma_chars_before_mono(wv, ms[i - 1].end, ms[i as int].begin);
                } else {
                    lemma_chars_before_mono(wv, 0, ms[0].begin);
                }
                lemma_chars_before_mono(wv, ms[i as int].begin, ms[i as int].end);
                lemma_chars_before_mono(wv, ms[i as int].end, wv.len() as int);
            }
            let ghost out0 = out@;
            let piece = text.substring_char(prev, s);
            out.append(piece);
            let c: &String = &spans[i].0;
            out.append(c.as_str());
            proof {
                let tail = ms.skip(i as int);
                assert(tail[0] == ms[i as int]);
                assert(tail.drop_first() =~= ms.skip(i as int + 1));
                assert(replaced_text(text@, wv, tail, prev as int) == text@.subrange(
                    prev as int,
                    chars_before(wv, ms[i as int].begin),
                ) + ms[i as int].clean + replaced_text(
                    text@,
                    wv,
                    ms.skip(i as int + 1),
                    chars_before(wv, ms[i as int].end),
                ));
                assert(out@ =~= out0 + text@.subrange(prev as int, s as int) + ms[i as int].clean);
                assert(out@ + replaced_text(text@, wv, ms.skip(i as int + 1), e as int)
                    =~= out0 + replaced_text(text@, wv, tail, prev as int));
            }
            prev = e;
            i = i + 1;
        }
        let tailpiece = text.substring_char(prev, n);
        out.append(tailpiece);
        proof {
            assert(ms.skip(ms.len() as int) =~= Seq::<ScanMatch>::empty());
            assert(replaced_text(text@, wv, ms.skip(ms.len() as int), prev as int) == text@.subrange(
                prev as int,
                text@.len() as int,
            ));
        }
        out
    }

    /// Structural equality with another processor: the same trie, count and
    /// configuration.
    pub closed spec fn deep_eq(self, other: KeywordProcessor) -> bool {
        &&& node_like(self.trie, other.trie)
        &&& self.len == other.len
        &&& self.case_sensitive == other.case_sensitive
        &&& self.non_word_boundaries@ == other.non_word_boundaries@
    }
}

/// Re-insertion: writing a second clean word under an already-present
/// normalized keyword only replaces the stored clean word; the set of
/// keywords, and with it the keyword count, stays the same.
pub proof fn lemma_reinsert(
    d: Map<Seq<Seq<char>>, Seq<char>>,
    k: Seq<Seq<char>>,
    c1: Seq<char>,
    c2: Seq<char>,
)
    ensures
        d.insert(k, c1).insert(k, c2) == d.insert(k, c2),
        d.insert(k, c1).insert(k, c2).dom() == d.insert(k, c1).dom(),
{
    assert(d.insert(k, c1).insert(k, c2) =~~= d.insert(k, c2));
    assert(d.insert(k, c1).insert(k, c2).dom() =~= d.insert(k, c1).dom());
}

/// Insertion order: the set of keywords after two insertions, and with it
/// the keyword count, does not depend on the order of the insertions.
pub proof fn lemma_insert_order(
    d: Map<Seq<Seq<char>>, Seq<char>>,
    k1: Seq<Seq<char>>,
    c1: Seq<char>,
    k2: Seq<Seq<char>>,
    c2: Seq<char>,
)
    ensures
        d.insert(k1, c1).insert(k2, c2).dom() == d.insert(k2, c2).insert(k1, c1).dom(),
{
    assert(d.insert(k1, c1).insert(k2, c2).dom() =~= d.insert(k2, c2).insert(k1, c1).dom());
}

impl Default for KeywordProcessor {
    /// The default processor: case-insensitive, with the default
    /// word-character set, and no keywords yet.
    fn default() -> (r: Self)
        ensures
            r.wf(),
            r.dict() == Map::<Seq<Seq<char>>, Seq<char>>::empty(),
            !r.spec_case_sensitive(),
            r.boundary_chars() == default_non_word_boundaries(),
    {
        Self::new(false)
    }
}

impl PartialEq for KeywordProcessor {
    fn eq(&self, other: &Self) -> (r: bool) {
        if self.case_sensitive != other.case_sensitive {
            return false;
        }
        if self.len != other.len {
            return false;
        }
        if !boundary_set_eq(&self.non_word_boundaries, &other.non_word_boundaries) {
            return false;
        }
        node_eq(&self.trie, &other.trie)
    }
}

impl vstd::std_specs::cmp::PartialEqSpecImpl for KeywordProcessor {
    open spec fn obeys_eq_spec() -> bool {
        true
    }

    open spec fn eq_spec(&self, other: &Self) -> bool {
        self.deep_eq(*other)
    }
}

impl From<&[&str]> for KeywordProcessor {
    /// A case-insensitive processor with every word of the slice as its own
    /// clean word.
    fn from(slice: &[&str]) -> (r: Self)
        ensures
            r.wf(),
            !r.spec_case_sensitive(),
    {
        let mut this = KeywordProcessor::new(false);
        let mut i: usize = 0;
        while i < slice.len()
            invariant
                this.wf(),
                !this.spec_case_sensitive(),
                this.dict().dom().len() <= i,
                i <= slice@.len(),
            decreases slice@.len() - i,
        {
            let w: &str = slice[i];
            this.add_keyword(w, w);
            i = i + 1;
        }
        this
    }
}

impl vstd::std_specs::convert::FromSpecImpl<&[&str]> for KeywordProcessor {
    open spec fn obeys_from_spec() -> bool {
        false
    }

    open spec fn from_spec(v: &[&str]) -> Self {
        arbitrary()
    }
}

impl From<&[(&str, &str)]> for KeywordProcessor {
    /// A case-insensitive processor with every `(word, clean_word)` pair of
    /// the slice inserted.
    fn from(slice: &[(&str, &str)]) -> (r: Self)
        ensures
            r.wf(),
            !r.spec_case_sensitive(),
    {
        let mut this = KeywordProcessor::new(false);
        let mut i: usize = 0;
        while i < slice.len()
            invariant
                this.wf(),
                !this.spec_case_sensitive(),
                this.dict().dom().len() <= i,
                i <= slice@.len(),
            decreases slice@.len() - i,
        {
            let pair = slice[i];
            this.add_keyword(pair.0, pair.1);
            i = i + 1;
        }
        this
    }
}

impl vstd::std_specs::convert::FromSpecImpl<&[(&str, &str)]> for KeywordProcessor {
    open spec fn obeys_from_spec() -> bool {
        false
    }

    open spec fn from_spec(v: &[(&str, &str)]) -> Self {
        arbitrary()
    }
}

} // verus!
