use flashtext2::{split_text_idx, KeywordProcessor};
use std::collections::HashSet;

fn char_slice(text: &str, start: usize, end: usize) -> String {
    text.chars().skip(start).take(end - start).collect()
}

#[test]
fn len_counts_distinct_normalized_keywords() {
    let mut kp = KeywordProcessor::new(false);
    kp.add_keyword("Hello", "a");
    kp.add_keyword("hello", "b");
    kp.add_keyword("HELLO", "c");
    assert_eq!(kp.len(), 1);
    kp.add_keyword("world", "d");
    assert_eq!(kp.len(), 2);
    assert!(!kp.is_empty());
}

#[test]
fn case_sensitivity_gates_matches() {
    let mut kp = KeywordProcessor::new(true);
    kp.add_keyword("Hello", "Hello");
    assert!(kp.extract_keywords("hello").is_empty());

    let mut kp = KeywordProcessor::new(false);
    kp.add_keyword("Hello", "Hello");
    assert_eq!(kp.extract_keywords("hello"), vec!["Hello".to_string()]);
}

#[test]
fn word_boundaries_are_enforced() {
    let mut kp = KeywordProcessor::new(false);
    kp.add_keyword("hello", "hello");
    assert!(kp.extract_keywords("ahello").is_empty());
    assert!(kp.extract_keywords("hellox").is_empty());
    for text in ["hello", " hello ", " hello", "hello ", "   hello   "] {
        assert_eq!(
            kp.extract_keywords(text),
            vec!["hello".to_string()],
            "text: {:?}",
            text
        );
    }
}

#[test]
fn longest_match_takes_precedence() {
    let mut kp = KeywordProcessor::new(false);
    kp.add_keyword("distributed", "Distributed");
    kp.add_keyword("distributed super", "Distributed Super");
    kp.add_keyword("distributed super computing", "Distributed Super Computing");
    assert_eq!(
        kp.extract_keywords("distributed super computing insti"),
        vec!["Distributed Super Computing".to_string()]
    );
}

#[test]
fn adjacent_matches_both_found() {
    let mut kp = KeywordProcessor::new(false);
    kp.add_keyword("super", "super");
    kp.add_keyword("computing", "computing");
    assert_eq!(
        kp.extract_keywords("super computing"),
        vec!["super".to_string(), "computing".to_string()]
    );
}

#[test]
fn replace_is_identity_without_matches() {
    let mut kp = KeywordProcessor::new(false);
    kp.add_keyword("python", "Python");
    assert_eq!(kp.replace_keywords("nothing to see here"), "nothing to see here");
    assert_eq!(kp.replace_keywords(""), "");
}

#[test]
fn replace_of_fully_covered_text_is_the_clean_word() {
    let mut kp = KeywordProcessor::new(false);
    kp.add_keyword("hello", "hi");
    assert_eq!(kp.replace_keywords("hello"), "hi");
    assert_eq!(kp.replace_keywords("hello").len(), "hi".len());
}

#[test]
fn replace_substitutes_each_match() {
    let mut kp = KeywordProcessor::new(false);
    kp.add_keyword("py", "Python");
    kp.add_keyword("love", "adore");
    assert_eq!(kp.replace_keywords("I love py!"), "I adore Python!");
}

#[test]
fn spans_cover_the_matched_keywords() {
    let mut kp = KeywordProcessor::new(false);
    kp.add_keyword("Python", "Py");
    kp.add_keyword("keyword", "kw");
    let text = "python keyword python";
    let spans = kp.extract_keywords_with_span(text);
    assert_eq!(
        spans,
        vec![
            ("Py".to_string(), 0, 6),
            ("kw".to_string(), 7, 14),
            ("Py".to_string(), 15, 21),
        ]
    );
    // spans are strictly increasing and read the normalized keyword
    let mut prev_end: usize = 0;
    for (_, start, end) in &spans {
        assert!(prev_end <= *start && start < end);
        prev_end = *end;
    }
    assert_eq!(char_slice(text, 0, 6), "python");
    assert_eq!(char_slice(text, 7, 14), "keyword");
    assert_eq!(char_slice(text, 15, 21), "python");
}

#[test]
fn spans_use_character_offsets() {
    let mut kp = KeywordProcessor::new(false);
    kp.add_keyword("hello", "hi");
    let text = "\u{1F4A9} hello";
    let spans = kp.extract_keywords_with_span(text);
    assert_eq!(spans, vec![("hi".to_string(), 2, 7)]);
    assert_eq!(char_slice(text, 2, 7), "hello");
    assert_eq!(kp.replace_keywords(text), "\u{1F4A9} hi");
}

#[test]
fn reinsert_overwrites_the_clean_word() {
    let mut kp = KeywordProcessor::new(false);
    kp.add_keyword("python", "first");
    assert_eq!(kp.len(), 1);
    kp.add_keyword("python", "second");
    assert_eq!(kp.len(), 1);
    assert_eq!(kp.extract_keywords("python"), vec!["second".to_string()]);
}

#[test]
fn empty_keyword_marks_the_root_only() {
    let mut kp = KeywordProcessor::new(false);
    kp.add_keyword("", "x");
    assert_eq!(kp.len(), 1);
    assert!(kp.extract_keywords("anything at all").is_empty());
    assert_eq!(kp.replace_keywords("anything at all"), "anything at all");
    assert!(kp.extract_keywords("").is_empty());
}

#[test]
fn empty_text_yields_nothing() {
    let mut kp = KeywordProcessor::new(false);
    kp.add_keyword("a", "b");
    assert!(kp.extract_keywords("").is_empty());
    assert!(kp.extract_keywords_with_span("").is_empty());
    assert_eq!(kp.replace_keywords(""), "");
}

#[test]
fn non_word_boundaries_returns_a_copy() {
    let kp = KeywordProcessor::new(false);
    let mut copy = kp.non_word_boundaries();
    copy.insert('!');
    assert!(!kp.non_word_boundaries().contains(&'!'));
}

#[test]
fn with_non_word_boundaries_keeps_the_given_set() {
    let set: HashSet<char> = "abc".chars().collect();
    let kp = KeywordProcessor::with_non_word_boundaries(set.clone(), true);
    assert!(kp.case_sensitive());
    assert_eq!(kp.non_word_boundaries(), set);
    assert_eq!(kp.len(), 0);
    assert_eq!(split_text_idx("ab!ca", &set), vec![(0, 2), (2, 3), (3, 5)]);
}

#[test]
fn scan_segments_matches_explicit_tokens() {
    let mut kp = KeywordProcessor::new(true);
    kp.add_keyword("ab", "X");
    let tokens = vec!["ab".to_string()];
    assert_eq!(kp.scan_segments(&tokens), vec![("X".to_string(), 0, 2)]);
    // an unknown token yields nothing
    let other = vec!["cd".to_string()];
    assert!(kp.scan_segments(&other).is_empty());
}

#[test]
fn scan_segments_longest_match_over_tokens() {
    let mut kp = KeywordProcessor::new(true);
    kp.add_keyword("a", "short");
    kp.add_keyword("a b", "long");
    let tokens = vec!["a".to_string(), " ".to_string(), "b".to_string()];
    assert_eq!(kp.scan_segments(&tokens), vec![("long".to_string(), 0, 3)]);
}

#[test]
fn processors_with_different_configuration_differ() {
    let set: HashSet<char> = "abc".chars().collect();
    assert_ne!(
        KeywordProcessor::with_non_word_boundaries(set, false),
        KeywordProcessor::new(false)
    );
    assert_ne!(KeywordProcessor::new(true), KeywordProcessor::new(false));
    let mut kp = KeywordProcessor::new(false);
    kp.add_keyword("a", "b");
    assert_ne!(kp, KeywordProcessor::new(false));
}

#[test]
fn split_text_idx_tiles_the_text() {
    let kp = KeywordProcessor::new(false);
    let set = kp.non_word_boundaries();
    assert_eq!(split_text_idx("", &set), Vec::<(usize, usize)>::new());
    assert_eq!(
        split_text_idx("Hello World", &set),
        vec![(0, 5), (5, 6), (6, 11)]
    );
    assert_eq!(split_text_idx("a!b", &set), vec![(0, 1), (1, 2), (2, 3)]);
    assert_eq!(
        split_text_idx("  hi  ", &set),
        vec![(0, 1), (1, 2), (2, 4), (4, 5), (5, 6)]
    );
}
