use flashtext2::{split_text_idx, KeywordProcessor};
use std::collections::HashSet;

#[test]
fn test_char_indices() {
    let kp = KeywordProcessor::new(false);
    let arr: Vec<(&str, Vec<(usize, usize)>)> = vec![
        ("Hello World", vec![(0, 5), (5, 6), (6, 11)]),
        (
            "C# is bad ):",
            vec![
                (0, 1),
                (1, 2),
                (2, 3),
                (3, 5),
                (5, 6),
                (6, 9),
                (9, 10),
                (10, 11),
                (11, 12),
            ],
        ),
        (
            "Java is \u{1F4A9}.",
            vec![(0, 4), (4, 5), (5, 7), (7, 8), (8, 12), (12, 13)],
        ),
    ];
    for (string, _) in &arr {
        println!("{:?}", string);
        println!(
            "{:?}, {}",
            string.char_indices().collect::<Vec<_>>(),
            string.len()
        );
        println!("{:?}", split_text_idx(string, &kp.non_word_boundaries()));
        println!();
    }
}

#[test]
fn test_default() {
    let kp = KeywordProcessor::default();
    assert_eq!(kp, KeywordProcessor::new(false));
    assert!(!kp.case_sensitive());
    assert_eq!(kp.len(), 0);
    let expected: HashSet<char> = "0123456789abcdefghijklmnopqrstuvwxyzABCDEFGHIJKLMNOPQRSTUVWXYZ_"
        .chars()
        .collect();
    assert_eq!(kp.non_word_boundaries(), expected);
}

#[test]
fn test_len() {
    // start at zero
    assert_eq!(KeywordProcessor::new(true).len(), 0);

    let mut kp = KeywordProcessor::new(true);

    kp.add_keyword("hello", "hey");
    assert_eq!(kp.len(), 1);

    kp.add_keyword("hey", "hey");
    assert_eq!(kp.len(), 2);

    kp.add_keyword("bye", "hey");
    assert_eq!(kp.len(), 3);

    // test same word
    let mut kp = KeywordProcessor::new(true);
    kp.add_keyword("hey", "hey");
    assert_eq!(kp.len(), 1);

    kp.add_keyword("hey", "hey");
    assert_eq!(kp.len(), 1);

    kp.add_keyword("hey", "bye");
    assert_eq!(kp.len(), 1);

    // test same word, different casing (sensitive)
    let mut kp = KeywordProcessor::new(true);
    kp.add_keyword("hey", "hey");
    assert_eq!(kp.len(), 1);

    kp.add_keyword("HEY", "hey");
    assert_eq!(kp.len(), 2);

    // test same word, different casing (insensitive)
    let mut kp = KeywordProcessor::new(false);
    kp.add_keyword("hey", "hey");
    assert_eq!(kp.len(), 1);

    kp.add_keyword("HEY", "hey");
    assert_eq!(kp.len(), 1);
}

#[test]
fn test_add_keyword() {
    // empty
    let kp = KeywordProcessor::new(true);
    assert!(kp.is_empty());
    assert_eq!(kp.len(), 0);

    // test few keywords; the trie then maps each keyword to its clean word
    let mut kp = KeywordProcessor::new(true);
    kp.add_keyword("hey", "Hey");
    kp.add_keyword("hello", "Hello!");
    kp.add_keyword("hello world", "Hello World");
    kp.add_keyword("C# is no good :(", "C# bad");

    assert_eq!(kp.len(), 4);
    assert_eq!(kp.extract_keywords("hey"), vec!["Hey".to_string()]);
    assert_eq!(kp.extract_keywords("hello"), vec!["Hello!".to_string()]);
    assert_eq!(
        kp.extract_keywords("hello world"),
        vec!["Hello World".to_string()]
    );
    assert_eq!(
        kp.extract_keywords("C# is no good :("),
        vec!["C# bad".to_string()]
    );
}

#[test]
fn extract_keywords_with_span() {}

#[test]
fn replace_keywords() {}

#[test]
fn test_from_strings() {
    let empty_slice: &[&str] = [].as_slice();
    assert_eq!(
        KeywordProcessor::from(empty_slice),
        KeywordProcessor::new(false)
    );

    let arrays = [
        ["hello"].as_slice(),
        ["py", "Python", "I love python!"].as_slice(),
    ];

    for slice in arrays {
        let kp_from_arr = KeywordProcessor::from(slice);

        let mut kp = KeywordProcessor::new(false);
        for word in slice {
            kp.add_keyword(word, word);
        }
        assert_eq!(kp, kp_from_arr);
    }
}

#[test]
fn test_from_tuples() {
    let empty_slice: &[&str] = [].as_slice();
    assert_eq!(
        KeywordProcessor::from(empty_slice),
        KeywordProcessor::new(false)
    );

    let arrays = [
        [("hello", "Hello!")].as_slice(),
        [("py", "Python"), ("python", "Python"), ("py3", "Python 3.0")].as_slice(),
    ];

    for slice in arrays {
        let kp_from_arr = KeywordProcessor::from(slice);

        let mut kp = KeywordProcessor::new(false);
        for (word, clean_word) in slice {
            kp.add_keyword(word, clean_word);
        }
        assert_eq!(kp, kp_from_arr);
    }
}

#[test]
fn test_extractor() {
    // case-insensitive
    let mut kp = KeywordProcessor::new(false);
    kp.add_keyword("Hello", "Hello");
    assert_eq!(kp.extract_keywords("hello")[0], "Hello");

    // case-sensitive
    let mut kp = KeywordProcessor::new(true);
    kp.add_keyword("Hello", "Hello");
    assert!(kp.extract_keywords("hello").is_empty());

    let mut kp = KeywordProcessor::new(true);
    kp.add_keyword("Hello", "Hello");
    assert_eq!(kp.extract_keywords("Hello")[0], "Hello");
}
