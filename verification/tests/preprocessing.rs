use tfidf::preprocess::{
    is_ascii_punctuation, is_whitespace, join_terms, preprocess, preprocess_review, remove_punctuation,
    remove_stopwords, stem, stopword_set, to_lowercase, tokenize,
};
use tfidf::structs::{PreprocessedReview, Review};

fn strings(words: &[&str]) -> Vec<String> {
    words.iter().map(|w| w.to_string()).collect()
}

#[test]
fn punctuation_is_removed() {
    assert_eq!(remove_punctuation("Hello, world! (it's) [ok] {x} ~`^_"), "Hello world its ok x ");
    assert_eq!(remove_punctuation(""), "");
    assert_eq!(remove_punctuation("caf\u{e9}\u{2014}ok"), "caf\u{e9}\u{2014}ok");
}

#[test]
fn ascii_punctuation_matches_the_standard_library() {
    for code in 0u32..0x3000 {
        if let Some(c) = char::from_u32(code) {
            assert_eq!(is_ascii_punctuation(c), c.is_ascii_punctuation());
        }
    }
}

#[test]
fn lowercase_changes_upper_case_letters() {
    assert_eq!(to_lowercase("Hello WORLD"), "hello world");
    assert_eq!(to_lowercase("\u{c9}T\u{c9}"), "\u{e9}t\u{e9}");
}

#[test]
fn tokenize_splits_on_any_whitespace() {
    assert_eq!(tokenize("  a b\t\tc\nd  "), strings(&["a", "b", "c", "d"]));
    assert!(tokenize("").is_empty());
    assert!(tokenize("   ").is_empty());
}

#[test]
fn stopwords_are_dropped_in_order() {
    let stopwords = stopword_set(&strings(&["the", "a", "the"]));
    let tokens = strings(&["the", "cat", "saw", "a", "dog", "the"]);
    assert_eq!(remove_stopwords(&tokens, &stopwords), strings(&["cat", "saw", "dog"]));
    let none = stopword_set(&Vec::new());
    assert_eq!(remove_stopwords(&tokens, &none), tokens);
}

#[test]
fn stems_are_english_stems() {
    assert_eq!(
        stem(&strings(&["running", "cats", "easily", "run"])),
        strings(&["run", "cat", "easili", "run"])
    );
    assert!(stem(&Vec::new()).is_empty());
}

#[test]
fn terms_are_joined_by_single_spaces() {
    assert_eq!(join_terms(&strings(&["a", "b", "c"])), "a b c");
    assert_eq!(join_terms(&strings(&["only"])), "only");
    assert_eq!(join_terms(&Vec::new()), "");
}

#[test]
fn review_is_cleaned_and_keeps_its_rating() {
    let stopwords = stopword_set(&strings(&["the", "was"]));
    let review = Review { review_text: "The food, was GREAT!!".to_string(), review_stars: 5 };
    let out: PreprocessedReview = preprocess_review(&review, &stopwords);
    assert_eq!(out.review_text, "food great");
    assert_eq!(out.review_stars, 5);
}

#[test]
fn reviews_are_cleaned_in_order() {
    let input = vec![
        Review { review_text: "Bad. Really bad!".to_string(), review_stars: 1 },
        Review { review_text: "".to_string(), review_stars: 3 },
        Review { review_text: "It is Fine".to_string(), review_stars: 4 },
    ];
    let out = preprocess(&input, &strings(&["it", "is", "really"]));
    assert_eq!(out.len(), 3);
    assert_eq!(out[0].review_text, "bad bad");
    assert_eq!(out[0].review_stars, 1);
    assert_eq!(out[1].review_text, "");
    assert_eq!(out[1].review_stars, 3);
    assert_eq!(out[2].review_text, "fine");
    assert_eq!(out[2].review_stars, 4);
}

#[test]
fn whitespace_matches_the_standard_library() {
    for code in 0u32..=0x10FFFF {
        if let Some(c) = char::from_u32(code) {
            assert_eq!(is_whitespace(c), c.is_whitespace());
        }
    }
}

#[test]
fn tokenize_agrees_with_split_whitespace() {
    let texts = [
        "",
        " ",
        "one",
        " lead and trail ",
        "tabs\tand\nnewlines\r\nmixed",
        "no\u{a0}break\u{2003}wide\u{3000}ideographic",
        "x\u{85}y\u{1680}z",
    ];
    for text in texts.iter() {
        let expected: Vec<String> = text.split_whitespace().map(|w| w.to_string()).collect();
        assert_eq!(tokenize(text), expected);
    }
}
