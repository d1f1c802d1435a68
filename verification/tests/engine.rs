use tfidf::counts::{count_terms, word_counts, TermCounts};
use tfidf::dictionary::{dictionary_from_lines, parse_dictionary_line};
use tfidf::order::arrange_by_index;
use tfidf::reduce::{
    column_sums, filter_top_n_words, map_dictionary_to_review_vectors, project_columns,
    rank_columns, sort_by_count,
};
use tfidf::structs::PreprocessedReview;
use tfidf::tf_idf::{
    calculate_inverse_document_frequency, calculate_term_frequency, calculate_tfidf,
    document_frequencies, matrix_width, row_total, Ratio, TfIdfError,
};
use tfidf::vocabulary::{
    bag_of_words, collect_vocabulary, document_term_matrix, review_vector, review_vectors,
    tokenize_reviews, zero_row, Vocabulary,
};

fn strings(words: &[&str]) -> Vec<String> {
    words.iter().map(|w| w.to_string()).collect()
}

fn reviews(texts: &[&str]) -> Vec<PreprocessedReview> {
    texts
        .iter()
        .map(|t| PreprocessedReview { review_text: t.to_string(), review_stars: 3 })
        .collect()
}

fn value(r: Ratio) -> f64 {
    r.num as f64 / r.den as f64
}

fn close(a: f64, b: f64) -> bool {
    (a - b).abs() < 1e-3
}

#[test]
fn scenario_matrix_over_given_vocabulary() {
    let vocabulary = Vocabulary::from_terms(strings(&["a", "b", "c"]));
    let matrix = review_vectors(&vocabulary, &reviews(&["a b a", "b c", "a c c"]));
    assert_eq!(matrix, vec![vec![2, 1, 0], vec![0, 1, 1], vec![1, 0, 2]]);
}

#[test]
fn scenario_row_sums_and_document_frequencies() {
    let matrix: Vec<Vec<u64>> = vec![vec![2, 1, 0], vec![0, 1, 1], vec![1, 0, 2]];
    let sums: Vec<u128> = matrix.iter().map(row_total).collect();
    assert_eq!(sums, vec![3, 2, 3]);
    assert_eq!(document_frequencies(&matrix, 3), vec![2, 2, 2]);
}

#[test]
fn scenario_idf_and_tf_and_weights() {
    let matrix: Vec<Vec<u64>> = vec![vec![2, 1, 0], vec![0, 1, 1], vec![1, 0, 2]];
    let idf = calculate_inverse_document_frequency(&matrix).unwrap();
    assert_eq!(idf, vec![Ratio { num: 3, den: 2 }; 3]);
    for r in idf.iter() {
        assert!(close(value(*r).ln(), 0.405));
    }
    let tf = calculate_term_frequency(&matrix[0]);
    assert_eq!(
        tf,
        vec![Ratio { num: 2, den: 3 }, Ratio { num: 1, den: 3 }, Ratio { num: 0, den: 3 }]
    );
    assert!(close(value(tf[0]), 0.667));
    assert!(close(value(tf[1]), 0.333));
    assert!(close(value(tf[2]), 0.0));
    let weights = calculate_tfidf(&matrix).unwrap();
    assert_eq!(weights.len(), 3);
    let row0: Vec<f64> = weights[0].iter().map(|w| value(w.tf) * value(w.idf).ln()).collect();
    assert!(close(row0[0], 0.270));
    assert!(close(row0[1], 0.135));
    assert!(close(row0[2], 0.0));
}

#[test]
fn bag_of_words_builds_dictionary_in_first_occurrence_order() {
    let (dictionary, matrix) = bag_of_words(&reviews(&["a b a", "b c", "a c c"]), 20000);
    assert_eq!(dictionary, strings(&["a", "b", "c"]));
    assert_eq!(matrix, vec![vec![2, 1, 0], vec![0, 1, 1], vec![1, 0, 2]]);
}

#[test]
fn bag_of_words_reads_only_the_first_rows() {
    let (dictionary, matrix) = bag_of_words(&reviews(&["a b a", "b c", "a c c"]), 1);
    assert_eq!(dictionary, strings(&["a", "b"]));
    assert_eq!(matrix, vec![vec![2, 1]]);
}

#[test]
fn bag_of_words_of_nothing_is_empty() {
    let (dictionary, matrix) = bag_of_words(&Vec::new(), 5);
    assert!(dictionary.is_empty());
    assert!(matrix.is_empty());
}

#[test]
fn vocabulary_holds_each_term_once() {
    let documents = vec![strings(&["x", "y", "x"]), strings(&[]), strings(&["y", "z", "x"])];
    let vocabulary = collect_vocabulary(&documents);
    assert_eq!(vocabulary, strings(&["x", "y", "z"]));
}

#[test]
fn unknown_terms_are_ignored_and_row_sum_counts_known_tokens() {
    let vocabulary = Vocabulary::from_terms(strings(&["a", "c"]));
    let row = review_vector(&vocabulary, &strings(&["a", "b", "a", "d", "c"]));
    assert_eq!(row, vec![2, 1]);
    assert_eq!(row_total(&row), 3);
}

#[test]
fn repeated_dictionary_term_counts_at_its_first_column() {
    let vocabulary = Vocabulary::from_terms(strings(&["a", "b", "a"]));
    assert_eq!(vocabulary.position("a"), Some(0));
    assert_eq!(vocabulary.position("b"), Some(1));
    assert_eq!(vocabulary.position("z"), None);
    assert_eq!(vocabulary.len(), 3);
    assert_eq!(vocabulary.words(), &strings(&["a", "b", "a"]));
    let row = review_vector(&vocabulary, &strings(&["a", "a", "b"]));
    assert_eq!(row, vec![2, 1, 0]);
}

#[test]
fn matrix_rows_follow_document_order() {
    let vocabulary = Vocabulary::from_terms(strings(&["p", "q"]));
    let documents = vec![strings(&["q"]), strings(&["p", "p"]), strings(&[]), strings(&["p", "q"])];
    let matrix = document_term_matrix(&vocabulary, &documents);
    assert_eq!(matrix, vec![vec![0, 1], vec![2, 0], vec![0, 0], vec![1, 1]]);
}

#[test]
fn tokenize_reviews_splits_each_text() {
    let out = tokenize_reviews(&reviews(&["  a  b ", "", "c"]), 3);
    assert_eq!(out, vec![strings(&["a", "b"]), strings(&[]), strings(&["c"])]);
}

#[test]
fn zero_row_is_all_zero() {
    assert_eq!(zero_row(3), vec![0, 0, 0]);
    assert!(zero_row(0).is_empty());
}

#[test]
fn column_sums_over_a_prefix() {
    let matrix: Vec<Vec<u64>> = vec![vec![2, 1, 0], vec![0, 1, 1], vec![1, 0, 2]];
    assert_eq!(column_sums(&matrix, 3, 3), vec![3, 2, 3]);
    assert_eq!(column_sums(&matrix, 3, 2), vec![2, 2, 1]);
    assert_eq!(column_sums(&matrix, 3, 0), vec![0, 0, 0]);
}

#[test]
fn dictionary_pairs_hold_aggregate_counts() {
    let dictionary = strings(&["a", "b", "c"]);
    let matrix: Vec<Vec<u64>> = vec![vec![2, 1, 0], vec![0, 1, 1], vec![1, 0, 2]];
    let all = map_dictionary_to_review_vectors(&dictionary, &matrix, None);
    assert_eq!(
        all,
        vec![("a".to_string(), 3), ("b".to_string(), 2), ("c".to_string(), 3)]
    );
    let total: u128 = all.iter().map(|p| p.1).sum();
    let entries: u128 = matrix.iter().map(row_total).sum();
    assert_eq!(total, entries);
    let two = map_dictionary_to_review_vectors(&dictionary, &matrix, Some(2));
    assert_eq!(
        two,
        vec![("a".to_string(), 2), ("b".to_string(), 2), ("c".to_string(), 1)]
    );
    let many = map_dictionary_to_review_vectors(&dictionary, &matrix, Some(10));
    assert_eq!(many, all);
}

#[test]
fn ranking_goes_by_sum_then_by_column() {
    let sums: Vec<u128> = vec![3, 7, 3, 9, 7];
    assert_eq!(rank_columns(&sums, 5), vec![3, 1, 4, 0, 2]);
    assert_eq!(rank_columns(&sums, 2), vec![3, 1]);
    assert!(rank_columns(&sums, 0).is_empty());
}

#[test]
fn sort_by_count_is_descending_and_stable() {
    let pairs = vec![
        ("a".to_string(), 3u128),
        ("b".to_string(), 7),
        ("c".to_string(), 3),
        ("d".to_string(), 9),
    ];
    let sorted = sort_by_count(&pairs);
    assert_eq!(
        sorted,
        vec![
            ("d".to_string(), 9u128),
            ("b".to_string(), 7),
            ("a".to_string(), 3),
            ("c".to_string(), 3),
        ]
    );
}

#[test]
fn top_n_keeps_best_columns_in_ranked_order() {
    let dictionary = strings(&["a", "b", "c", "d"]);
    let matrix: Vec<Vec<u64>> = vec![vec![1, 0, 4, 1], vec![0, 2, 1, 0], vec![0, 0, 1, 0]];
    let (words, rows) = filter_top_n_words(&dictionary, &matrix, 2);
    assert_eq!(words, strings(&["c", "b"]));
    assert_eq!(rows, vec![vec![4, 0], vec![1, 2], vec![1, 0]]);
    let (words, rows) = filter_top_n_words(&dictionary, &matrix, 3);
    assert_eq!(words, strings(&["c", "b", "a"]));
    assert_eq!(rows, vec![vec![4, 0, 1], vec![1, 2, 0], vec![1, 0, 0]]);
}

#[test]
fn top_n_at_or_above_the_width_changes_nothing() {
    let dictionary = strings(&["a", "b", "c"]);
    let matrix: Vec<Vec<u64>> = vec![vec![1, 5, 3], vec![0, 2, 9]];
    let (words, rows) = filter_top_n_words(&dictionary, &matrix, 3);
    assert_eq!(words, dictionary);
    assert_eq!(rows, matrix);
    let (words, rows) = filter_top_n_words(&dictionary, &matrix, 100);
    assert_eq!(words, dictionary);
    assert_eq!(rows, matrix);
}

#[test]
fn top_n_twice_gives_the_same_result() {
    let dictionary = strings(&["a", "b", "c", "d"]);
    let matrix: Vec<Vec<u64>> = vec![vec![1, 1, 1, 1], vec![2, 0, 2, 0]];
    let first = filter_top_n_words(&dictionary, &matrix, 3);
    let second = filter_top_n_words(&dictionary, &matrix, 3);
    assert_eq!(first, second);
    assert_eq!(first.0, strings(&["a", "c", "b"]));
}

#[test]
fn top_zero_leaves_empty_rows() {
    let dictionary = strings(&["a", "b"]);
    let matrix: Vec<Vec<u64>> = vec![vec![1, 5], vec![0, 2]];
    let (words, rows) = filter_top_n_words(&dictionary, &matrix, 0);
    assert!(words.is_empty());
    assert_eq!(rows, vec![Vec::<u64>::new(), Vec::<u64>::new()]);
}

#[test]
fn project_columns_copies_listed_columns() {
    let dictionary = strings(&["a", "b", "c"]);
    let matrix: Vec<Vec<u64>> = vec![vec![1, 5, 3], vec![0, 2, 9]];
    let (words, rows) = project_columns(&dictionary, &matrix, &vec![2, 0]);
    assert_eq!(words, strings(&["c", "a"]));
    assert_eq!(rows, vec![vec![3, 1], vec![9, 0]]);
}

#[test]
fn empty_matrix_is_refused() {
    let matrix: Vec<Vec<u64>> = Vec::new();
    assert_eq!(matrix_width(&matrix), Err(TfIdfError::EmptyInput));
    assert_eq!(calculate_inverse_document_frequency(&matrix), Err(TfIdfError::EmptyInput));
    assert_eq!(calculate_tfidf(&matrix), Err(TfIdfError::EmptyInput));
}

#[test]
fn ragged_matrix_is_refused() {
    let matrix: Vec<Vec<u64>> = vec![vec![1, 2], vec![3]];
    assert_eq!(matrix_width(&matrix), Err(TfIdfError::ShapeMismatch));
    assert_eq!(calculate_inverse_document_frequency(&matrix), Err(TfIdfError::ShapeMismatch));
    assert_eq!(calculate_tfidf(&matrix), Err(TfIdfError::ShapeMismatch));
    assert_eq!(matrix_width(&vec![vec![1, 2], vec![3, 4]]), Ok(2));
}

#[test]
fn row_without_counts_has_zero_frequencies() {
    let tf = calculate_term_frequency(&vec![0, 0]);
    assert_eq!(tf, vec![Ratio { num: 0, den: 1 }, Ratio { num: 0, den: 1 }]);
    assert!(value(tf[0]) == 0.0);
}

#[test]
fn column_without_counts_has_zero_idf() {
    let matrix: Vec<Vec<u64>> = vec![vec![1, 0], vec![2, 0]];
    let idf = calculate_inverse_document_frequency(&matrix).unwrap();
    assert_eq!(idf, vec![Ratio { num: 2, den: 2 }, Ratio { num: 1, den: 1 }]);
    assert!(value(idf[1]).ln() == 0.0);
    let weights = calculate_tfidf(&matrix).unwrap();
    for row in weights.iter() {
        for w in row.iter() {
            let x = value(w.tf) * value(w.idf).ln();
            assert!(x.is_finite());
            assert!(x >= 0.0);
        }
    }
}

#[test]
fn term_frequencies_of_a_row_sum_to_one() {
    let tf = calculate_term_frequency(&vec![5, 0, 7, 1]);
    let numerators: u128 = tf.iter().map(|r| r.num).sum();
    assert_eq!(numerators, 13);
    for r in tf.iter() {
        assert_eq!(r.den, 13);
    }
    let sum: f64 = tf.iter().map(|r| value(*r)).sum();
    assert!((sum - 1.0).abs() < 1e-9);
}

#[test]
fn rarer_term_has_idf_at_least_as_large() {
    let matrix: Vec<Vec<u64>> = vec![vec![1, 1, 1], vec![0, 1, 4], vec![0, 0, 2]];
    let idf = calculate_inverse_document_frequency(&matrix).unwrap();
    assert_eq!(
        idf,
        vec![Ratio { num: 3, den: 1 }, Ratio { num: 3, den: 2 }, Ratio { num: 3, den: 3 }]
    );
    assert!(value(idf[0]).ln() >= value(idf[1]).ln());
    assert!(value(idf[1]).ln() >= value(idf[2]).ln());
}

#[test]
fn weights_keep_the_shape_and_order_of_the_matrix() {
    let matrix: Vec<Vec<u64>> = vec![vec![1, 0], vec![0, 3], vec![2, 2]];
    let weights = calculate_tfidf(&matrix).unwrap();
    assert_eq!(weights.len(), 3);
    for (i, row) in weights.iter().enumerate() {
        assert_eq!(row.len(), 2);
        for (j, w) in row.iter().enumerate() {
            assert_eq!(w.tf.num, matrix[i][j] as u128);
            assert_eq!(w.tf.den, row_total(&matrix[i]));
        }
    }
}

#[test]
fn dictionary_line_needs_exactly_two_columns() {
    assert_eq!(parse_dictionary_line("12,word"), Some("word".to_string()));
    assert_eq!(parse_dictionary_line("12,"), Some(String::new()));
    assert_eq!(parse_dictionary_line(",x"), Some("x".to_string()));
    assert_eq!(parse_dictionary_line("word"), None);
    assert_eq!(parse_dictionary_line(""), None);
    assert_eq!(parse_dictionary_line("1,2,3"), None);
}

#[test]
fn dictionary_skips_header_and_bad_lines() {
    let lines = strings(&["weight,word", "9,good", "broken", "4,bad", "1,2,3"]);
    assert_eq!(dictionary_from_lines(&lines), strings(&["good", "bad"]));
    assert!(dictionary_from_lines(&strings(&["7,only"])).is_empty());
    assert!(dictionary_from_lines(&Vec::new()).is_empty());
}

#[test]
fn items_return_to_the_order_of_their_tags() {
    let tagged = vec![(2usize, "c".to_string()), (0, "a".to_string()), (1, "b".to_string())];
    assert_eq!(arrange_by_index(&tagged), Some(strings(&["a", "b", "c"])));
    assert_eq!(arrange_by_index(&Vec::new()), Some(Vec::new()));
}

#[test]
fn tags_that_are_no_arrangement_are_refused() {
    let repeated = vec![(0usize, "a".to_string()), (0, "b".to_string())];
    assert_eq!(arrange_by_index(&repeated), None);
    let too_high = vec![(0usize, "a".to_string()), (2, "b".to_string())];
    assert_eq!(arrange_by_index(&too_high), None);
}

#[test]
fn terms_of_a_document_are_counted_not_deduplicated() {
    let counts = count_terms(&strings(&["a", "b", "a", "a"]));
    assert_eq!(counts.get("a"), 3);
    assert_eq!(counts.get("b"), 1);
    assert_eq!(counts.get("z"), 0);
    assert_eq!(counts.len(), 2);
    assert_eq!(counts.into_words(), strings(&["a", "b"]));
}

#[test]
fn merged_counts_are_sums_in_either_order() {
    let left = strings(&["a", "b", "a"]);
    let right = strings(&["b", "c"]);
    let mut one = count_terms(&left);
    one.merge(&count_terms(&right));
    let mut other = count_terms(&right);
    other.merge(&count_terms(&left));
    for term in ["a", "b", "c", "d"].iter() {
        assert_eq!(one.get(term), other.get(term));
    }
    assert_eq!(one.get("a"), 2);
    assert_eq!(one.get("b"), 2);
    assert_eq!(one.get("c"), 1);
    assert_eq!(one.into_words(), strings(&["a", "b", "c"]));
    assert_eq!(other.into_words(), strings(&["b", "c", "a"]));
}

#[test]
fn counts_grow_by_the_amount_added() {
    let mut counts = TermCounts::new();
    assert_eq!(counts.len(), 0);
    counts.add("x", 5);
    counts.add("y", 2);
    counts.add("x", 7);
    assert_eq!(counts.get("x"), 12);
    assert_eq!(counts.get("y"), 2);
    assert_eq!(counts.into_words(), strings(&["x", "y"]));
}

#[test]
fn word_counts_cover_all_documents() {
    let documents = vec![strings(&["a", "b", "a"]), strings(&["b", "c"]), strings(&["a", "c", "c"])];
    let counts = word_counts(&documents);
    assert_eq!(counts.get("a"), 3);
    assert_eq!(counts.get("b"), 2);
    assert_eq!(counts.get("c"), 3);
    assert_eq!(counts.into_words(), strings(&["a", "b", "c"]));
    assert_eq!(word_counts(&Vec::new()).len(), 0);
}
