use bm25_rs::Index;
use bm25_rs::IndexError;

#[test]
fn test_term_frequency() {
    let index = Index::new();
    let terms = vec!["like".to_string(), "like".to_string(), "cats".to_string()];
    let term_freq = index.term_frequency(&terms);
    assert_eq!(term_freq.get("like"), Some(&2));
    assert_eq!(term_freq.get("cats"), Some(&1));
}

#[test]
fn test_insert() {
    let mut index = Index::new();
    index.insert("Hello world", 0).unwrap();
    index.insert("I like like cats", 1).unwrap();
    index.insert("I like dogs", 2).unwrap();

    assert_eq!(index.doc_frequency("like"), 2);
    assert_eq!(index.num_docs(), 3);
}

#[test]
fn test_search() {
    let mut index = Index::new();
    index.insert("Hello world", 123).unwrap();
    index.insert("I like like cats", 456).unwrap();
    index.insert("I like dogs", 789).unwrap();

    let results = index.search("like", 3);
    assert_eq!(results.len(), 2);
    assert_eq!(results[0].1, 456);
    assert_eq!(results[1].1, 789);
}

#[test]
fn test_search_ranking_scenario() {
    let mut index = Index::new();
    index.insert("Hello world", 0).unwrap();
    index.insert("I like like cats", 1).unwrap();
    index.insert("I like dogs", 2).unwrap();

    let results = index.search("like", 3);
    let ids: Vec<u32> = results.iter().map(|r| r.1).collect();
    assert_eq!(ids, vec![1, 2]);
    assert!(results[0].0 > results[1].0);
}

#[test]
fn test_search_exact_scores() {
    let mut index = Index::new();
    index.insert("Hello world", 0).unwrap();
    index.insert("I like like cats", 1).unwrap();
    index.insert("I like dogs", 2).unwrap();

    let results = index.search("like", 3);
    assert_eq!(results, vec![(242579, 1), (187999, 2)]);
}

#[test]
fn test_search_single_document_score() {
    let mut index = Index::new();
    index.insert("a", 7).unwrap();
    let results = index.search("a", 1);
    assert_eq!(results, vec![(115070, 7)]);
}

#[test]
fn test_search_top_k_zero() {
    let mut index = Index::new();
    index.insert("Hello world", 0).unwrap();
    index.insert("I like like cats", 1).unwrap();
    index.insert("I like dogs", 2).unwrap();

    assert_eq!(index.search("like", 0), vec![]);
}

#[test]
fn test_search_unknown_term() {
    let mut index = Index::new();
    index.insert("Hello world", 0).unwrap();
    index.insert("I like like cats", 1).unwrap();
    index.insert("I like dogs", 2).unwrap();

    assert_eq!(index.search("xyzzy", 5), vec![]);
}

#[test]
fn test_search_empty_corpus() {
    let index = Index::new();
    assert_eq!(index.search("anything", 5), vec![]);
}

#[test]
fn test_search_bounded_by_top_k() {
    let mut index = Index::new();
    index.insert("pear apple", 1).unwrap();
    index.insert("apple plum", 2).unwrap();
    index.insert("apple quince", 3).unwrap();

    let results = index.search("apple", 2);
    assert_eq!(results.len(), 2);
}

#[test]
fn test_invalid_config_negative_k() {
    let r = Index::with_params(-1000, 750);
    assert_eq!(r.err(), Some(IndexError::InvalidConfig));
}

#[test]
fn test_invalid_config_b_out_of_range() {
    assert_eq!(Index::with_params(1500, 1001).err(), Some(IndexError::InvalidConfig));
    assert_eq!(Index::with_params(1500, -1).err(), Some(IndexError::InvalidConfig));
}

#[test]
fn test_valid_config() {
    let index = Index::with_params(1500, 750).unwrap();
    assert_eq!(index.num_docs(), 0);
}

#[test]
fn test_duplicate_document() {
    let mut index = Index::new();
    index.insert("one two", 5).unwrap();
    let r = index.insert("three", 5);
    assert_eq!(r.err(), Some(IndexError::DuplicateDocument));
    assert_eq!(index.num_docs(), 1);
    assert_eq!(index.doc_frequency("one"), 1);
    assert_eq!(index.doc_frequency("three"), 0);
}

#[test]
fn test_delete_present_and_absent() {
    let mut index = Index::new();
    index.insert("Hello world", 0).unwrap();
    assert!(index.delete(0));
    assert!(!index.delete(0));
    assert_eq!(index.num_docs(), 0);
}

#[test]
fn test_delete_decrements_document_frequency() {
    let mut index = Index::new();
    index.insert("I like like cats", 1).unwrap();
    index.insert("I like dogs", 2).unwrap();
    assert_eq!(index.doc_frequency("like"), 2);
    assert_eq!(index.doc_frequency("cats"), 1);

    assert!(index.delete(1));
    assert_eq!(index.doc_frequency("like"), 1);
    assert_eq!(index.doc_frequency("cats"), 0);
    assert_eq!(index.doc_frequency("dogs"), 1);
}

#[test]
fn test_total_doc_lengths_tracks_sum() {
    let mut index = Index::new();
    index.insert("Hello world", 0).unwrap();
    index.insert("I like like cats", 1).unwrap();
    index.insert("I like dogs", 2).unwrap();
    assert_eq!(index.total_doc_lengths, 9);

    index.delete(1);
    assert_eq!(index.total_doc_lengths, 5);

    index.upsert("one two three", 2);
    assert_eq!(index.total_doc_lengths, 5);
}

#[test]
fn test_upsert_replaces() {
    let mut index = Index::new();
    index.upsert("I like cats", 1);
    index.upsert("I like dogs", 1);
    assert_eq!(index.num_docs(), 1);
    assert_eq!(index.doc_frequency("cats"), 0);
    assert_eq!(index.doc_frequency("dogs"), 1);
}

#[test]
fn test_upsert_idempotent() {
    let mut once = Index::new();
    once.insert("Hello world", 0).unwrap();
    once.upsert("I like like cats", 1);

    let mut twice = Index::new();
    twice.insert("Hello world", 0).unwrap();
    twice.upsert("I like like cats", 1);
    twice.upsert("I like like cats", 1);

    assert_eq!(once.num_docs(), twice.num_docs());
    assert_eq!(once.total_doc_lengths, twice.total_doc_lengths);
    assert_eq!(once.doc_frequency("like"), twice.doc_frequency("like"));
    assert_eq!(once.search("like cats", 5), twice.search("like cats", 5));
    assert_eq!(once.search("Hello", 5), twice.search("Hello", 5));
}

#[test]
fn test_insert_delete_round_trip() {
    let mut index = Index::new();
    index.insert("Hello world", 0).unwrap();
    let before_like = index.search("like", 5);
    let before_hello = index.search("Hello world", 5);

    index.insert("I like like cats", 9).unwrap();
    assert!(index.delete(9));

    assert_eq!(index.search("like", 5), before_like);
    assert_eq!(index.search("Hello world", 5), before_hello);
    assert_eq!(index.num_docs(), 1);
    assert_eq!(index.doc_frequency("like"), 0);
}

#[test]
fn test_empty_document_is_indexed() {
    let mut index = Index::new();
    index.insert("", 4).unwrap();
    assert_eq!(index.num_docs(), 1);
    assert_eq!(index.total_doc_lengths, 0);
    assert_eq!(index.search("anything", 5), vec![]);
}

#[test]
fn test_equal_scores_tie_break_by_id() {
    let mut index = Index::new();
    index.insert("same words", 8).unwrap();
    index.insert("same words", 3).unwrap();
    let results = index.search("same", 5);
    assert_eq!(results.len(), 2);
    assert_eq!(results[0].0, results[1].0);
    assert_eq!(results[0].1, 3);
    assert_eq!(results[1].1, 8);
}

#[test]
fn test_query_duplicate_terms_count_once() {
    let mut index = Index::new();
    index.insert("I like dogs", 2).unwrap();
    assert_eq!(index.search("like like", 5), index.search("like", 5));
}
