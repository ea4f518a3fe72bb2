use bm25_rs::stemmer;
use bm25_rs::tokenize;

#[test]
fn test_tokenize() {
    let doc = "Hello world";
    let tokens = tokenize(doc);
    assert_eq!(tokens, vec!["Hello", "world"]);
}

#[test]
fn test_stemmer() {
    let words = vec!["like".to_string(), "likes".to_string()];
    let stemmed = stemmer(&words);
    assert_eq!(stemmed, vec!["like", "likes"]);
}

#[test]
fn test_tokenize_empty() {
    assert_eq!(tokenize(""), Vec::<String>::new());
    assert_eq!(tokenize("   \t\n  "), Vec::<String>::new());
}

#[test]
fn test_tokenize_repeated_separators() {
    assert_eq!(tokenize("  a   bb\tccc\nd  "), vec!["a", "bb", "ccc", "d"]);
}

#[test]
fn test_tokenize_preserves_case_and_punctuation() {
    assert_eq!(tokenize("Hello, World!"), vec!["Hello,", "World!"]);
}

#[test]
fn test_tokenize_unicode_whitespace() {
    assert_eq!(tokenize("a\u{00A0}b\u{2003}c"), vec!["a", "b", "c"]);
}
