use treescout::tokenizer::{fallback_tokenize, NlpError, NlpTokenizer};

#[test]
fn test_fallback_tokenize_mixed() {
    let tokens = fallback_tokenize("src/components議事録.ts");
    assert!(tokens.contains(&"src".to_string()) || tokens.iter().any(|t| t.contains("src")));
    assert!(tokens.iter().any(|t| t.contains("議事録")));
}

#[test]
fn test_fallback_tokenize_spaces() {
    let tokens = fallback_tokenize("hello world foo");
    assert_eq!(tokens, vec!["hello", "world", "foo"]);
}

#[test]
fn fallback_splits_at_script_boundaries() {
    let tokens = fallback_tokenize("src/components議事録.ts");
    assert_eq!(tokens, vec!["src/components", "議事録", ".ts"]);
    assert!(fallback_tokenize("  \t ").is_empty());
}

#[test]
fn tokenizer_without_dictionary_uses_fallback() {
    let tok = NlpTokenizer::new().unwrap();
    assert_eq!(tok.tokenize("猫が 走る").unwrap(), vec!["猫が", "走る"]);
    assert_eq!(tok.tokenize_for_embedding("a b").unwrap(), vec!["a", "b"]);
}

#[test]
fn nlp_error_messages() {
    assert_eq!(NlpError::Init("x".to_string()).message(), "tokenizer init failed: x");
    assert_eq!(NlpError::Tokenize("y".to_string()).message(), "tokenize failed: y");
}
