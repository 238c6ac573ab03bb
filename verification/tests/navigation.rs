use anitok::metadata::MetadataKind;
use anitok::parser::Parser;
use anitok::token::TokenCategory;
use anitok::token_manager::TokenManager;
use anitok::tokenizer::tokenize;

#[test]
fn test_index_of_token() {
    let manager = TokenManager::new(tokenize("One Two Three"));
    let tokens = manager.get_tokens();

    // Unfiltered: delimiters counted.
    assert_eq!(Some(2), manager.get_index_of_token(&tokens[2], false));
    // Filtered: the space before "Two" is hidden.
    assert_eq!(Some(1), manager.get_index_of_token(&tokens[2], true));
}

#[test]
fn test_known_token_lookup() {
    let mut parser = Parser::new(tokenize("Show S01E04 tail"));
    parser.parse();
    let manager = &parser.token_manager;

    let season = manager.get_token_by_metadata_kind(MetadataKind::Season).unwrap();
    assert_eq!("01", season.value);
    assert!(manager.has_token_with_metadata_kind(MetadataKind::EpisodeNumber));
    assert!(!manager.has_token_with_metadata_kind(MetadataKind::FileChecksum));
}

#[test]
fn test_known_token_after_and_before() {
    let manager = TokenManager::new(tokenize("a - b - c"));

    // The first separator after filtered position 0 ("a") is the first "-".
    let sep = manager.get_known_token_after(0, TokenCategory::Separator, true).unwrap();
    assert_eq!("-", sep.value);
    // The last separator before filtered position 4 ("c") is the second "-".
    let before = manager.get_known_token_before(4, TokenCategory::Separator, true).unwrap();
    assert_eq!("-", before.value);
    assert!(manager.get_known_token_before(0, TokenCategory::Separator, true).is_none());
}

#[test]
fn test_tokens_until_category() {
    let manager = TokenManager::new(tokenize("a b - c"));

    // Everything after "a" up to the separator, delimiters skipped.
    let run = manager.get_tokens_until_category(0, TokenCategory::Separator, true).unwrap();
    assert_eq!(1, run.len());
    assert_eq!("b", run[0].value);
}

#[test]
fn test_matching_tokens_after() {
    let manager = TokenManager::new(tokenize("Seasons 01 - 03"));
    let tokens = manager.get_tokens();
    let idx = manager.get_index_of_token(&tokens[0], true).unwrap();

    let pattern = vec![
        TokenCategory::Unknown,
        TokenCategory::Separator,
        TokenCategory::Unknown,
    ];
    let matched = manager.get_matching_tokens_after(idx, pattern, true).unwrap();
    assert_eq!(3, matched.len());
    assert_eq!("01", matched[0].value);
    assert_eq!("-", matched[1].value);
    assert_eq!("03", matched[2].value);

    // The pattern must match positionally: asking for two separators fails.
    let wrong = vec![TokenCategory::Separator, TokenCategory::Separator];
    assert!(manager.get_matching_tokens_after(idx, wrong, true).is_none());
}

#[test]
fn test_update_token_category_by_identity() {
    let mut manager = TokenManager::new(tokenize("abc def"));
    let tokens = manager.get_tokens();

    manager.update_token_category(tokens[2].id, TokenCategory::Known(MetadataKind::EpisodeTitle));
    let after = manager.get_tokens();
    assert!(matches!(after[2].category, TokenCategory::Known(MetadataKind::EpisodeTitle)));
    // The literal, shape and enclosure stay as they were.
    assert_eq!(tokens[2].value, after[2].value);
    assert_eq!(tokens[2].kind, after[2].kind);
    assert_eq!(tokens[2].enclosed, after[2].enclosed);
}
