use anitok::keyword::KeywordKind;
use anitok::token::{Token, TokenCategory, TokenKind};
use anitok::token_helper::extract_season_and_episode;
use anitok::token_manager::TokenManager;
use anitok::tokenizer::tokenize;

#[test]
fn test_valid_episodes() {
    assert_eq!(
        extract_season_and_episode("S01E01"),
        Some(("01".to_string(), "E".to_string(), "01".to_string()))
    );
    assert_eq!(extract_season_and_episode("S01E01'"), None);
    assert_eq!(
        extract_season_and_episode("01E01"),
        Some(("01".to_string(), "E".to_string(), "01".to_string()))
    );
    assert_eq!(
        extract_season_and_episode("S01x01"),
        Some(("01".to_string(), "x".to_string(), "01".to_string()))
    );
    assert_eq!(
        extract_season_and_episode("01x01"),
        Some(("01".to_string(), "x".to_string(), "01".to_string()))
    );
    assert_eq!(
        extract_season_and_episode("03E03v3"),
        Some(("03".to_string(), "E".to_string(), "03v3".to_string()))
    );
    assert_eq!(
        extract_season_and_episode("10E05x2"),
        Some(("10".to_string(), "E".to_string(), "05x2".to_string()))
    );
}

#[test]
fn test_invalid_episodes() {
    assert_eq!(extract_season_and_episode("05E02a"), None);
    assert_eq!(extract_season_and_episode("ABCDEF"), None);
}

#[test]
fn test_identify_keyword() {
    check_identify_keyword_combined("OP1 OVA01 Season1 E1 Ep1", TokenKind::Number);
    check_identify_keyword_combined("OP1v2", TokenKind::NumberLike);
    check_identify_keyword_combined("E01v2", TokenKind::NumberLike);
    check_identify_keyword_combined_or_separated("Season1");
    check_identify_keyword_combined_or_separated("Season 1");
    check_identify_keyword_combined_or_separated("Movie 01");
    check_identify_keyword_combined_or_separated("OVA 01");
    check_identify_keyword_deeply_combined("S01E01", vec![TokenKind::Number, TokenKind::Number]);
    check_identify_keyword_deeply_combined(
        "S01E01v2",
        vec![TokenKind::Number, TokenKind::NumberLike],
    );
    check_identify_keyword_deeply_combined(
        "S01x01v2",
        vec![TokenKind::Number, TokenKind::NumberLike],
    );
}

#[test]
fn test_identify_keyword_01() {
    check_identify_keyword_ordinal_suffix("4th season");
}

#[test]
#[should_panic]
fn test_identify_keyword_panic_00() {
    check_identify_keyword_combined("Sword", TokenKind::String); // should not detect "S" as season prefix
}

#[test]
#[should_panic]
fn test_identify_keyword_panic_01() {
    check_identify_keyword_combined("OPv2", TokenKind::Number);
}

#[test]
#[should_panic]
fn test_identify_keyword_panic_02() {
    check_identify_keyword_combined_or_separated("Season season");
}

fn check_identify_keyword_deeply_combined(input: &str, number_kinds: Vec<TokenKind>) {
    let tokens = tokenize(input);
    let token_manager = TokenManager::new(tokens);
    let managed: Vec<Token> = token_manager.get_tokens();

    let split_tokens = token_manager.identify_keyword(&managed[0]).unwrap();

    println!("----------------------------------------------------");
    println!("Input: {}", input);
    println!("Returned tokens: {:#?}", split_tokens);

    match split_tokens[0].category {
        TokenCategory::Keyword(_) => assert!(true),
        _ => panic!("Expected Keyword, found {:?}", split_tokens[0].category),
    }
    assert_eq!(split_tokens[1].kind, number_kinds[0]);

    match split_tokens[2].category {
        TokenCategory::Keyword(_) => assert!(true),
        _ => panic!("Expected Keyword, found {:?}", split_tokens[0].category),
    }
    assert_eq!(split_tokens[3].kind, number_kinds[1]);
}

fn check_identify_keyword_combined(input: &str, attached_token_expected_kind: TokenKind) {
    let tokens = tokenize(input);
    let token_manager = TokenManager::new(tokens);

    for token in token_manager.get_tokens().iter().filter(|t| t.value != " ") {
        let split_tokens = token_manager.identify_keyword(token).unwrap();

        println!("----------------------------------------------------");
        println!("Input: {}", input);
        println!("Returned tokens: {:#?}", split_tokens);

        match split_tokens[0].category {
            TokenCategory::Keyword(_) => assert!(true),
            _ => panic!("Expected Keyword, found {:?}", split_tokens[0].category),
        }
        assert_eq!(split_tokens[1].kind, attached_token_expected_kind);
    }
}

fn check_identify_keyword_combined_or_separated(input: &str) {
    let tokens = tokenize(input);
    let token_manager = TokenManager::new(tokens);
    let managed: Vec<Token> = token_manager.get_tokens();

    println!("----------------------------------------------------");
    println!("Input: {}", input);
    println!("Token: {:?}", &managed[0]);

    let split_tokens = token_manager.identify_keyword(&managed[0]).unwrap();
    println!("Returned tokens: {:#?}", split_tokens);

    match &split_tokens[0].category {
        TokenCategory::Keyword(keyword) => match keyword.kind {
            KeywordKind::CombinedOrSeparated { .. } => assert!(true),
            KeywordKind::Separated { .. } => assert!(true),
            _ => panic!("Expected combined or separated keyword"),
        },
        _ => panic!("Expected Keyword, found {:?}", split_tokens[0].category),
    }
}

fn check_identify_keyword_ordinal_suffix(input: &str) {
    let tokens = tokenize(input);
    let token_manager = TokenManager::new(tokens);
    let managed: Vec<Token> = token_manager.get_tokens();

    println!("----------------------------------------------------");
    println!("Input: {}", input);

    let ret = token_manager.identify_keyword(&managed[2]).unwrap();
    println!("Returned tokens: {:#?}", ret);

    match &ret[0].category {
        TokenCategory::Keyword(keyword) => match keyword.kind {
            KeywordKind::OrdinalSuffix => assert!(true),
            _ => panic!("Expected ordinal suffix keyword"),
        },
        _ => panic!("Expected Keyword, found {:?}", ret[0].category),
    }
}

#[test]
fn test_identify_splits_op1v2() {
    let tokens = tokenize("OP1v2");
    let token_manager = TokenManager::new(tokens);
    let managed = token_manager.get_tokens();

    let split = token_manager.identify_keyword(&managed[0]).unwrap();
    assert_eq!(2, split.len());
    assert_eq!("OP", split[0].value);
    match &split[0].category {
        TokenCategory::Keyword(kw) => {
            assert_eq!(anitok::keyword::KeywordCategory::AnimeType, kw.category);
            assert!(matches!(kw.kind, KeywordKind::CombinedOrSeparated { .. }));
        }
        other => panic!("Expected keyword, found {:?}", other),
    }
    assert_eq!("1v2", split[1].value);
    assert!(matches!(split[1].category, TokenCategory::Unknown));
    assert_eq!(TokenKind::NumberLike, split[1].kind);
}

#[test]
fn test_identify_prefers_non_standalone() {
    // OVA is both a standalone anime type and a combined-or-separated one;
    // with a number following, the combined-or-separated entry must win.
    let tokens = tokenize("OVA 01");
    let token_manager = TokenManager::new(tokens);
    let managed = token_manager.get_tokens();

    let ret = token_manager.identify_keyword(&managed[0]).unwrap();
    assert_eq!(1, ret.len());
    match &ret[0].category {
        TokenCategory::Keyword(kw) => {
            assert!(matches!(kw.kind, KeywordKind::CombinedOrSeparated { .. }));
        }
        other => panic!("Expected keyword, found {:?}", other),
    }
}
