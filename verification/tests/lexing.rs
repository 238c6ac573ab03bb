use anitok::token::TokenKind;
use anitok::token_manager::TokenManager;
use anitok::tokenizer::{remove_file_extension, tokenize};

#[test]
fn test_remove_extension() {
    let input = String::from("[HorribleSubs] Tower of Druaga - Sword of Uruk - 04 [480p].mkv");

    let input_without_extension = remove_file_extension(&input);

    println!("{:?}", input_without_extension);

    assert_eq!(
        String::from("[HorribleSubs] Tower of Druaga - Sword of Uruk - 04 [480p]"),
        input_without_extension
    )
}

#[test]
fn test_random() {
    let input = String::from("[HorribleSubs]_Tower_of_Druaga_-_Sword_of_Uruk_-_04+Movie_[480p].mkv");

    let input_without_extension = remove_file_extension(&input);

    let tokens = tokenize(&input_without_extension);

    println!("{:#?}", tokens);

    assert!(true)
}

#[test]
fn test_enclosed() {
    let input = String::from("[HorribleSubs]");

    let tokens = tokenize(&input);

    println!("{:#?}", tokens);

    assert_eq!(String::from("HorribleSubs"), tokens[1].value);
    assert!(tokens[1].is_enclosed());
}

#[test]
fn test_new_token_manager() {
    let input = String::from("[HorribleSubs]_Tower_of_Druaga_-_Sword_of_Uruk_-_04+Movie_[480p]");

    let tokens = tokenize(&input);

    let _token_manager = TokenManager::new(tokens);

    assert!(true);
}

#[test]
fn test_token_kind_number_like() {
    let input = String::from("01v2 05' 01x05"); // 1.5 won't work because . is a delimiter

    let tokens = tokenize(&input);

    let token_manager = TokenManager::new(tokens);

    println!("{:#?}", token_manager.get_tokens());

    for token in token_manager.get_tokens() {
        if token.value != " " {
            assert_eq!(TokenKind::NumberLike, token.kind)
        }
    }
}

#[test]
fn test_token_utils() {
    // delimiter skipped
    check_get_token_after("Title - 4th Season", 1, "4th");
    check_get_token_before("Title - 4th Season", 3, "4th");
    check_get_token_after("Season 1", 0, "1");
    check_get_token_after("One Two Three Four", 1, "Three");
}

fn check_get_token_after(input: &str, index: usize, expected_value: &str) {
    let tokens = tokenize(input);
    let token_manager = TokenManager::new(tokens);

    let ret = token_manager.get_token_after(index, true);
    let ret = ret.unwrap();
    println!("{:#?}", ret);
    assert_eq!(expected_value, ret.value);
}

fn check_get_token_before(input: &str, index: usize, expected_value: &str) {
    let tokens = tokenize(input);
    let token_manager = TokenManager::new(tokens);

    let ret = token_manager.get_token_before(index, true);
    let ret = ret.unwrap();
    println!("{:#?}", ret);
    assert_eq!(expected_value, ret.value);
}

#[test]
fn test_round_trip_concatenation() {
    let inputs = [
        "[HorribleSubs] Tower of Druaga - Sword of Uruk - S01E04 [480p]",
        "[ST]_Kemono_no_Souja_Erin_-_12_(1280x720_h264)_[0F5F884F]",
        "Violet.Evergarden.The.Movie.1080p.Dual.Audio.BDRip.10.bits.DD.x265-EMBER",
        "「What」『About』【These】（Brackets）",
    ];
    for input in inputs {
        let tokens = tokenize(input);
        let rebuilt: String = tokens.iter().map(|t| t.value.as_str()).collect::<Vec<_>>().join("");
        assert_eq!(input, rebuilt);
    }
}

#[test]
fn test_enclosure_unterminated_group() {
    // The trailing opener never closes: the last buffered unknown atom is
    // dropped from the enclosed set.
    let tokens = tokenize("[done] leftover [Open-End");
    for t in &tokens {
        match t.value.as_str() {
            "done" => assert!(t.enclosed),
            "leftover" => assert!(!t.enclosed),
            "Open" => assert!(t.enclosed),
            "End" => assert!(!t.enclosed),
            _ => {}
        }
    }
}

#[test]
fn test_tokenize_empty_input() {
    assert!(tokenize("").is_empty());
    assert_eq!("", remove_file_extension(""));
}

#[test]
fn test_remove_extension_edges() {
    // A suffix without extension shape stays.
    assert_eq!(
        "Violet.Evergarden.The.Movie.1080p.Dual.Audio.BDRip.10.bits.DD.x265-EMBER",
        remove_file_extension("Violet.Evergarden.The.Movie.1080p.Dual.Audio.BDRip.10.bits.DD.x265-EMBER")
    );
    // A hidden-file style name keeps its single leading dot.
    assert_eq!(".mkv", remove_file_extension(".mkv"));
    // No dot at all.
    assert_eq!("plain", remove_file_extension("plain"));
    // A numeric suffix is not an extension.
    assert_eq!("Episode.001", remove_file_extension("Episode.001"));
    // A short alphanumeric suffix is.
    assert_eq!("archive", remove_file_extension("archive.7z"));
}
