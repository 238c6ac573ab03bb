use anitok::keyword::KeywordCategory;
use anitok::metadata::MetadataKind;
use anitok::parser::Parser;
use anitok::token::{Token, TokenCategory};
use anitok::tokenizer::{remove_file_extension, tokenize};

#[test]
fn test_parsing() {
    let input = String::from("[HorribleSubs] Tower of Druaga - Sword of Uruk - S01E04 [480p]");
    let tokens = tokenize(&input);
    let mut parser = Parser::new(tokens);
    parser.parse();

    assert!(true);
    println!("{:#?}", parser.token_manager.get_tokens());
}

#[test]
fn test_parsing_00() {
    let input = String::from("[SubsPlease] Jujutsu Kaisen Season 2 - 01 [1080p]");
    let tokens = tokenize(&input);
    let mut parser = Parser::new(tokens);
    parser.parse();

    assert!(true);
    println!("{:#?}", parser.token_manager.get_tokens());
}

#[test]
fn test_parsing_01() {
    let input = String::from("[ST]_Kemono_no_Souja_Erin_-_12_(1280x720_h264)_[0F5F884F].mkv");
    let tokens = tokenize(&input);
    let mut parser = Parser::new(tokens);
    parser.parse();

    assert!(true);
    println!("{:#?}", parser.token_manager.get_tokens());
}

#[test]
fn test_parsing_02() {
    let input = String::from("Violet.Evergarden.The.Movie.1080p.Dual.Audio.BDRip.10.bits.DD.x265-EMBER");
    let tokens = tokenize(&input);
    let mut parser = Parser::new(tokens);
    parser.parse();

    assert!(true);
    println!("{:#?}", parser.token_manager.get_tokens());
}

#[test]
fn test_parsing_03() {
    let input = String::from("[SubsPlease] Jujutsu Kaisen Seasons 01 - 03 [1080p]");
    let tokens = tokenize(&input);
    let mut parser = Parser::new(tokens);
    parser.parse();

    assert!(true);
    println!("{:#?}", parser.token_manager.get_tokens());
}

fn parse(input: &str) -> Vec<Token> {
    let tokens = tokenize(input);
    let mut parser = Parser::new(tokens);
    parser.parse();
    parser.token_manager.get_tokens()
}

fn find_token<'a>(tokens: &'a [Token], value: &str) -> &'a Token {
    tokens
        .iter()
        .find(|t| t.value == value)
        .unwrap_or_else(|| panic!("no atom with literal {:?}", value))
}

fn assert_known(tokens: &[Token], value: &str, kind: MetadataKind) {
    let t = find_token(tokens, value);
    match &t.category {
        TokenCategory::Known(k) => assert_eq!(
            kind, *k,
            "atom {:?} should be known as {:?}, found {:?}",
            value, kind, k
        ),
        other => panic!("atom {:?} should be known, found {:?}", value, other),
    }
}

fn assert_keyword(tokens: &[Token], value: &str, category: KeywordCategory) {
    let t = find_token(tokens, value);
    match &t.category {
        TokenCategory::Keyword(kw) => assert_eq!(
            category, kw.category,
            "atom {:?} should be a {:?} keyword, found {:?}",
            value, category, kw.category
        ),
        other => panic!("atom {:?} should be a keyword, found {:?}", value, other),
    }
}

#[test]
fn test_scenario_combined_season_episode() {
    let tokens = parse("[HorribleSubs] Tower of Druaga - Sword of Uruk - S01E04 [480p]");

    assert_keyword(&tokens, "HorribleSubs", KeywordCategory::ReleaseGroup);
    assert_keyword(&tokens, "S", KeywordCategory::SeasonPrefix);
    assert_known(&tokens, "01", MetadataKind::Season);
    assert_keyword(&tokens, "E", KeywordCategory::EpisodePrefix);
    assert_known(&tokens, "04", MetadataKind::EpisodeNumber);
    assert_known(&tokens, "480p", MetadataKind::VideoResolution);
    // The title words stay unknown for the caller to assemble.
    assert!(matches!(find_token(&tokens, "Tower").category, TokenCategory::Unknown));
    assert!(matches!(find_token(&tokens, "Sword").category, TokenCategory::Unknown));
}

#[test]
fn test_scenario_separated_season() {
    let tokens = parse("[SubsPlease] Jujutsu Kaisen Season 2 - 01 [1080p]");

    assert_keyword(&tokens, "SubsPlease", KeywordCategory::ReleaseGroup);
    assert_keyword(&tokens, "Season", KeywordCategory::SeasonPrefix);
    assert_known(&tokens, "2", MetadataKind::Season);
    assert_known(&tokens, "01", MetadataKind::EpisodeNumber);
    assert_known(&tokens, "1080p", MetadataKind::VideoResolution);
}

#[test]
fn test_scenario_plural_season_range() {
    let tokens = parse("[SubsPlease] Jujutsu Kaisen Seasons 01 - 03 [1080p]");

    // The prefix literal ends in S, so both numbers are seasons.
    assert_known(&tokens, "01", MetadataKind::Season);
    assert_known(&tokens, "03", MetadataKind::Season);
}

#[test]
fn test_scenario_checksum_and_resolution() {
    let input = remove_file_extension("[ST]_Kemono_no_Souja_Erin_-_12_(1280x720_h264)_[0F5F884F].mkv");
    let tokens = parse(&input);

    assert_known(&tokens, "1280x720", MetadataKind::VideoResolution);
    assert_keyword(&tokens, "h264", KeywordCategory::VideoTerm);
    assert_known(&tokens, "0F5F884F", MetadataKind::FileChecksum);
}

#[test]
fn test_scenario_dotted_name() {
    let tokens = parse("Violet.Evergarden.The.Movie.1080p.Dual.Audio.BDRip.10.bits.DD.x265-EMBER");

    assert_keyword(&tokens, "Movie", KeywordCategory::AnimeType);
    assert_known(&tokens, "1080p", MetadataKind::VideoResolution);
    assert_keyword(&tokens, "BDRip", KeywordCategory::Source);
    assert_keyword(&tokens, "x265", KeywordCategory::VideoTerm);
}

#[test]
fn test_scenario_combined_split_in_stream() {
    // OP1v2 is split into the anime-type keyword OP and the number-like 1v2.
    let tokens = parse("OP1v2");

    assert_eq!(2, tokens.len());
    assert_keyword(&tokens, "OP", KeywordCategory::AnimeType);
    let tail = find_token(&tokens, "1v2");
    assert!(matches!(tail.category, TokenCategory::Unknown));
}

#[test]
fn test_scenario_padded_range_with_delimiter() {
    // Both numbers zero-padded and a delimiter right before the second:
    // season plus episode.
    let tokens = parse("Title Season 01 - 03");
    assert_known(&tokens, "01", MetadataKind::Season);
    assert_known(&tokens, "03", MetadataKind::EpisodeNumber);
}

#[test]
fn test_scenario_small_unpadded_range() {
    // Neither number zero-padded and the right one at most ten: a
    // season-to-season range.
    let tokens = parse("Title Season 2 - 5");
    assert_known(&tokens, "2", MetadataKind::Season);
    assert_known(&tokens, "5", MetadataKind::Season);
}

#[test]
fn test_scenario_large_unpadded_range() {
    // Neither number zero-padded but the right one above ten: season plus
    // episode.
    let tokens = parse("Title Season 2 - 12");
    assert_known(&tokens, "2", MetadataKind::Season);
    assert_known(&tokens, "12", MetadataKind::EpisodeNumber);
}

#[test]
fn test_scenario_single_season_number() {
    // No range after the prefix: the single following number is the season.
    let tokens = parse("Title Season 3 Finale");
    assert_known(&tokens, "3", MetadataKind::Season);
}

#[test]
fn test_parse_round_trip_exact() {
    let inputs = [
        "[HorribleSubs] Tower of Druaga - Sword of Uruk - S01E04 [480p]",
        "[SubsPlease] Jujutsu Kaisen Seasons 01 - 03 [1080p]",
        "OP1v2",
        "op1v2",
        "s01e04 of something",
        "Season1 of Title",
    ];
    for input in inputs {
        let tokens = parse(input);
        let rebuilt: String = tokens.iter().map(|t| t.value.as_str()).collect::<Vec<_>>().join("");
        assert_eq!(input, rebuilt);
    }
}
