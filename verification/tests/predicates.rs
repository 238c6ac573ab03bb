use anitok::parser::season_range_right_is_episode;
use anitok::token_helper::{
    is_crc32, is_digits, is_hexadecimal_string, is_number_like, is_number_or_like,
    is_ordinal_number, is_video_resolution, number_is_zero_padded, parse_decimal_u32,
};
use anitok::utils::replace_case_insensitive;

#[test]
fn test_digits_predicate() {
    assert!(is_digits("0"));
    assert!(is_digits("0123456789"));
    assert!(!is_digits(""));
    assert!(!is_digits("12a"));
    assert!(!is_digits("12 "));
}

#[test]
fn test_number_like_predicate() {
    assert!(is_number_like("1"));
    assert!(is_number_like("1st"));
    assert!(is_number_like("2nd") == false); // nd is not a recognised ordinal suffix
    assert!(is_number_like("3rd"));
    assert!(is_number_like("4th"));
    assert!(is_number_like("01v2"));
    assert!(is_number_like("05'"));
    assert!(is_number_like("01x05"));
    assert!(!is_number_like("11")); // pure digits are number, not number-like
    assert!(!is_number_like("v2"));
    assert!(!is_number_like("1xx5"));
    assert!(is_number_or_like("11"));
    assert!(is_number_or_like("1v2"));
    assert!(!is_number_or_like("abc"));
}

#[test]
fn test_ordinal_predicate() {
    assert!(is_ordinal_number("4th"));
    assert!(is_ordinal_number("1ST"));
    assert!(is_ordinal_number("23rd"));
    assert!(!is_ordinal_number("2nd"));
    assert!(!is_ordinal_number("x"));
}

#[test]
fn test_zero_padded_predicate() {
    assert!(number_is_zero_padded("01"));
    assert!(number_is_zero_padded("0"));
    assert!(number_is_zero_padded("000123"));
    assert!(!number_is_zero_padded("10"));
    assert!(!number_is_zero_padded("a0"));
    assert!(!number_is_zero_padded(""));
}

#[test]
fn test_checksum_predicate() {
    assert!(is_crc32("0F5F884F"));
    assert!(is_crc32("deadbeef"));
    assert!(!is_crc32("0F5F884"));
    assert!(!is_crc32("0F5F884F0"));
    assert!(!is_crc32("GGGGGGGG"));
    assert!(is_hexadecimal_string("fff"));
    assert!(is_hexadecimal_string("+fff"));
    assert!(!is_hexadecimal_string("0x12"));
    assert!(!is_hexadecimal_string(""));
    // Nine significant hex digits overflow a 32-bit value.
    assert!(!is_hexadecimal_string("100000000"));
    assert!(is_hexadecimal_string("0100000"));
}

#[test]
fn test_resolution_predicate() {
    assert!(is_video_resolution("1280x720"));
    assert!(is_video_resolution("1920x1080"));
    assert!(is_video_resolution("480p"));
    assert!(is_video_resolution("1080P"));
    assert!(is_video_resolution("4K"));
    assert!(is_video_resolution("4k"));
    assert!(!is_video_resolution("1280X720")); // the x is lowercase in this shape
    assert!(!is_video_resolution("x720"));
    assert!(!is_video_resolution("1280x"));
    assert!(!is_video_resolution("720q"));
    assert!(!is_video_resolution("8K"));
}

#[test]
fn test_parse_decimal() {
    assert_eq!(Some(0), parse_decimal_u32("0"));
    assert_eq!(Some(12), parse_decimal_u32("012"));
    assert_eq!(Some(4294967295), parse_decimal_u32("4294967295"));
    assert_eq!(None, parse_decimal_u32("4294967296"));
    assert_eq!(None, parse_decimal_u32("1v2"));
    assert_eq!(None, parse_decimal_u32(""));
}

#[test]
fn test_replace_case_insensitive() {
    assert_eq!("son", replace_case_insensitive("Season", "SEA", ""));
    assert_eq!("bbbb", replace_case_insensitive("aAaA", "a", "b"));
    assert_eq!("word", replace_case_insensitive("Sword", "s", ""));
    assert_eq!("unchanged", replace_case_insensitive("unchanged", "zz", "y"));
    assert_eq!("abc", replace_case_insensitive("abc", "", "y"));
}

#[test]
fn test_season_range_table() {
    // Left unpadded, right padded: always season plus episode.
    assert!(season_range_right_is_episode(false, true, false, Some(3)));
    assert!(season_range_right_is_episode(false, true, true, None));
    // Both padded: the delimiter decides.
    assert!(season_range_right_is_episode(true, true, true, Some(3)));
    assert!(!season_range_right_is_episode(true, true, false, Some(3)));
    // Otherwise only a right value above ten makes an episode.
    assert!(season_range_right_is_episode(false, false, true, Some(11)));
    assert!(!season_range_right_is_episode(false, false, true, Some(10)));
    assert!(season_range_right_is_episode(true, false, false, Some(12)));
    assert!(!season_range_right_is_episode(true, false, true, None));
}
