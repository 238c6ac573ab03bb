//! The immutable keyword dictionary: `(uppercase key, entry)` pairs seeded at
//! construction, with case-insensitive standalone, longest-prefix and
//! all-prefix lookups.

use vstd::prelude::*;
use crate::keyword::{Keyword, KeywordCategory, KeywordKind, KeywordPriority, KeywordView};
use crate::token::TokenKind;
use crate::token_helper::{eq_upper, is_prefix_upper};

verus! {

/// The dictionary. It is seeded once at construction and never changes:
/// every lookup takes it by shared reference and is specified as a function
/// of the dictionary's model and the probed literal alone, so lookups are
/// referentially transparent after construction.
#[derive(Debug)]
pub struct KeywordManager {
    keywords: Vec<(String, Keyword)>,
}

/// Model of the dictionary: the ordered sequence of `(key, entry)` pairs.
pub open spec fn entries_model(v: Seq<(String, Keyword)>) -> Seq<(Seq<char>, KeywordView)> {
    Seq::new(v.len(), |i: int| (v[i].0@, v[i].1@))
}

impl View for KeywordManager {
    type V = Seq<(Seq<char>, KeywordView)>;

    closed spec fn view(&self) -> Seq<(Seq<char>, KeywordView)> {
        entries_model(self.keywords@)
    }
}

/// Every key is the entry's own literal: the dictionary maps a literal to
/// what that literal means.
pub open spec fn dict_wf(d: Seq<(Seq<char>, KeywordView)>) -> bool {
    forall|i: int| 0 <= i < d.len() ==> (#[trigger] d[i]).0 == d[i].1.value
}

/// One homogeneous group of seed rows: each literal keyed by itself with
/// the group's category, kind and priority.
pub open spec fn seed_rows(
    category: KeywordCategory,
    kind: KeywordKind,
    priority: KeywordPriority,
    lits: Seq<Seq<char>>,
) -> Seq<(Seq<char>, KeywordView)> {
    Seq::new(
        lits.len(),
        |i: int| (lits[i], KeywordView { value: lits[i], category, kind, priority }),
    )
}

/// The full dictionary seed, group by group, in insertion order. Duplicate
/// literals across groups are intended: a literal may carry several senses
/// (OVA is a standalone and a combined-or-separated anime type, AAC an
/// audio term and a file extension, SEASON both a combined-or-separated
/// and an ordinal-suffix season prefix).
pub open spec fn seed_spec() -> Seq<(Seq<char>, KeywordView)> {
    // Seasons
    seed_rows(
        KeywordCategory::SeasonPrefix,
        KeywordKind::Combined { next_token_kind: TokenKind::NumberLike },
        KeywordPriority::Normal,
        seq!["S"@],
    ) +
    seed_rows(
        KeywordCategory::SeasonPrefix,
        KeywordKind::CombinedOrSeparated { next_token_kind: TokenKind::NumberLike },
        KeywordPriority::Normal,
        seq!["SEASON"@, "SAISON"@, "SEASONS"@, "SAISONS"@],
    ) +
    seed_rows(
        KeywordCategory::SeasonPrefix,
        KeywordKind::OrdinalSuffix,
        KeywordPriority::Normal,
        seq!["SEASON"@, "SAISON"@, "SEASONS"@, "SAISONS"@],
    ) +
    // Episodes
    seed_rows(
        KeywordCategory::EpisodePrefix,
        KeywordKind::CombinedOrSeparated { next_token_kind: TokenKind::NumberLike },
        KeywordPriority::Normal,
        seq!["EPISODE"@, "EPISODE."@, "EPISODES"@, "CAPITULO"@, "EPISODIO"@, "FOLGE"@],
    ) +
    seed_rows(
        KeywordCategory::EpisodePrefix,
        KeywordKind::Combined { next_token_kind: TokenKind::NumberLike },
        KeywordPriority::Normal,
        seq!["E"@],
    ) +
    seed_rows(
        KeywordCategory::EpisodePrefix,
        KeywordKind::CombinedOrSeparated { next_token_kind: TokenKind::NumberLike },
        KeywordPriority::Normal,
        seq!["EP"@, "EP."@, "EPS"@, "EPS."@],
    ) +
    // Anime type
    seed_rows(
        KeywordCategory::AnimeType,
        KeywordKind::CombinedOrSeparated { next_token_kind: TokenKind::NumberLike },
        KeywordPriority::Normal,
        seq![
            "MOVIE"@,
            "OAD"@,
            "OAV"@,
            "ONA"@,
            "OVA"@,
            "SPECIAL"@,
            "SPECIALS"@,
            "ED"@,
            "ENDING"@,
            "NCED"@,
            "NCOP"@,
            "OPED"@,
            "OP"@,
            "OPENING"@,
            "TV"@,
            "番外編"@,
            "總集編"@,
            "映像特典"@,
            "特典"@,
            "特典アニメ"@,
        ],
    ) +
    seed_rows(
        KeywordCategory::AnimeType,
        KeywordKind::Standalone,
        KeywordPriority::Normal,
        seq!["MOVIE"@, "GEKIJOUBAN"@, "ONA"@, "OVA"@, "OAV"@, "OAD"@],
    ) +
    seed_rows(
        KeywordCategory::AnimeType,
        KeywordKind::Standalone,
        KeywordPriority::Low,
        seq![
            "ED"@,
            "ENDING"@,
            "NCED"@,
            "NCOP"@,
            "OPED"@,
            "OP"@,
            "OPENING"@,
            "PREVIEW"@,
            "PV"@,
            "EVENT"@,
            "TOKUTEN"@,
            "LOGO"@,
            "CM"@,
            "SPOT"@,
            "MENU"@,
        ],
    ) +
    // Audio
    seed_rows(
        KeywordCategory::AudioTerm,
        KeywordKind::Standalone,
        KeywordPriority::Normal,
        seq![
            "2.0CH"@,
            "2CH"@,
            "5.1"@,
            "5.1CH"@,
            "DTS"@,
            "DTS-ES"@,
            "DTS5.1"@,
            "TRUEHD5.1"@,
            "AAC"@,
            "AACX2"@,
            "AACX3"@,
            "AACX4"@,
            "AC3"@,
            "EAC3"@,
            "E-AC-3"@,
            "FLAC"@,
            "FLACX2"@,
            "FLACX3"@,
            "FLACX4"@,
            "LOSSLESS"@,
            "MP3"@,
            "OGG"@,
            "VORBIS"@,
            "DD2"@,
            "DD2.0"@,
            "DUALAUDIO"@,
            "DUAL-AUDIO"@,
        ],
    ) +
    // Devices
    seed_rows(
        KeywordCategory::DeviceCompat,
        KeywordKind::Standalone,
        KeywordPriority::Normal,
        seq!["IPAD3"@, "IPHONE5"@, "IPOD"@, "PS3"@, "XBOX"@, "XBOX360"@],
    ) +
    seed_rows(
        KeywordCategory::DeviceCompat,
        KeywordKind::Standalone,
        KeywordPriority::Low,
        seq!["ANDROID"@],
    ) +
    // File extensions
    seed_rows(
        KeywordCategory::FileExtension,
        KeywordKind::Standalone,
        KeywordPriority::Normal,
        seq![
            "3GP"@,
            "AVI"@,
            "DIVX"@,
            "FLV"@,
            "M2TS"@,
            "MKV"@,
            "MOV"@,
            "MP4"@,
            "MPG"@,
            "OGM"@,
            "RM"@,
            "RMVB"@,
            "TS"@,
            "WEBM"@,
            "WMV"@,
        ],
    ) +
    seed_rows(
        KeywordCategory::FileExtension,
        KeywordKind::Standalone,
        KeywordPriority::Low,
        seq![
            "AAC"@,
            "AIFF"@,
            "FLAC"@,
            "M4A"@,
            "MP3"@,
            "MKA"@,
            "OGG"@,
            "WAV"@,
            "WMA"@,
            "7Z"@,
            "RAR"@,
            "ZIP"@,
            "ASS"@,
            "SRT"@,
        ],
    ) +
    // Languages
    seed_rows(
        KeywordCategory::Language,
        KeywordKind::Standalone,
        KeywordPriority::Normal,
        seq!["ENG"@, "ENGLISH"@, "ESPANOL"@, "JAP"@, "PT-BR"@, "SPANISH"@, "VOSTFR"@],
    ) +
    seed_rows(
        KeywordCategory::Language,
        KeywordKind::Standalone,
        KeywordPriority::Low,
        seq!["ESP"@, "ITA"@],
    ) +
    // Release information
    seed_rows(
        KeywordCategory::ReleaseInfo,
        KeywordKind::Standalone,
        KeywordPriority::Normal,
        seq![
            "REMASTER"@,
            "REMASTERED"@,
            "UNCENSORED"@,
            "UNCUT"@,
            "TS"@,
            "VFR"@,
            "WIDESCREEN"@,
            "WS"@,
            "BATCH"@,
            "COMPLETE"@,
            "PATCH"@,
            "REMUX"@,
        ],
    ) +
    seed_rows(
        KeywordCategory::ReleaseInfo,
        KeywordKind::Standalone,
        KeywordPriority::Low,
        seq!["END"@, "FINAL"@],
    ) +
    // Release groups
    seed_rows(
        KeywordCategory::ReleaseGroup,
        KeywordKind::Standalone,
        KeywordPriority::Normal,
        seq!["THORA"@, "HORRIBLESUBS"@, "ERAI-RAWS"@, "SUBSPLEASE"@],
    ) +
    // Release versions
    seed_rows(
        KeywordCategory::ReleaseVersion,
        KeywordKind::Standalone,
        KeywordPriority::Low,
        seq!["V0"@, "V1"@, "V2"@, "V3"@, "V4"@],
    ) +
    // Sources
    seed_rows(
        KeywordCategory::Source,
        KeywordKind::Standalone,
        KeywordPriority::Normal,
        seq![
            "BD"@,
            "BDRIP"@,
            "BLURAY"@,
            "BLU-RAY"@,
            "DVD"@,
            "DVD5"@,
            "DVD9"@,
            "DVD-R2J"@,
            "DVDRIP"@,
            "DVD-RIP"@,
            "R2DVD"@,
            "R2J"@,
            "R2JDVD"@,
            "R2JDVDRIP"@,
            "HDTV"@,
            "HDTVRIP"@,
            "TVRIP"@,
            "TV-RIP"@,
            "WEBCAST"@,
            "WEBRIP"@,
        ],
    ) +
    // Subtitles
    seed_rows(
        KeywordCategory::Subtitles,
        KeywordKind::Standalone,
        KeywordPriority::Normal,
        seq![
            "ASS"@,
            "BIG5"@,
            "DUB"@,
            "DUBBED"@,
            "HARDSUB"@,
            "HARDSUBS"@,
            "RAW"@,
            "SOFTSUB"@,
            "SOFTSUBS"@,
            "SUB"@,
            "SUBBED"@,
            "SUBTITLED"@,
            "MULTISUB"@,
        ],
    ) +
    // Video terms
    seed_rows(
        KeywordCategory::VideoTerm,
        KeywordKind::Standalone,
        KeywordPriority::Normal,
        seq![
            "23.976FPS"@,
            "24FPS"@,
            "29.97FPS"@,
            "30FPS"@,
            "60FPS"@,
            "120FPS"@,
            "8BIT"@,
            "8-BIT"@,
            "10BIT"@,
            "10BITS"@,
            "10-BIT"@,
            "10-BITS"@,
            "HI10"@,
            "HI10P"@,
            "HI444"@,
            "HI444P"@,
            "HI444PP"@,
            "H264"@,
            "H265"@,
            "H.264"@,
            "H.265"@,
            "X264"@,
            "X265"@,
            "X.264"@,
            "AVC"@,
            "HEVC"@,
            "HEVC2"@,
            "DIVX"@,
            "DIVX5"@,
            "DIVX6"@,
            "XVID"@,
            "AV1"@,
            "HDR"@,
            "DV"@,
            "DOLBY VISION"@,
            "AVI"@,
            "RMVB"@,
            "WMV"@,
            "WMV3"@,
            "WMV9"@,
            "HQ"@,
            "LQ"@,
            "HD"@,
            "SD"@,
            "4K"@,
        ],
    ) +
    // Volume prefixes
    seed_rows(
        KeywordCategory::VolumePrefix,
        KeywordKind::CombinedOrSeparated { next_token_kind: TokenKind::NumberLike },
        KeywordPriority::Normal,
        seq!["VOL"@, "VOL."@, "VOLUME"@, "VOLUMES"@],
    ) +
    // Part prefixes
    seed_rows(
        KeywordCategory::PartPrefix,
        KeywordKind::CombinedOrSeparated { next_token_kind: TokenKind::NumberLike },
        KeywordPriority::Normal,
        seq!["PART"@, "PT."@],
    )
}

/// A standalone entry whose key equals the probed literal, case-insensitively.
pub open spec fn standalone_matches(e: (Seq<char>, KeywordView), v: Seq<char>) -> bool {
    e.1.kind is Standalone && eq_upper(e.0, v)
}

/// A combined, combined-or-separated or ordinal-suffix entry whose key is a
/// prefix of the probed literal, case-insensitively.
pub open spec fn nonstandalone_prefix_matches(e: (Seq<char>, KeywordView), v: Seq<char>) -> bool {
    &&& (e.1.kind is Combined || e.1.kind is CombinedOrSeparated || e.1.kind is OrdinalSuffix)
    &&& is_prefix_upper(e.0, v)
}

/// First standalone entry whose key equals the literal.
pub open spec fn find_standalone_spec(d: Seq<(Seq<char>, KeywordView)>, v: Seq<char>) -> Option<
    KeywordView,
>
    decreases d.len(),
{
    if d.len() == 0 {
        None
    } else if standalone_matches(d[0], v) {
        Some(d[0].1)
    } else {
        find_standalone_spec(d.drop_first(), v)
    }
}

/// The non-standalone prefix match the dictionary prefers: scanning in order,
/// a later match replaces the held one when its key is at least as long, so
/// the result is the last of the longest-key matches.
pub open spec fn find_longest_spec(d: Seq<(Seq<char>, KeywordView)>, v: Seq<char>) -> Option<
    (Seq<char>, KeywordView),
>
    decreases d.len(),
{
    if d.len() == 0 {
        None
    } else {
        let prev = find_longest_spec(d.drop_last(), v);
        if nonstandalone_prefix_matches(d.last(), v) && (prev is None || d.last().0.len()
            >= prev->Some_0.0.len()) {
            Some(d.last())
        } else {
            prev
        }
    }
}

/// All entries, of any kind, whose key is a prefix of the literal, in
/// dictionary order.
pub open spec fn find_many_spec(d: Seq<(Seq<char>, KeywordView)>, v: Seq<char>) -> Seq<KeywordView>
    decreases d.len(),
{
    if d.len() == 0 {
        Seq::empty()
    } else {
        find_many_spec(d.drop_last(), v) + if is_prefix_upper(d.last().0, v) {
            seq![d.last().1]
        } else {
            Seq::empty()
        }
    }
}

/// Model of a vector of entries.
pub open spec fn kws_model(v: Seq<Keyword>) -> Seq<KeywordView> {
    Seq::new(v.len(), |i: int| v[i]@)
}

impl KeywordManager {
    /// Builds the dictionary with the full seed of entries, and nothing
    /// else: the result is the seed table itself.
    #[verifier::rlimit(100)]
    pub fn new() -> (r: KeywordManager)
        ensures
            r@ == seed_spec(),
            dict_wf(r@),
            r@.len() == 240,
    {
        let mut kwm = KeywordManager { keywords: Vec::new() };
        let ghost mut expected: Seq<(Seq<char>, KeywordView)> = Seq::empty();
        proof {
            assert(kwm@ =~= expected);
        }
        // Seasons
        kwm.add_group(
            KeywordCategory::SeasonPrefix,
            KeywordKind::Combined { next_token_kind: TokenKind::NumberLike },
            KeywordPriority::Normal,
            vec!["S"],
        );
        proof {
            expected = expected + seed_rows(
                KeywordCategory::SeasonPrefix,
                KeywordKind::Combined { next_token_kind: TokenKind::NumberLike },
                KeywordPriority::Normal,
                seq!["S"@],
            );
            assert(kwm@ =~= expected);
        }
        kwm.add_group(
            KeywordCategory::SeasonPrefix,
            KeywordKind::CombinedOrSeparated { next_token_kind: TokenKind::NumberLike },
            KeywordPriority::Normal,
            vec!["SEASON", "SAISON", "SEASONS", "SAISONS"],
        );
        proof {
            expected = expected + seed_rows(
                KeywordCategory::SeasonPrefix,
                KeywordKind::CombinedOrSeparated { next_token_kind: TokenKind::NumberLike },
                KeywordPriority::Normal,
                seq!["SEASON"@, "SAISON"@, "SEASONS"@, "SAISONS"@],
            );
            assert(kwm@ =~= expected);
        }
        kwm.add_group(
            KeywordCategory::SeasonPrefix,
            KeywordKind::OrdinalSuffix,
            KeywordPriority::Normal,
            vec!["SEASON", "SAISON", "SEASONS", "SAISONS"],
        );
        proof {
            expected = expected + seed_rows(
                KeywordCategory::SeasonPrefix,
                KeywordKind::OrdinalSuffix,
                KeywordPriority::Normal,
                seq!["SEASON"@, "SAISON"@, "SEASONS"@, "SAISONS"@],
            );
            assert(kwm@ =~= expected);
        }
        // Episodes
        kwm.add_group(
            KeywordCategory::EpisodePrefix,
            KeywordKind::CombinedOrSeparated { next_token_kind: TokenKind::NumberLike },
            KeywordPriority::Normal,
            vec!["EPISODE", "EPISODE.", "EPISODES", "CAPITULO", "EPISODIO", "FOLGE"],
        );
        proof {
            expected = expected + seed_rows(
                KeywordCategory::EpisodePrefix,
                KeywordKind::CombinedOrSeparated { next_token_kind: TokenKind::NumberLike },
                KeywordPriority::Normal,
                seq!["EPISODE"@, "EPISODE."@, "EPISODES"@, "CAPITULO"@, "EPISODIO"@, "FOLGE"@],
            );
            assert(kwm@ =~= expected);
        }
        kwm.add_group(
            KeywordCategory::EpisodePrefix,
            KeywordKind::Combined { next_token_kind: TokenKind::NumberLike },
            KeywordPriority::Normal,
            vec!["E"],
        );
        proof {
            expected = expected + seed_rows(
                KeywordCategory::EpisodePrefix,
                KeywordKind::Combined { next_token_kind: TokenKind::NumberLike },
                KeywordPriority::Normal,
                seq!["E"@],
            );
            assert(kwm@ =~= expected);
        }
        kwm.add_group(
            KeywordCategory::EpisodePrefix,
            KeywordKind::CombinedOrSeparated { next_token_kind: TokenKind::NumberLike },
            KeywordPriority::Normal,
            vec!["EP", "EP.", "EPS", "EPS."],
        );
        proof {
            expected = expected + seed_rows(
                KeywordCategory::EpisodePrefix,
                KeywordKind::CombinedOrSeparated { next_token_kind: TokenKind::NumberLike },
                KeywordPriority::Normal,
                seq!["EP"@, "EP."@, "EPS"@, "EPS."@],
            );
            assert(kwm@ =~= expected);
        }
        // Anime type
        kwm.add_group(
            KeywordCategory::AnimeType,
            KeywordKind::CombinedOrSeparated { next_token_kind: TokenKind::NumberLike },
            KeywordPriority::Normal,
            vec![
                "MOVIE",
                "OAD",
                "OAV",
                "ONA",
                "OVA",
                "SPECIAL",
                "SPECIALS",
                "ED",
                "ENDING",
                "NCED",
                "NCOP",
                "OPED",
                "OP",
                "OPENING",
                "TV",
                "番外編",
                "總集編",
                "映像特典",
                "特典",
                "特典アニメ",
            ],
        );
        proof {
            expected = expected + seed_rows(
                KeywordCategory::AnimeType,
                KeywordKind::CombinedOrSeparated { next_token_kind: TokenKind::NumberLike },
                KeywordPriority::Normal,
                seq![
                    "MOVIE"@,
                    "OAD"@,
                    "OAV"@,
                    "ONA"@,
                    "OVA"@,
                    "SPECIAL"@,
                    "SPECIALS"@,
                    "ED"@,
                    "ENDING"@,
                    "NCED"@,
                    "NCOP"@,
                    "OPED"@,
                    "OP"@,
                    "OPENING"@,
                    "TV"@,
                    "番外編"@,
                    "總集編"@,
                    "映像特典"@,
                    "特典"@,
                    "特典アニメ"@,
                ],
            );
            assert(kwm@ =~= expected);
        }
        kwm.add_group(
            KeywordCategory::AnimeType,
            KeywordKind::Standalone,
            KeywordPriority::Normal,
            vec!["MOVIE", "GEKIJOUBAN", "ONA", "OVA", "OAV", "OAD"],
        );
        proof {
            expected = expected + seed_rows(
                KeywordCategory::AnimeType,
                KeywordKind::Standalone,
                KeywordPriority::Normal,
                seq!["MOVIE"@, "GEKIJOUBAN"@, "ONA"@, "OVA"@, "OAV"@, "OAD"@],
            );
            assert(kwm@ =~= expected);
        }
        kwm.add_group(
            KeywordCategory::AnimeType,
            KeywordKind::Standalone,
            KeywordPriority::Low,
            vec![
                "ED",
                "ENDING",
                "NCED",
                "NCOP",
                "OPED",
                "OP",
                "OPENING",
                "PREVIEW",
                "PV",
                "EVENT",
                "TOKUTEN",
                "LOGO",
                "CM",
                "SPOT",
                "MENU",
            ],
        );
        proof {
            expected = expected + seed_rows(
                KeywordCategory::AnimeType,
                KeywordKind::Standalone,
                KeywordPriority::Low,
                seq![
                    "ED"@,
                    "ENDING"@,
                    "NCED"@,
                    "NCOP"@,
                    "OPED"@,
                    "OP"@,
                    "OPENING"@,
                    "PREVIEW"@,
                    "PV"@,
                    "EVENT"@,
                    "TOKUTEN"@,
                    "LOGO"@,
                    "CM"@,
                    "SPOT"@,
                    "MENU"@,
                ],
            );
            assert(kwm@ =~= expected);
        }
        // Audio
        kwm.add_group(
            KeywordCategory::AudioTerm,
            KeywordKind::Standalone,
            KeywordPriority::Normal,
            vec![
                "2.0CH",
                "2CH",
                "5.1",
                "5.1CH",
                "DTS",
                "DTS-ES",
                "DTS5.1",
                "TRUEHD5.1",
                "AAC",
                "AACX2",
                "AACX3",
                "AACX4",
                "AC3",
                "EAC3",
                "E-AC-3",
                "FLAC",
                "FLACX2",
                "FLACX3",
                "FLACX4",
                "LOSSLESS",
                "MP3",
                "OGG",
                "VORBIS",
                "DD2",
                "DD2.0",
                "DUALAUDIO",
                "DUAL-AUDIO",
            ],
        );
        proof {
            expected = expected + seed_rows(
                KeywordCategory::AudioTerm,
                KeywordKind::Standalone,
                KeywordPriority::Normal,
                seq![
                    "2.0CH"@,
                    "2CH"@,
                    "5.1"@,
                    "5.1CH"@,
                    "DTS"@,
                    "DTS-ES"@,
                    "DTS5.1"@,
                    "TRUEHD5.1"@,
                    "AAC"@,
                    "AACX2"@,
                    "AACX3"@,
                    "AACX4"@,
                    "AC3"@,
                    "EAC3"@,
                    "E-AC-3"@,
                    "FLAC"@,
                    "FLACX2"@,
                    "FLACX3"@,
                    "FLACX4"@,
                    "LOSSLESS"@,
                    "MP3"@,
                    "OGG"@,
                    "VORBIS"@,
                    "DD2"@,
                    "DD2.0"@,
                    "DUALAUDIO"@,
                    "DUAL-AUDIO"@,
                ],
            );
            assert(kwm@ =~= expected);
        }
        // Devices
        kwm.add_group(
            KeywordCategory::DeviceCompat,
            KeywordKind::Standalone,
            KeywordPriority::Normal,
            vec!["IPAD3", "IPHONE5", "IPOD", "PS3", "XBOX", "XBOX360"],
        );
        proof {
            expected = expected + seed_rows(
                KeywordCategory::DeviceCompat,
                KeywordKind::Standalone,
                KeywordPriority::Normal,
                seq!["IPAD3"@, "IPHONE5"@, "IPOD"@, "PS3"@, "XBOX"@, "XBOX360"@],
            );
            assert(kwm@ =~= expected);
        }
        kwm.add_group(
            KeywordCategory::DeviceCompat,
            KeywordKind::Standalone,
            KeywordPriority::Low,
            vec!["ANDROID"],
        );
        proof {
            expected = expected + seed_rows(
                KeywordCategory::DeviceCompat,
                KeywordKind::Standalone,
                KeywordPriority::Low,
                seq!["ANDROID"@],
            );
            assert(kwm@ =~= expected);
        }
        // File extensions
        kwm.add_group(
            KeywordCategory::FileExtension,
            KeywordKind::Standalone,
            KeywordPriority::Normal,
            vec![
                "3GP",
                "AVI",
                "DIVX",
                "FLV",
                "M2TS",
                "MKV",
                "MOV",
                "MP4",
                "MPG",
                "OGM",
                "RM",
                "RMVB",
                "TS",
                "WEBM",
                "WMV",
            ],
        );
        proof {
            expected = expected + seed_rows(
                KeywordCategory::FileExtension,
                KeywordKind::Standalone,
                KeywordPriority::Normal,
                seq![
                    "3GP"@,
                    "AVI"@,
                    "DIVX"@,
                    "FLV"@,
                    "M2TS"@,
                    "MKV"@,
                    "MOV"@,
                    "MP4"@,
                    "MPG"@,
                    "OGM"@,
                    "RM"@,
                    "RMVB"@,
                    "TS"@,
                    "WEBM"@,
                    "WMV"@,
                ],
            );
            assert(kwm@ =~= expected);
        }
        kwm.add_group(
            KeywordCategory::FileExtension,
            KeywordKind::Standalone,
            KeywordPriority::Low,
            vec![
                "AAC",
                "AIFF",
                "FLAC",
                "M4A",
                "MP3",
                "MKA",
                "OGG",
                "WAV",
                "WMA",
                "7Z",
                "RAR",
                "ZIP",
                "ASS",
                "SRT",
            ],
        );
        proof {
            expected = expected + seed_rows(
                KeywordCategory::FileExtension,
                KeywordKind::Standalone,
                KeywordPriority::Low,
                seq![
                    "AAC"@,
                    "AIFF"@,
                    "FLAC"@,
                    "M4A"@,
                    "MP3"@,
                    "MKA"@,
                    "OGG"@,
                    "WAV"@,
                    "WMA"@,
                    "7Z"@,
                    "RAR"@,
                    "ZIP"@,
                    "ASS"@,
                    "SRT"@,
                ],
            );
            assert(kwm@ =~= expected);
        }
        // Languages
        kwm.add_group(
            KeywordCategory::Language,
            KeywordKind::Standalone,
            KeywordPriority::Normal,
            vec!["ENG", "ENGLISH", "ESPANOL", "JAP", "PT-BR", "SPANISH", "VOSTFR"],
        );
        proof {
            expected = expected + seed_rows(
                KeywordCategory::Language,
                KeywordKind::Standalone,
                KeywordPriority::Normal,
                seq!["ENG"@, "ENGLISH"@, "ESPANOL"@, "JAP"@, "PT-BR"@, "SPANISH"@, "VOSTFR"@],
            );
            assert(kwm@ =~= expected);
        }
        kwm.add_group(
            KeywordCategory::Language,
            KeywordKind::Standalone,
            KeywordPriority::Low,
            vec!["ESP", "ITA"],
        );
        proof {
            expected = expected + seed_rows(
                KeywordCategory::Language,
                KeywordKind::Standalone,
                KeywordPriority::Low,
                seq!["ESP"@, "ITA"@],
            );
            assert(kwm@ =~= expected);
        }
        // Release information
        kwm.add_group(
            KeywordCategory::ReleaseInfo,
            KeywordKind::Standalone,
            KeywordPriority::Normal,
            vec![
                "REMASTER",
                "REMASTERED",
                "UNCENSORED",
                "UNCUT",
                "TS",
                "VFR",
                "WIDESCREEN",
                "WS",
                "BATCH",
                "COMPLETE",
                "PATCH",
                "REMUX",
            ],
        );
        proof {
            expected = expected + seed_rows(
                KeywordCategory::ReleaseInfo,
                KeywordKind::Standalone,
                KeywordPriority::Normal,
                seq![
                    "REMASTER"@,
                    "REMASTERED"@,
                    "UNCENSORED"@,
                    "UNCUT"@,
                    "TS"@,
                    "VFR"@,
                    "WIDESCREEN"@,
                    "WS"@,
                    "BATCH"@,
                    "COMPLETE"@,
                    "PATCH"@,
                    "REMUX"@,
                ],
            );
            assert(kwm@ =~= expected);
        }
        kwm.add_group(
            KeywordCategory::ReleaseInfo,
            KeywordKind::Standalone,
            KeywordPriority::Low,
            vec!["END", "FINAL"],
        );
        proof {
            expected = expected + seed_rows(
                KeywordCategory::ReleaseInfo,
                KeywordKind::Standalone,
                KeywordPriority::Low,
                seq!["END"@, "FINAL"@],
            );
            assert(kwm@ =~= expected);
        }
        // Release groups
        kwm.add_group(
            KeywordCategory::ReleaseGroup,
            KeywordKind::Standalone,
            KeywordPriority::Normal,
            vec!["THORA", "HORRIBLESUBS", "ERAI-RAWS", "SUBSPLEASE"],
        );
        proof {
            expected = expected + seed_rows(
                KeywordCategory::ReleaseGroup,
                KeywordKind::Standalone,
                KeywordPriority::Normal,
                seq!["THORA"@, "HORRIBLESUBS"@, "ERAI-RAWS"@, "SUBSPLEASE"@],
            );
            assert(kwm@ =~= expected);
        }
        // Release versions
        kwm.add_group(
            KeywordCategory::ReleaseVersion,
            KeywordKind::Standalone,
            KeywordPriority::Low,
            vec!["V0", "V1", "V2", "V3", "V4"],
        );
        proof {
            expected = expected + seed_rows(
                KeywordCategory::ReleaseVersion,
                KeywordKind::Standalone,
                KeywordPriority::Low,
                seq!["V0"@, "V1"@, "V2"@, "V3"@, "V4"@],
            );
            assert(kwm@ =~= expected);
        }
        // Sources
        kwm.add_group(
            KeywordCategory::Source,
            KeywordKind::Standalone,
            KeywordPriority::Normal,
            vec![
                "BD",
                "BDRIP",
                "BLURAY",
                "BLU-RAY",
                "DVD",
                "DVD5",
                "DVD9",
                "DVD-R2J",
                "DVDRIP",
                "DVD-RIP",
                "R2DVD",
                "R2J",
                "R2JDVD",
                "R2JDVDRIP",
                "HDTV",
                "HDTVRIP",
                "TVRIP",
                "TV-RIP",
                "WEBCAST",
                "WEBRIP",
            ],
        );
        proof {
            expected = expected + seed_rows(
                KeywordCategory::Source,
                KeywordKind::Standalone,
                KeywordPriority::Normal,
                seq![
                    "BD"@,
                    "BDRIP"@,
                    "BLURAY"@,
                    "BLU-RAY"@,
                    "DVD"@,
                    "DVD5"@,
                    "DVD9"@,
                    "DVD-R2J"@,
                    "DVDRIP"@,
                    "DVD-RIP"@,
                    "R2DVD"@,
                    "R2J"@,
                    "R2JDVD"@,
                    "R2JDVDRIP"@,
                    "HDTV"@,
                    "HDTVRIP"@,
                    "TVRIP"@,
                    "TV-RIP"@,
                    "WEBCAST"@,
                    "WEBRIP"@,
                ],
            );
            assert(kwm@ =~= expected);
        }
        // Subtitles
        kwm.add_group(
            KeywordCategory::Subtitles,
            KeywordKind::Standalone,
            KeywordPriority::Normal,
            vec![
                "ASS",
                "BIG5",
                "DUB",
                "DUBBED",
                "HARDSUB",
                "HARDSUBS",
                "RAW",
                "SOFTSUB",
                "SOFTSUBS",
                "SUB",
                "SUBBED",
                "SUBTITLED",
                "MULTISUB",
            ],
        );
        proof {
            expected = expected + seed_rows(
                KeywordCategory::Subtitles,
                KeywordKind::Standalone,
                KeywordPriority::Normal,
                seq![
                    "ASS"@,
                    "BIG5"@,
                    "DUB"@,
                    "DUBBED"@,
                    "HARDSUB"@,
                    "HARDSUBS"@,
                    "RAW"@,
                    "SOFTSUB"@,
                    "SOFTSUBS"@,
                    "SUB"@,
                    "SUBBED"@,
                    "SUBTITLED"@,
                    "MULTISUB"@,
                ],
            );
            assert(kwm@ =~= expected);
        }
        // Video terms
        kwm.add_group(
            KeywordCategory::VideoTerm,
            KeywordKind::Standalone,
            KeywordPriority::Normal,
            vec![
                "23.976FPS",
                "24FPS",
                "29.97FPS",
                "30FPS",
                "60FPS",
                "120FPS",
                "8BIT",
                "8-BIT",
                "10BIT",
                "10BITS",
                "10-BIT",
                "10-BITS",
                "HI10",
                "HI10P",
                "HI444",
                "HI444P",
                "HI444PP",
                "H264",
                "H265",
                "H.264",
                "H.265",
                "X264",
                "X265",
                "X.264",
                "AVC",
                "HEVC",
                "HEVC2",
                "DIVX",
                "DIVX5",
                "DIVX6",
                "XVID",
                "AV1",
                "HDR",
                "DV",
                "DOLBY VISION",
                "AVI",
                "RMVB",
                "WMV",
                "WMV3",
                "WMV9",
                "HQ",
                "LQ",
                "HD",
                "SD",
                "4K",
            ],
        );
        proof {
            expected = expected + seed_rows(
                KeywordCategory::VideoTerm,
                KeywordKind::Standalone,
                KeywordPriority::Normal,
                seq![
                    "23.976FPS"@,
                    "24FPS"@,
                    "29.97FPS"@,
                    "30FPS"@,
                    "60FPS"@,
                    "120FPS"@,
                    "8BIT"@,
                    "8-BIT"@,
                    "10BIT"@,
                    "10BITS"@,
                    "10-BIT"@,
                    "10-BITS"@,
                    "HI10"@,
                    "HI10P"@,
                    "HI444"@,
                    "HI444P"@,
                    "HI444PP"@,
                    "H264"@,
                    "H265"@,
                    "H.264"@,
                    "H.265"@,
                    "X264"@,
                    "X265"@,
                    "X.264"@,
                    "AVC"@,
                    "HEVC"@,
                    "HEVC2"@,
                    "DIVX"@,
                    "DIVX5"@,
                    "DIVX6"@,
                    "XVID"@,
                    "AV1"@,
                    "HDR"@,
                    "DV"@,
                    "DOLBY VISION"@,
                    "AVI"@,
                    "RMVB"@,
                    "WMV"@,
                    "WMV3"@,
                    "WMV9"@,
                    "HQ"@,
                    "LQ"@,
                    "HD"@,
                    "SD"@,
                    "4K"@,
                ],
            );
            assert(kwm@ =~= expected);
        }
        // Volume prefixes
        kwm.add_group(
            KeywordCategory::VolumePrefix,
            KeywordKind::CombinedOrSeparated { next_token_kind: TokenKind::NumberLike },
            KeywordPriority::Normal,
            vec!["VOL", "VOL.", "VOLUME", "VOLUMES"],
        );
        proof {
            expected = expected + seed_rows(
                KeywordCategory::VolumePrefix,
                KeywordKind::CombinedOrSeparated { next_token_kind: TokenKind::NumberLike },
                KeywordPriority::Normal,
                seq!["VOL"@, "VOL."@, "VOLUME"@, "VOLUMES"@],
            );
            assert(kwm@ =~= expected);
        }
        // Part prefixes
        kwm.add_group(
            KeywordCategory::PartPrefix,
            KeywordKind::CombinedOrSeparated { next_token_kind: TokenKind::NumberLike },
            KeywordPriority::Normal,
            vec!["PART", "PT."],
        );
        proof {
            expected = expected + seed_rows(
                KeywordCategory::PartPrefix,
                KeywordKind::CombinedOrSeparated { next_token_kind: TokenKind::NumberLike },
                KeywordPriority::Normal,
                seq!["PART"@, "PT."@],
            );
            assert(kwm@ =~= expected);
        }
        proof {
            assert(kwm@ == seed_spec());
        }
        kwm
    }

    /// Appends one entry per literal, keyed by the literal itself.
    fn add_group(
        &mut self,
        keyword_category: KeywordCategory,
        keyword_kind: KeywordKind,
        keyword_priority: KeywordPriority,
        values: Vec<&str>,
    )
        ensures
            final(self)@.len() == old(self)@.len() + values@.len(),
            forall|i: int|
                0 <= i < old(self)@.len() ==> final(self)@[i] == #[trigger] old(self)@[i],
            forall|k: int|
                0 <= k < values@.len() ==> final(self)@[old(self)@.len() + k] == (
                #[trigger] values@[k]@,
                KeywordView {
                    value: values@[k]@,
                    category: keyword_category,
                    kind: keyword_kind,
                    priority: keyword_priority,
                },
            ),
            dict_wf(old(self)@) ==> dict_wf(final(self)@),
    {
        let n = values.len();
        let mut k: usize = 0;
        while k < n
            invariant
                0 <= k <= n,
                n == values@.len(),
                self@.len() == old(self)@.len() + k,
                forall|i: int|
                    0 <= i < old(self)@.len() ==> self@[i] == #[trigger] old(self)@[i],
                forall|j: int|
                    0 <= j < k ==> self@[old(self)@.len() + j] == (
                    #[trigger] values@[j]@,
                    KeywordView {
                        value: values@[j]@,
                        category: keyword_category,
                        kind: keyword_kind,
                        priority: keyword_priority,
                    },
                ),
            decreases n - k,
        {
            let value = values[k];
            let key = value.to_owned();
            let kw = Keyword::new(value.to_owned(), keyword_category, keyword_kind, keyword_priority);
            self.keywords.push((key, kw));
            k = k + 1;
        }
        proof {
            if dict_wf(old(self)@) {
                assert forall|i: int|
                    0 <= i < self@.len() implies (#[trigger] self@[i]).0 == self@[i].1.value by {
                    if i < old(self)@.len() {
                        assert(self@[i] == old(self)@[i]);
                        assert(old(self)@[i].0 == old(self)@[i].1.value);
                    } else {
                        assert(self@[i] == (
                            values@[i - old(self)@.len()]@,
                            KeywordView {
                                value: values@[i - old(self)@.len()]@,
                                category: keyword_category,
                                kind: keyword_kind,
                                priority: keyword_priority,
                            },
                        ));
                    }
                }
            }
        }
    }

    /// Returns the first standalone entry whose key equals the literal,
    /// case-insensitively.
    pub fn find_standalone(&self, token_value: &str) -> (r: Option<Keyword>)
        ensures
            match r {
                Some(k) => find_standalone_spec(self@, token_value@) == Some(k@),
                None => find_standalone_spec(self@, token_value@) is None,
            },
    {
        let n = self.keywords.len();
        let mut i: usize = 0;
        proof {
            assert(self@.skip(0) =~= self@);
        }
        while i < n
            invariant
                0 <= i <= n,
                n == self@.len(),
                n == self.keywords@.len(),
                find_standalone_spec(self@, token_value@) == find_standalone_spec(
                    self@.skip(i as int),
                    token_value@,
                ),
            decreases n - i,
        {
            let entry = &self.keywords[i];
            proof {
                assert(self@[i as int] == (entry.0@, entry.1@));
                assert(self@.skip(i as int)[0] == self@[i as int]);
                assert(self@.skip(i as int).drop_first() =~= self@.skip(i + 1));
            }
            if entry.1.is_standalone() && crate::token_helper::eq_ignore_case(
                entry.0.as_str(),
                token_value,
            ) {
                return Some(entry.1.duplicate());
            }
            i = i + 1;
        }
        proof {
            assert(self@.skip(n as int) =~= Seq::<(Seq<char>, KeywordView)>::empty());
        }
        None
    }

    /// Returns the standalone match if one exists; otherwise the longest
    /// non-standalone entry whose key prefixes the literal.
    pub fn find(&self, token_value: &str) -> (r: Option<Keyword>)
        ensures
            find_standalone_spec(self@, token_value@) is Some ==> match r {
                Some(k) => find_standalone_spec(self@, token_value@) == Some(k@),
                None => false,
            },
            find_standalone_spec(self@, token_value@) is None ==> match r {
                Some(k) => {
                    &&& find_longest_spec(self@, token_value@) is Some
                    &&& find_longest_spec(self@, token_value@)->Some_0.1 == k@
                },
                None => find_longest_spec(self@, token_value@) is None,
            },
    {
        let standalone = self.find_standalone(token_value);
        if let Some(k) = standalone {
            return Some(k);
        }
        let n = self.keywords.len();
        let mut i: usize = 0;
        let mut best: Option<&Keyword> = None;
        let mut best_len: usize = 0;
        proof {
            assert(self@.subrange(0, 0) =~= Seq::<(Seq<char>, KeywordView)>::empty());
        }
        while i < n
            invariant
                0 <= i <= n,
                n == self@.len(),
                n == self.keywords@.len(),
                match best {
                    Some(k) => {
                        &&& find_longest_spec(self@.subrange(0, i as int), token_value@) is Some
                        &&& find_longest_spec(
                            self@.subrange(0, i as int),
                            token_value@,
                        )->Some_0.1 == k@
                        &&& find_longest_spec(
                            self@.subrange(0, i as int),
                            token_value@,
                        )->Some_0.0.len() == best_len
                    },
                    None => find_longest_spec(self@.subrange(0, i as int), token_value@) is None,
                },
            decreases n - i,
        {
            let entry = &self.keywords[i];
            proof {
                assert(self@[i as int] == (entry.0@, entry.1@));
                assert(self@.subrange(0, i + 1).drop_last() =~= self@.subrange(0, i as int));
                assert(self@.subrange(0, i + 1).last() == self@[i as int]);
            }
            let nonstandalone = entry.1.is_combined() || entry.1.is_combined_or_separated()
                || entry.1.is_ordinal_suffix();
            if nonstandalone && crate::token_helper::starts_with_ignore_case(
                token_value,
                entry.0.as_str(),
            ) {
                let klen = entry.0.unicode_len();
                let replace = match best {
                    Some(_) => klen >= best_len,
                    None => true,
                };
                if replace {
                    best = Some(&entry.1);
                    best_len = klen;
                }
            }
            i = i + 1;
        }
        proof {
            assert(self@.subrange(0, n as int) =~= self@);
        }
        match best {
            Some(k) => Some(k.duplicate()),
            None => None,
        }
    }

    /// Returns every entry whose key is a prefix of the literal,
    /// case-insensitively, in dictionary order.
    pub fn find_many(&self, token_value: &str) -> (r: Option<Vec<Keyword>>)
        ensures
            r is Some,
            kws_model(r->Some_0@) == find_many_spec(self@, token_value@),
    {
        let n = self.keywords.len();
        let mut out: Vec<Keyword> = Vec::new();
        let mut i: usize = 0;
        proof {
            assert(self@.subrange(0, 0) =~= Seq::<(Seq<char>, KeywordView)>::empty());
            assert(kws_model(out@) =~= find_many_spec(self@.subrange(0, 0), token_value@));
        }
        while i < n
            invariant
                0 <= i <= n,
                n == self@.len(),
                n == self.keywords@.len(),
                kws_model(out@) == find_many_spec(self@.subrange(0, i as int), token_value@),
            decreases n - i,
        {
            let entry = &self.keywords[i];
            proof {
                assert(self@[i as int] == (entry.0@, entry.1@));
                assert(self@.subrange(0, i + 1).drop_last() =~= self@.subrange(0, i as int));
                assert(self@.subrange(0, i + 1).last() == self@[i as int]);
            }
            if crate::token_helper::starts_with_ignore_case(token_value, entry.0.as_str()) {
                out.push(entry.1.duplicate());
            }
            proof {
                assert(kws_model(out@) =~= find_many_spec(
                    self@.subrange(0, i + 1),
                    token_value@,
                ));
            }
            i = i + 1;
        }
        proof {
            assert(self@.subrange(0, n as int) =~= self@);
        }
        Some(out)
    }
}

/// Every prefix match the dictionary returns carries a key that is a prefix
/// of the probed literal (case-insensitively); with a well-formed dictionary
/// the entry's own literal is that key.
pub proof fn lemma_find_many_prefix(d: Seq<(Seq<char>, KeywordView)>, v: Seq<char>)
    requires
        dict_wf(d),
    ensures
        forall|i: int|
            0 <= i < find_many_spec(d, v).len() ==> is_prefix_upper(
                (#[trigger] find_many_spec(d, v)[i]).value,
                v,
            ),
    decreases d.len(),
{
    if d.len() > 0 {
        assert(dict_wf(d.drop_last())) by {
            assert(forall|i: int|
                0 <= i < d.len() - 1 ==> #[trigger] d.drop_last()[i] == d[i]);
        }
        lemma_find_many_prefix(d.drop_last(), v);
        assert(d.last() == d[d.len() - 1]);
    }
}

/// The non-standalone lookup returns a combined, combined-or-separated or
/// ordinal-suffix entry whose key prefixes the literal, and no such entry in
/// the dictionary has a longer key.
pub proof fn lemma_find_longest(d: Seq<(Seq<char>, KeywordView)>, v: Seq<char>)
    ensures
        find_longest_spec(d, v) matches Some(e) ==> {
            &&& nonstandalone_prefix_matches(e, v)
            &&& exists|i: int| 0 <= i < d.len() && d[i] == e
            &&& forall|i: int|
                0 <= i < d.len() && nonstandalone_prefix_matches(#[trigger] d[i], v) ==> d[i].0.len()
                    <= e.0.len()
        },
        find_longest_spec(d, v) is None ==> forall|i: int|
            0 <= i < d.len() ==> !nonstandalone_prefix_matches(#[trigger] d[i], v),
    decreases d.len(),
{
    if d.len() > 0 {
        let prev = find_longest_spec(d.drop_last(), v);
        lemma_find_longest(d.drop_last(), v);
        assert(d.last() == d[d.len() - 1]);
        assert(forall|i: int| 0 <= i < d.len() - 1 ==> #[trigger] d.drop_last()[i] == d[i]);
        if nonstandalone_prefix_matches(d.last(), v) && (prev is None || d.last().0.len()
            >= prev->Some_0.0.len()) {
            let e = d.last();
            assert(find_longest_spec(d, v) == Some(e));
            assert(exists|i: int| 0 <= i < d.len() && d[i] == e) by {
                assert(d[d.len() - 1] == e);
            }
            assert forall|i: int|
                0 <= i < d.len() && nonstandalone_prefix_matches(
                    #[trigger] d[i],
                    v,
                ) implies d[i].0.len() <= e.0.len() by {
                if i < d.len() - 1 {
                    assert(d.drop_last()[i] == d[i]);
                    if prev is None {
                        assert(!nonstandalone_prefix_matches(d.drop_last()[i], v));
                    } else {
                        assert(d[i].0.len() <= prev->Some_0.0.len());
                    }
                }
            }
        } else {
            match prev {
                Some(p) => {
                    assert(find_longest_spec(d, v) == Some(p));
                    let w = choose|i: int|
                        0 <= i < d.drop_last().len() && d.drop_last()[i] == p;
                    assert(d[w] == p);
                    assert(exists|i: int| 0 <= i < d.len() && d[i] == p);
                    assert forall|i: int|
                        0 <= i < d.len() && nonstandalone_prefix_matches(
                            #[trigger] d[i],
                            v,
                        ) implies d[i].0.len() <= p.0.len() by {
                        if i < d.len() - 1 {
                            assert(d.drop_last()[i] == d[i]);
                        } else {
                            // the final entry did not replace the held one,
                            // so if it matches at all its key is strictly
                            // shorter.
                            assert(d[i] == d.last());
                        }
                    }
                },
                None => {
                    assert(find_longest_spec(d, v) is None);
                    assert forall|i: int|
                        0 <= i < d.len() implies !nonstandalone_prefix_matches(
                        #[trigger] d[i],
                        v,
                    ) by {
                        if i < d.len() - 1 {
                            assert(d.drop_last()[i] == d[i]);
                        } else {
                            assert(d[i] == d.last());
                        }
                    }
                },
            }
        }
    }
}

} // verus!
