//! Dictionary entries: a canonical uppercase literal together with the
//! category it identifies, the kind that controls neighbour validation, and a
//! priority.

use vstd::prelude::*;
use crate::token::TokenKind;

verus! {

/// What a matched keyword tells about the filename.
#[derive(Debug, Eq, PartialEq, Clone, Copy, Hash, Structural)]
pub enum KeywordCategory {
    SeasonPrefix,
    EpisodePrefix,
    VolumePrefix,
    PartPrefix,
    AnimeType,
    VideoTerm,
    AudioTerm,
    DeviceCompat,
    FileExtension,
    Language,
    ReleaseInfo,
    ReleaseVersion,
    ReleaseGroup,
    Subtitles,
    Source,
}

/// Normal-priority keywords may overwrite unknown atoms in the first
/// identification pass; low-priority ones are reserved for a later pass.
#[derive(Debug, Eq, PartialEq, Clone, Copy, Hash, Structural)]
pub enum KeywordPriority {
    Normal,
    Low,
}

/// How an entry must appear relative to its neighbours to be valid.
#[derive(Debug, Eq, PartialEq, Clone, Copy, Hash, Structural)]
pub enum KeywordKind {
    /// Valid on its own, e.g. `MOVIE`.
    Standalone,
    /// Must be fused with a trailing atom of the given shape, e.g. `S01`.
    Combined { next_token_kind: TokenKind },
    /// Valid fused (`OP1`) or followed at distance (`Season 1`).
    CombinedOrSeparated { next_token_kind: TokenKind },
    /// Only valid when followed at distance by an atom of the given shape.
    Separated { next_token_kind: TokenKind },
    /// Only valid when preceded by an ordinal number-like atom (`4th Season`).
    OrdinalSuffix,
}

/// One dictionary entry.
#[derive(Debug, Eq, PartialEq)]
pub struct Keyword {
    pub value: String,
    pub category: KeywordCategory,
    pub kind: KeywordKind,
    pub priority: KeywordPriority,
}

/// Mathematical model of an entry.
pub struct KeywordView {
    pub value: Seq<char>,
    pub category: KeywordCategory,
    pub kind: KeywordKind,
    pub priority: KeywordPriority,
}

impl View for Keyword {
    type V = KeywordView;

    open spec fn view(&self) -> KeywordView {
        KeywordView {
            value: self.value@,
            category: self.category,
            kind: self.kind,
            priority: self.priority,
        }
    }
}

impl Keyword {
    pub fn new(
        value: String,
        category: KeywordCategory,
        kind: KeywordKind,
        priority: KeywordPriority,
    ) -> (r: Keyword)
        ensures
            r@ == (KeywordView { value: value@, category, kind, priority }),
    {
        Keyword { value, category, kind, priority }
    }

    /// A copy with the same model.
    pub fn duplicate(&self) -> (r: Keyword)
        ensures
            r@ == self@,
    {
        Keyword {
            value: self.value.clone(),
            category: self.category,
            kind: self.kind,
            priority: self.priority,
        }
    }

    pub fn is_standalone(&self) -> (r: bool)
        ensures
            r == (self.kind is Standalone),
    {
        match self.kind {
            KeywordKind::Standalone => true,
            _ => false,
        }
    }

    pub fn is_combined(&self) -> (r: bool)
        ensures
            r == (self.kind is Combined),
    {
        match self.kind {
            KeywordKind::Combined { .. } => true,
            _ => false,
        }
    }

    pub fn is_combined_or_separated(&self) -> (r: bool)
        ensures
            r == (self.kind is CombinedOrSeparated),
    {
        match self.kind {
            KeywordKind::CombinedOrSeparated { .. } => true,
            _ => false,
        }
    }

    pub fn is_separated(&self) -> (r: bool)
        ensures
            r == (self.kind is Separated),
    {
        match self.kind {
            KeywordKind::Separated { .. } => true,
            _ => false,
        }
    }

    pub fn is_ordinal_suffix(&self) -> (r: bool)
        ensures
            r == (self.kind is OrdinalSuffix),
    {
        match self.kind {
            KeywordKind::OrdinalSuffix => true,
            _ => false,
        }
    }
}

} // verus!
