//! Terminal labels an atom can receive once its meaning is certain.

use vstd::prelude::*;

verus! {

/// Terminal metadata label of a fully classified atom.
#[derive(Debug, Clone, Copy, PartialEq, Eq, Hash, Structural)]
pub enum MetadataKind {
    Title,
    Season,
    SeasonPrefix,
    Part,
    PartPrefix,
    EpisodeNumber,
    EpisodeNumberAlt,
    EpisodePrefix,
    EpisodeTitle,
    AnimeType,
    Year,
    AudioTerm,
    DeviceCompatibility,
    FileChecksum,
    FileExtension,
    FileName,
    Language,
    Other,
    ReleaseGroup,
    ReleaseInformation,
    ReleaseVersion,
    Source,
    Subtitles,
    VideoResolution,
    VideoTerm,
    VolumeNumber,
    VolumePrefix,
    Unknown,
}

} // verus!
