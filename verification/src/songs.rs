//! Song classification for shuffling: looping songs, short one-shot songs
//! and long one-shot songs are kept in separate pools, and a helper builds
//! the usual all-`Normal` additional-track lists.

use vstd::prelude::*;

use crate::brstm::BrstmInformation;
use crate::reshaper::AdditionalTrackKind;

verus! {

/// The number of seconds below which a non-looping song counts as short.
pub const NONLOOPNING_SHORT_CUTOFF_SECONDS: u32 = 11;

/// The categories that are never shuffled with each other.
#[derive(Debug, Clone, Copy, PartialEq, Eq, Structural)]
pub enum SongCategory {
    Looping,
    ShortNonLooping,
    NonLooping,
}

impl SongCategory {
    /// The category a parsed song falls in: looping when its loop flag is
    /// set, else short or long by its play time against the cutoff.
    pub fn categorize(brstm: &BrstmInformation) -> (r: SongCategory)
        ensures
            r == (if brstm.info.loop_flag == 1 {
                SongCategory::Looping
            } else if (brstm.info.total_samples as int) < brstm.info.sample_rate as int
                * NONLOOPNING_SHORT_CUTOFF_SECONDS {
                SongCategory::ShortNonLooping
            } else {
                SongCategory::NonLooping
            }),
    {
        if brstm.info.loop_flag == 1 {
            Self::Looping
        } else if brstm.info.total_samples < brstm.info.sample_rate as u32
            * NONLOOPNING_SHORT_CUTOFF_SECONDS {
            Self::ShortNonLooping
        } else {
            Self::NonLooping
        }
    }
}

/// A list of `add_count` additional `Normal` tracks.
pub fn make_normal_additional_tracks(add_count: usize) -> (r: Vec<AdditionalTrackKind>)
    ensures
        r@.len() == add_count,
        forall|j: int| 0 <= j < add_count ==> r@[j] == AdditionalTrackKind::Normal,
{
    let mut r: Vec<AdditionalTrackKind> = Vec::new();
    let mut i: usize = 0;
    while i < add_count
        invariant
            i <= add_count,
            r@.len() == i,
            forall|j: int| 0 <= j < i ==> r@[j] == AdditionalTrackKind::Normal,
        decreases add_count - i,
    {
        r.push(AdditionalTrackKind::Normal);
        i = i + 1;
    }
    r
}

} // verus!
