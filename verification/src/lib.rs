//! A media gallery's core: entries with their pixel dimensions, the height
//! bookkeeping of a sorted list of entries, and the binary partition tree that
//! serves such a list piece by piece.

use vstd::prelude::*;

pub mod dimensions;
pub mod error;
pub mod identifier;
pub mod image_info;
pub mod sort;
pub mod tree;

verus! {

/// Vertical spacing, in layout units, that every entry takes besides its own
/// height.
pub const IMAGE_OFFSET: u64 = 10;

/// Which kinds of file a gallery shows.
#[derive(Copy, Clone, Debug, PartialEq, Eq, Structural)]
pub enum FilterParameter {
    /// Every kind: no filter.
    All,
    Video,
    Images,
    Gif,
}

impl FilterParameter {
    /// The name by which the filter is chosen and shown.
    pub fn name(&self) -> (name: &'static str)
        ensures
            name@ == match *self {
                FilterParameter::All => "none"@,
                FilterParameter::Video => "video"@,
                FilterParameter::Images => "images"@,
                FilterParameter::Gif => "gif"@,
            },
    {
        match self {
            FilterParameter::All => "none",
            FilterParameter::Video => "video",
            FilterParameter::Images => "images",
            FilterParameter::Gif => "gif",
        }
    }
}

} // verus!
