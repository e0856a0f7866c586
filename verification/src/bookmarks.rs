//! Bookmark attributes the head lister works with when it feeds heads to
//! the tailing loop.

use vstd::prelude::*;

verus! {

/// How fresh listed heads have to be: straight from the source of truth,
/// or possibly stale from a replica or cache.
#[derive(Clone, Copy, PartialEq, Eq, Structural, Debug)]
pub enum Freshness {
    MostRecent,
    MaybeStale,
}

/// How a bookmark behaves for mirroring clients.
#[derive(Clone, Copy, PartialEq, Eq, Structural, Debug)]
pub enum BookmarkHgKind {
    /// Not published; invisible to mirrors.
    Scratch,
    /// Published, but not pulled by default.
    PublishingNotPullDefault,
    /// Published and pulled by default; pull-default implies publishing.
    PullDefault,
}

impl BookmarkHgKind {
    /// Whether a bookmark of this kind is published.
    pub fn publishing(&self) -> (r: bool)
        ensures
            r == (*self != BookmarkHgKind::Scratch),
    {
        match self {
            BookmarkHgKind::Scratch => false,
            BookmarkHgKind::PublishingNotPullDefault => true,
            BookmarkHgKind::PullDefault => true,
        }
    }

    /// Whether a bookmark of this kind is pulled by default.
    pub fn pull_default(&self) -> (r: bool)
        ensures
            r == (*self == BookmarkHgKind::PullDefault),
    {
        match self {
            BookmarkHgKind::Scratch => false,
            BookmarkHgKind::PublishingNotPullDefault => false,
            BookmarkHgKind::PullDefault => true,
        }
    }
}

} // verus!
