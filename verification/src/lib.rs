//! Reconstruction of a single tall image of a scrollable UI panel from a
//! sequence of overlapping screenshots.
//!
//! The engine has three algorithmic parts: a region-of-change detector that
//! finds the sub-rectangle that actually scrolls, a margin detector that
//! measures the decorative chrome around that region, and an alignment and
//! merge engine that finds the vertical offset at which one screenshot's
//! content continues another's and stitches the scrolling regions into one
//! seamless column. All pixel work happens on the crate's own matrix types;
//! decoding and encoding image files is left to callers.

use vstd::prelude::*;

pub mod detail;
pub mod factor;
pub mod geometry;
pub mod pixels;
pub mod region;
pub mod scan;

verus! {

/// The stage at which a threshold-based scan exhausted its search space,
/// so that a failed reconstruction reports what failed and, for alignment,
/// between which frames.
#[derive(Debug, Copy, Clone, PartialEq, Eq, Structural)]
pub enum FailedStage {
    /// The region-of-change detector found no surviving change.
    RegionDetection,
    /// No row left of the region showed a chrome transition.
    LeftRightMargin,
    /// No region column showed an accent transition in the top half.
    TopMargin,
    /// Fewer than two region columns showed a background transition below
    /// the region.
    BottomMargin,
    /// No strip of the later view matched the earlier one. For a pair taken
    /// in isolation the later view is reported as frame 1; the fold over a
    /// frame set rewrites it with the later frame's index in the set.
    Alignment { later_frame: usize },
}

/// The failure modes of a reconstruction run. Every failure is terminal for
/// the current call; nothing is retried and no partial composite is produced.
#[derive(Debug)]
pub enum Error {
    /// An input image was missing at the expected path.
    FileNotFound { path: String },
    /// Fewer than two frames were available; nothing can be aligned.
    NotEnoughImageSample,
    /// A margin or crop was requested before the scrollable region rectangle
    /// had been computed.
    RequiredCalculationsIsNotCompleted { message: String },
    /// A threshold-based scan exhausted its search space without a match;
    /// the stage says which scan.
    ImageNotMatched { stage: FailedStage },
    /// A pixel-matrix operation was asked for a geometrically impossible
    /// crop (detected margins larger than the composite itself).
    BackendFailure,
}

} // verus!
