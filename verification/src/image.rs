//! Input and output value types at the repository's boundaries.
//!
//! A `DecodedSlice` is what the external decoder hands the repository: one
//! 2D frame of raw intensity samples plus the metadata the repository
//! reads.  An `Image` is the repository's per-slice metadata record, and a
//! `DisplaySlice` is one extracted 2D plane converted to display bytes.

use vstd::prelude::*;

verus! {

/// Number of thousandth-units in one whole unit of an ordering key.
/// Ordering keys are fixed-point values: a table position of 12.5 length
/// units is stored as `12_500`.
pub const KEY_SCALE: i64 = 1000;

/// One decoded 2D frame, read-only to the repository.  `pixels` holds
/// `width * height` raw intensity samples in row-major order (column
/// fastest), each in the display range `0 ..= 65535`.  `table_position`
/// is in thousandths (see [`KEY_SCALE`]); either ordering field may be
/// absent.
pub struct DecodedSlice {
    pub width: u32,
    pub height: u32,
    pub series_instance_uid: String,
    pub table_position: Option<i64>,
    pub instance_number: Option<i32>,
    pub pixels: Vec<u16>,
}

impl DecodedSlice {
    /// A slice is usable when it declares a non-empty frame and its pixel
    /// buffer has exactly one sample per declared pixel.
    pub open spec fn is_usable(self) -> bool {
        &&& self.width > 0
        &&& self.height > 0
        &&& self.pixels@.len() == self.width as int * self.height as int
    }
}

/// Per-slice metadata kept by the repository: frame size, series
/// membership and the resolved ordering key (fixed-point thousandths).
/// `image` optionally caches display bytes for the flat viewing mode.
pub struct Image {
    pub width: u32,
    pub height: u32,
    pub image: Option<Vec<u8>>,
    pub series_instance_uid: String,
    pub order: i64,
}

/// One 2D plane extracted from the current-orientation volume, as an
/// interleaved RGBA byte buffer of `width * height * 4` bytes: the 8-bit
/// intensity replicated into three channels plus a fully opaque alpha.
pub struct DisplaySlice {
    pub width: u32,
    pub height: u32,
    pub bytes: Vec<u8>,
}

} // verus!
