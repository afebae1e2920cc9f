//! Volumetric image repository for series of 2D medical image slices.
//!
//! Decoded slices arrive as plain pixel arrays with optional ordering
//! metadata.  The repository derives a deterministic ordering key for each
//! slice, accumulates the slices per series, stacks them into a normalized
//! 3D volume, re-derives axial/coronal/sagittal views of that volume by
//! axis permutation and flips, and extracts single 2D planes as displayable
//! RGBA byte buffers.  A filter index supports restricting and ordering the
//! flat image list by series.

use vstd::prelude::*;

pub mod image;
pub mod image_repository;
pub mod volume;

verus! {

/// One of the three standard anatomical viewing planes that the current
/// volume can be derived in.
#[derive(Clone, Copy, Debug, PartialEq, Eq, Structural)]
pub enum Orientation {
    Axial,
    Coronal,
    Sagittal,
}

impl Orientation {
    /// The permutation applied to the canonical volume's axes for this
    /// orientation: entry `p` names the canonical axis that becomes axis `p`
    /// of the reoriented volume.
    pub open spec fn permutation_spec(self) -> (int, int, int) {
        match self {
            Orientation::Axial => (0int, 1int, 2int),
            Orientation::Coronal => (1int, 0int, 2int),
            Orientation::Sagittal => (2int, 0int, 1int),
        }
    }

    /// Axis permutation for this orientation, as executable values.
    pub fn get_permutation(&self) -> (p: (usize, usize, usize))
        ensures
            (p.0 as int, p.1 as int, p.2 as int) == self.permutation_spec(),
    {
        match self {
            Orientation::Axial => (0, 1, 2),
            Orientation::Coronal => (1, 0, 2),
            Orientation::Sagittal => (2, 0, 1),
        }
    }
}

/// Read-only session metadata mirrored to the host for UI synchronization:
/// totals, the current navigation index, and the active series filter.
#[derive(Clone)]
pub struct MetaData {
    pub total: usize,
    pub current_index: usize,
    pub series_total: usize,
    pub current_series_instance_uid: Option<String>,
}

impl MetaData {
    /// Fresh metadata: no images, index at the start, no series filter.
    pub fn new() -> (r: MetaData)
        ensures
            r.total == 0,
            r.current_index == 0,
            r.series_total == 0,
            r.current_series_instance_uid is None,
    {
        MetaData {
            total: 0,
            current_index: 0,
            series_total: 0,
            current_series_instance_uid: None,
        }
    }

    /// The active series filter, or a fixed placeholder when the view is
    /// unfiltered.
    pub fn get_current_series_instance_uid(&self) -> (r: String)
        ensures
            r@ == (match self.current_series_instance_uid {
                Option::Some(uid) => uid@,
                Option::None => "Not filtered"@,
            }),
    {
        match &self.current_series_instance_uid {
            Some(uid) => uid.clone(),
            None => "Not filtered".to_owned(),
        }
    }
}

} // verus!
