//! The repository that accumulates decoded slices, assembles them into a
//! volume, reorients it, and serves filtered, ordered views.

use vstd::prelude::*;
use vstd::arithmetic::div_mod::{
    lemma_fundamental_div_mod, lemma_fundamental_div_mod_converse_div,
    lemma_fundamental_div_mod_converse_mod,
};

use crate::image::{DecodedSlice, DisplaySlice, Image, KEY_SCALE};
use crate::volume::{
    assembled_state, flat_i, flat_j, flat_k, lemma_flat_index, lemma_flat_index_bound, oriented,
    reoriented, with_orientation, Volume, VolumeState, VolumeView,
};
use crate::Orientation;

verus! {

/// Error kinds surfaced by the repository.  A missing or unusable field
/// is fatal to the ingestion batch; navigation past known bounds is
/// absorbed as an empty result.
#[derive(Clone, Copy, Debug, PartialEq, Eq, Structural)]
pub enum ImageRepositoryError {
    DecodeFieldMissing,
    DecodeConversionFailed,
    IndexOutOfRange,
}

/// One accumulated slice awaiting assembly: its ordering key, the series
/// it came from, and the raw samples as a `rows x cols` row-major array.
pub struct AccumulatedSlice {
    pub key: i64,
    pub series_instance_uid: String,
    pub rows: usize,
    pub cols: usize,
    pub data: Vec<u16>,
}

impl AccumulatedSlice {
    /// An accumulated slice is well formed when its frame is non-empty,
    /// its extents fit display dimensions, and it holds one sample per
    /// pixel.
    pub open spec fn wf(self) -> bool {
        &&& 0 < self.rows as int <= u32::MAX as int
        &&& 0 < self.cols as int <= u32::MAX as int
        &&& self.data@.len() == self.rows as int * self.cols as int
    }
}

/// The ordering key resolved for a slice: the table position when
/// present, else the instance number scaled to key units, else zero.
/// Resolution never fails; slices without ordering metadata all share
/// key zero.
pub open spec fn resolve_key(s: DecodedSlice) -> int {
    match s.table_position {
        Option::Some(t) => t as int,
        Option::None => match s.instance_number {
            Option::Some(n) => n as int * KEY_SCALE as int,
            Option::None => 0,
        },
    }
}

/// Whether an image belongs to the current series filter: an absent
/// filter admits every image.
pub open spec fn filter_matches(img: Image, filter: Option<String>) -> bool {
    match filter {
        Option::None => true,
        Option::Some(uid) => img.series_instance_uid@ == uid@,
    }
}

/// The offsets below `bound` whose image matches the filter, in
/// ascending offset (arrival) order.
pub open spec fn matching_offsets(images: Seq<Image>, filter: Option<String>, bound: int) -> Seq<
    usize,
>
    decreases bound,
{
    if bound <= 0 {
        Seq::empty()
    } else {
        let rest = matching_offsets(images, filter, bound - 1);
        if filter_matches(images[bound - 1], filter) {
            rest.push((bound - 1) as usize)
        } else {
            rest
        }
    }
}

/// An offset appears among the matching offsets below `bound` exactly
/// when it is below `bound` and its image matches the filter.
pub proof fn lemma_matching_offsets_contains(
    images: Seq<Image>,
    filter: Option<String>,
    bound: int,
    off: usize,
)
    requires
        bound <= images.len(),
        bound <= usize::MAX as int,
    ensures
        matching_offsets(images, filter, bound).contains(off) <==> ((off as int) < bound
            && filter_matches(images[off as int], filter)),
    decreases bound,
{
    if bound > 0 {
        lemma_matching_offsets_contains(images, filter, bound - 1, off);
        let rest = matching_offsets(images, filter, bound - 1);
        if filter_matches(images[bound - 1], filter) {
            let whole = rest.push((bound - 1) as usize);
            assert forall|i: int| 0 <= i < whole.len() implies whole[i] == rest[i] || whole[i] == (
            bound - 1) as usize by {}
            if whole.contains(off) {
                let i = choose|i: int| 0 <= i < whole.len() && whole[i] == off;
                if i < rest.len() {
                    assert(rest[i] == off);
                }
            }
            if rest.contains(off) {
                let i = choose|i: int| 0 <= i < rest.len() && rest[i] == off;
                assert(whole[i] == off);
            }
            assert(whole[whole.len() - 1] == (bound - 1) as usize);
        }
    }
}

/// The volume assembled from the accumulated slices, stacked along a new
/// leading axis in accumulation order, each raw sample scaled into the
/// normalized fixed-point form.
pub open spec fn assembled(slices: Seq<AccumulatedSlice>) -> VolumeView {
    let n = slices.len() as int;
    let rows = slices[0].rows as int;
    let cols = slices[0].cols as int;
    VolumeView {
        d0: n,
        d1: rows,
        d2: cols,
        data: Seq::new(
            (n * rows * cols) as nat,
            |m: int|
                (255 * (slices[flat_i(m, rows, cols)].data@[flat_j(m, rows, cols) * cols + flat_k(
                    m,
                    cols,
                )] as int)) as u32,
        ),
    }
}

/// Strict placement order of two offsets into the image list: ascending
/// by ordering key, with ties broken by arrival order, so equal keys
/// keep their relative arrival positions.
pub open spec fn idx_lt(images: Seq<Image>, a: int, b: int) -> bool {
    ||| images[a].order < images[b].order
    ||| (images[a].order == images[b].order && a < b)
}

/// A filter index is sorted when every earlier entry is strictly placed
/// before every later one.
pub open spec fn sorted_filter_index(images: Seq<Image>, fi: Seq<usize>) -> bool {
    forall|p: int, q: int|
        0 <= p < q < fi.len() ==> idx_lt(images, #[trigger] fi[p] as int, #[trigger] fi[q] as int)
}

/// A sorted filter index is non-decreasing in ordering key: for any two
/// positions, the earlier one's image never has the larger key.
pub proof fn lemma_filter_index_sorted_by_key(images: Seq<Image>, fi: Seq<usize>)
    requires
        sorted_filter_index(images, fi),
    ensures
        forall|p: int, q: int|
            0 <= p < q < fi.len() ==> images[#[trigger] fi[p] as int].order
                <= images[#[trigger] fi[q] as int].order,
{
}

/// Tie-break stability: two entries of a sorted filter index with equal
/// ordering keys keep their relative arrival order.
pub proof fn lemma_filter_index_stable_ties(images: Seq<Image>, fi: Seq<usize>)
    requires
        sorted_filter_index(images, fi),
    ensures
        forall|p: int, q: int|
            0 <= p < q < fi.len() && images[#[trigger] fi[p] as int].order == images[
                #[trigger] fi[q] as int
            ].order ==> fi[p] < fi[q],
{
}

/// Whether the image at offset `a` is placed before the one at offset
/// `x` in key order with arrival-order ties.
fn placed_before(images: &Vec<Image>, a: usize, x: usize) -> (r: bool)
    requires
        (a as int) < images@.len(),
        (x as int) < images@.len(),
    ensures
        r == idx_lt(images@, a as int, x as int),
{
    images[a].order < images[x].order || (images[a].order == images[x].order && a < x)
}

/// Insert offset `x` into the sorted index `out`, keeping it sorted.
/// Every offset already present is smaller than `x`, so a key tie places
/// `x` after its equals and the insertion is stable.
fn sorted_insert(images: &Vec<Image>, out: &mut Vec<usize>, x: usize)
    requires
        (x as int) < images@.len(),
        forall|p: int|
            0 <= p < old(out)@.len() ==> (#[trigger] old(out)@[p] as int) < images@.len(),
        forall|p: int| 0 <= p < old(out)@.len() ==> (#[trigger] old(out)@[p] as int) < x as int,
        sorted_filter_index(images@, old(out)@),
    ensures
        final(out)@.len() == old(out)@.len() + 1,
        final(out)@.to_multiset() == old(out)@.to_multiset().insert(x),
        sorted_filter_index(images@, final(out)@),
        forall|p: int|
            0 <= p < final(out)@.len() ==> (#[trigger] final(out)@[p] as int) < images@.len(),
        forall|p: int| 0 <= p < final(out)@.len() ==> (#[trigger] final(out)@[p] as int) <= x as int,
{
    broadcast use vstd::seq_lib::group_to_multiset_ensures;

    let mut p: usize = 0;
    while p < out.len() && placed_before(images, out[p], x)
        invariant
            (x as int) < images@.len(),
            forall|q: int| 0 <= q < out@.len() ==> (#[trigger] out@[q] as int) < images@.len(),
            forall|q: int| 0 <= q < out@.len() ==> (#[trigger] out@[q] as int) < x as int,
            sorted_filter_index(images@, out@),
            p <= out@.len(),
            forall|q: int| 0 <= q < p ==> idx_lt(images@, #[trigger] out@[q] as int, x as int),
        decreases out@.len() - p as int,
    {
        p = p + 1;
    }
    proof {
        let s = out@;
        if (p as int) < s.len() {
            // the first entry not placed before x has a strictly larger key
            assert(!idx_lt(images@, s[p as int] as int, x as int));
            assert(images@[s[p as int] as int].order > images@[x as int].order);
        }
        s.insert_ensures(p as int, x);
        assert forall|p1: int, q1: int|
            0 <= p1 < q1 < s.insert(p as int, x).len() implies idx_lt(
            images@,
            s.insert(p as int, x)[p1] as int,
            s.insert(p as int, x)[q1] as int,
        ) by {
            let t = s.insert(p as int, x);
            let pi = p as int;
            if q1 < pi {
                assert(t[p1] == s[p1] && t[q1] == s[q1]);
            } else if q1 == pi {
                assert(t[p1] == s[p1] && t[q1] == x);
            } else {
                assert(t[q1] == s[q1 - 1]);
                if p1 < pi {
                    assert(t[p1] == s[p1]);
                    if p1 < q1 - 1 {
                        assert(idx_lt(images@, s[p1] as int, s[q1 - 1] as int));
                    }
                } else if p1 == pi {
                    assert(t[p1] == x);
                    assert(images@[s[pi] as int].order > images@[x as int].order);
                    if pi < q1 - 1 {
                        assert(idx_lt(images@, s[pi] as int, s[q1 - 1] as int));
                    }
                } else {
                    assert(t[p1] == s[p1 - 1]);
                    assert(idx_lt(images@, s[p1 - 1] as int, s[q1 - 1] as int));
                }
            }
        }
    }
    out.insert(p, x);
}

/// The volumetric image repository: per-slice metadata in arrival order,
/// the filter index over it, the slices accumulated since the last
/// assembly, and the canonical and current-orientation volumes.
pub struct ImageRepository {
    pub images: Vec<Image>,
    pub filter_indices: Vec<usize>,
    pub slices: Vec<AccumulatedSlice>,
    pub slice_array: Volume,
    pub slice_array_original: Volume,
}

impl ImageRepository {
    /// The repository is well formed when every accumulated slice is,
    /// both volumes are, and every filter entry points at a present
    /// image.
    pub open spec fn wf(self) -> bool {
        &&& forall|i: int| 0 <= i < self.slices@.len() ==> (#[trigger] self.slices@[i]).wf()
        &&& self.slice_array@.wf()
        &&& self.slice_array_original@.wf()
        &&& forall|p: int|
            0 <= p < self.filter_indices@.len() ==> (#[trigger] self.filter_indices@[p] as int)
                < self.images@.len()
    }

    /// An empty repository: no images, no filter, no accumulated slices,
    /// and empty volumes.
    pub fn new() -> (r: ImageRepository)
        ensures
            r.wf(),
            r.images@.len() == 0,
            r.filter_indices@.len() == 0,
            r.slices@.len() == 0,
            r.slice_array@ == VolumeView::empty(),
            r.slice_array_original@ == VolumeView::empty(),
    {
        ImageRepository {
            images: Vec::new(),
            filter_indices: Vec::new(),
            slices: Vec::new(),
            slice_array: Volume::zeros(),
            slice_array_original: Volume::zeros(),
        }
    }

    /// Full teardown: drop every image, accumulated slice, filter entry
    /// and both volumes, returning the repository to its initial state.
    pub fn reset_images(&mut self)
        ensures
            final(self).wf(),
            final(self).images@.len() == 0,
            final(self).filter_indices@.len() == 0,
            final(self).slices@.len() == 0,
            final(self).slice_array@ == VolumeView::empty(),
            final(self).slice_array_original@ == VolumeView::empty(),
    {
        self.images = Vec::new();
        self.filter_indices = Vec::new();
        self.slices = Vec::new();
        self.slice_array = Volume::zeros();
        self.slice_array_original = Volume::zeros();
    }

    /// Resolve the ordering key of a decoded slice: the table position
    /// when present, else the instance number scaled to key units, else
    /// zero.  Resolution never fails.
    pub fn get_image_order(slice: &DecodedSlice) -> (key: i64)
        ensures
            key as int == resolve_key(*slice),
    {
        match slice.table_position {
            Some(t) => t,
            None => match slice.instance_number {
                Some(n) => (n as i64) * KEY_SCALE,
                None => 0,
            },
        }
    }

    /// Take one decoded slice into the repository: resolve its ordering
    /// key, record its metadata, and accumulate its samples for the next
    /// assembly.  A slice whose frame is empty or whose pixel buffer does
    /// not match its extents is rejected and the repository is unchanged.
    pub fn add_image(&mut self, slice: DecodedSlice) -> (result: Result<(), ImageRepositoryError>)
        requires
            old(self).wf(),
        ensures
            final(self).wf(),
            slice.is_usable() ==> result is Ok && final(self).images@ == old(self).images@.push(
                Image {
                    width: slice.width,
                    height: slice.height,
                    image: Option::None,
                    series_instance_uid: slice.series_instance_uid,
                    order: resolve_key(slice) as i64,
                },
            ) && final(self).slices@ == old(self).slices@.push(
                AccumulatedSlice {
                    key: resolve_key(slice) as i64,
                    series_instance_uid: slice.series_instance_uid,
                    rows: slice.height as usize,
                    cols: slice.width as usize,
                    data: slice.pixels,
                },
            ),
            !slice.is_usable() ==> result == Result::<(), ImageRepositoryError>::Err(
                ImageRepositoryError::DecodeFieldMissing,
            ) && final(self).images@ == old(self).images@ && final(self).slices@ == old(
                self,
            ).slices@,
            final(self).filter_indices@ == old(self).filter_indices@,
            final(self).slice_array@ == old(self).slice_array@,
            final(self).slice_array_original@ == old(self).slice_array_original@,
    {
        if slice.width == 0 || slice.height == 0 {
            return Err(ImageRepositoryError::DecodeFieldMissing);
        }
        let w = slice.width as usize;
        let h = slice.height as usize;
        let len = slice.pixels.len();
        let usable = len / w == h && len % w == 0;
        proof {
            lemma_fundamental_div_mod(len as int, w as int);
            if len as int == slice.width as int * slice.height as int {
                assert(len as int == h as int * w as int + 0) by (nonlinear_arith)
                    requires
                        len as int == w as int * h as int,
                ;
                lemma_fundamental_div_mod_converse_div(len as int, w as int, h as int, 0);
                lemma_fundamental_div_mod_converse_mod(len as int, w as int, h as int, 0);
            }
        }
        if !usable {
            return Err(ImageRepositoryError::DecodeFieldMissing);
        }
        proof {
            assert(len as int == w as int * h as int);
            assert(h as int * w as int == w as int * h as int) by (nonlinear_arith);
        }
        let key = Self::get_image_order(&slice);
        let image = Image {
            width: slice.width,
            height: slice.height,
            image: None,
            series_instance_uid: slice.series_instance_uid.clone(),
            order: key,
        };
        let accumulated = AccumulatedSlice {
            key,
            series_instance_uid: slice.series_instance_uid,
            rows: h,
            cols: w,
            data: slice.pixels,
        };
        self.slices.push(accumulated);
        self.images.push(image);
        Ok(())
    }

    /// Rebuild the filter index: select every image offset (or only those
    /// of the given series), then order them ascending by ordering key
    /// with ties kept in arrival order.  Returns the number of images in
    /// the resulting view.
    pub fn filter_indices(&mut self, series_instance_uid: &Option<String>) -> (count: usize)
        requires
            old(self).wf(),
        ensures
            final(self).wf(),
            final(self).images@ == old(self).images@,
            final(self).slices@ == old(self).slices@,
            final(self).slice_array@ == old(self).slice_array@,
            final(self).slice_array_original@ == old(self).slice_array_original@,
            count == final(self).filter_indices@.len(),
            count == matching_offsets(
                old(self).images@,
                *series_instance_uid,
                old(self).images@.len() as int,
            ).len(),
            final(self).filter_indices@.to_multiset() == matching_offsets(
                old(self).images@,
                *series_instance_uid,
                old(self).images@.len() as int,
            ).to_multiset(),
            sorted_filter_index(old(self).images@, final(self).filter_indices@),
            forall|off: usize|
                final(self).filter_indices@.contains(off) <==> ((off as int) < old(
                    self,
                ).images@.len() && filter_matches(old(self).images@[off as int], *series_instance_uid)),
    {
        broadcast use vstd::seq_lib::group_to_multiset_ensures;
        broadcast use vstd::multiset::group_multiset_axioms;

        let ghost filter = *series_instance_uid;
        let ghost imgs = self.images@;
        let mut selected: Vec<usize> = Vec::new();
        let mut off: usize = 0;
        let total = self.images.len();
        while off < total
            invariant
                total == imgs.len(),
                imgs == self.images@,
                filter == *series_instance_uid,
                off <= total,
                selected@.len() == matching_offsets(imgs, filter, off as int).len(),
                selected@.to_multiset() == matching_offsets(
                    imgs,
                    filter,
                    off as int,
                ).to_multiset(),
                sorted_filter_index(imgs, selected@),
                forall|p: int|
                    0 <= p < selected@.len() ==> (#[trigger] selected@[p] as int) < imgs.len(),
                forall|p: int|
                    0 <= p < selected@.len() ==> (#[trigger] selected@[p] as int) < off as int,
            decreases total as int - off as int,
        {
            let matches_filter = match series_instance_uid {
                None => true,
                Some(uid) => self.images[off].series_instance_uid == *uid,
            };
            proof {
                assert(matches_filter == filter_matches(imgs[off as int], filter));
            }
            if matches_filter {
                sorted_insert(&self.images, &mut selected, off);
            }
            off = off + 1;
            proof {
                broadcast use vstd::seq_lib::group_to_multiset_ensures;
                broadcast use vstd::multiset::group_multiset_axioms;

                let prev = matching_offsets(imgs, filter, off as int - 1);
                let now = matching_offsets(imgs, filter, off as int);
                if filter_matches(imgs[off as int - 1], filter) {
                    assert(now == prev.push((off - 1) as usize));
                    assert(prev.push((off - 1) as usize).to_multiset() == prev.to_multiset().insert(
                        (off - 1) as usize,
                    ));
                } else {
                    assert(now == prev);
                }
            }
        }
        let count = selected.len();
        self.filter_indices = selected;
        proof {
            assert forall|o: usize|
                final(self).filter_indices@.contains(o) <==> ((o as int) < imgs.len()
                    && filter_matches(imgs[o as int], filter)) by {
                lemma_matching_offsets_contains(imgs, filter, imgs.len() as int, o);
                let fi = final(self).filter_indices@;
                let mo = matching_offsets(imgs, filter, imgs.len() as int);
                assert(fi.contains(o) <==> fi.to_multiset().count(o) > 0);
                assert(mo.contains(o) <==> mo.to_multiset().count(o) > 0);
            }
        }
        count
    }

    /// The offset into the image list at `position` in the current
    /// filtered, ordered view, or nothing past its end.
    pub fn lookup(&self, position: usize) -> (r: Option<usize>)
        ensures
            (position as int) < self.filter_indices@.len() ==> r == Option::Some(
                self.filter_indices@[position as int],
            ),
            (position as int) >= self.filter_indices@.len() ==> r is None,
    {
        if position < self.filter_indices.len() {
            Some(self.filter_indices[position])
        } else {
            None
        }
    }

    /// The image at `index` in the current filtered, ordered view, or
    /// nothing past its end.
    pub fn get_image_at_index(&self, index: usize) -> (r: Option<&Image>)
        requires
            self.wf(),
        ensures
            (index as int) < self.filter_indices@.len() ==> (r matches Option::Some(img)
                && *img == self.images@[self.filter_indices@[index as int] as int]),
            (index as int) >= self.filter_indices@.len() ==> r is None,
    {
        if index < self.filter_indices.len() {
            Some(&self.images[self.filter_indices[index]])
        } else {
            None
        }
    }

    /// How many planes the current-orientation volume can serve.
    pub fn get_total(&self) -> (r: usize)
        ensures
            r as int == self.slice_array@.d0,
    {
        self.slice_array.d0
    }

    /// The earliest-ingested image of the given series, or nothing when
    /// the series is unknown.
    pub fn get_first_image_in_series(&self, series_instance_uid: &String) -> (r: Option<&Image>)
        ensures
            (match r {
                Option::Some(img) => exists|i: int|
                    0 <= i < self.images@.len() && *img == self.images@[i]
                        && (#[trigger] self.images@[i]).series_instance_uid@
                        == series_instance_uid@ && forall|j: int|
                        0 <= j < i ==> (#[trigger] self.images@[j]).series_instance_uid@
                            != series_instance_uid@,
                Option::None => forall|i: int|
                    0 <= i < self.images@.len() ==> (
                    #[trigger] self.images@[i]).series_instance_uid@ != series_instance_uid@,
            }),
    {
        let mut i: usize = 0;
        let total = self.images.len();
        while i < total
            invariant
                total == self.images@.len(),
                i <= total,
                forall|j: int|
                    0 <= j < i as int ==> (#[trigger] self.images@[j]).series_instance_uid@
                        != series_instance_uid@,
            decreases total as int - i as int,
        {
            if self.images[i].series_instance_uid == *series_instance_uid {
                return Some(&self.images[i]);
            }
            i = i + 1;
        }
        None
    }

    /// The repository's abstract volume state: the canonical volume and
    /// the current-orientation volume derived from it.
    pub open spec fn volume_state(self) -> VolumeState {
        VolumeState { canonical: self.slice_array_original@, current: self.slice_array@ }
    }

    /// Stack the accumulated slices into the canonical volume and derive
    /// the default (axial) current volume from it, then release the
    /// per-slice buffers: once assembly completes the volume memory
    /// supersedes them.
    ///
    /// The caller must already have accumulated the slices in ascending
    /// key order: stacking order determines slice adjacency in the
    /// volume, and this function stacks in accumulation order.
    pub fn create_slice_array(&mut self)
        requires
            old(self).wf(),
            old(self).slices@.len() > 0,
            forall|i: int|
                0 <= i < old(self).slices@.len() ==> (#[trigger] old(self).slices@[i]).rows == old(
                    self,
                ).slices@[0].rows && old(self).slices@[i].cols == old(self).slices@[0].cols,
            forall|i: int, j: int|
                0 <= i < j < old(self).slices@.len() ==> (#[trigger] old(self).slices@[i]).key <= (
                #[trigger] old(self).slices@[j]).key,
            old(self).slices@.len() <= u32::MAX as int,
            4 * (old(self).slices@.len() as int * old(self).slices@[0].rows as int * old(
                self,
            ).slices@[0].cols as int) <= usize::MAX as int,
        ensures
            final(self).wf(),
            final(self).slice_array_original@ == assembled(old(self).slices@),
            final(self).slice_array@ == assembled(old(self).slices@),
            final(self).volume_state() == assembled_state(assembled(old(self).slices@)),
            final(self).slices@.len() == 0,
            final(self).images@ == old(self).images@,
            final(self).filter_indices@ == old(self).filter_indices@,
    {
        let ghost target = assembled(self.slices@);
        let ghost old_slices = self.slices@;
        let n = self.slices.len();
        let rows = self.slices[0].rows;
        let cols = self.slices[0].cols;
        let mut data: Vec<u32> = Vec::new();
        let mut i: usize = 0;
        proof {
            assert(data@.len() == 0);
            assert((0int) * (rows as int) * (cols as int) == 0) by (nonlinear_arith);
        }
        while i < n
            invariant
                old_slices == self.slices@,
                n == old_slices.len(),
                rows as int == old_slices[0].rows as int,
                cols as int == old_slices[0].cols as int,
                forall|s: int| 0 <= s < old_slices.len() ==> (#[trigger] old_slices[s]).wf(),
                forall|s: int|
                    0 <= s < old_slices.len() ==> (#[trigger] old_slices[s]).rows == old_slices[0].rows
                        && old_slices[s].cols == old_slices[0].cols,
                target == assembled(old_slices),
                target.data.len() == n as int * rows as int * cols as int,
                4 * (n as int * rows as int * cols as int) <= usize::MAX as int,
                i <= n,
                data@.len() == i as int * rows as int * cols as int,
                forall|m: int| 0 <= m < data@.len() ==> data@[m] == #[trigger] target.data[m],
            decreases n as int - i as int,
        {
            let mut r: usize = 0;
            while r < rows
                invariant
                    old_slices == self.slices@,
                    n == old_slices.len(),
                    rows as int == old_slices[0].rows as int,
                    cols as int == old_slices[0].cols as int,
                    forall|s: int| 0 <= s < old_slices.len() ==> (#[trigger] old_slices[s]).wf(),
                    forall|s: int|
                        0 <= s < old_slices.len() ==> (#[trigger] old_slices[s]).rows
                            == old_slices[0].rows && old_slices[s].cols == old_slices[0].cols,
                    target == assembled(old_slices),
                    target.data.len() == n as int * rows as int * cols as int,
                    4 * (n as int * rows as int * cols as int) <= usize::MAX as int,
                    i < n,
                    r <= rows,
                    data@.len() == (i as int * rows as int + r as int) * cols as int,
                    forall|m: int| 0 <= m < data@.len() ==> data@[m] == #[trigger] target.data[m],
                decreases rows as int - r as int,
            {
                let mut c: usize = 0;
                while c < cols
                    invariant
                        old_slices == self.slices@,
                        n == old_slices.len(),
                        rows as int == old_slices[0].rows as int,
                        cols as int == old_slices[0].cols as int,
                        forall|s: int|
                            0 <= s < old_slices.len() ==> (#[trigger] old_slices[s]).wf(),
                        forall|s: int|
                            0 <= s < old_slices.len() ==> (#[trigger] old_slices[s]).rows
                                == old_slices[0].rows && old_slices[s].cols == old_slices[0].cols,
                        target == assembled(old_slices),
                        target.data.len() == n as int * rows as int * cols as int,
                        4 * (n as int * rows as int * cols as int) <= usize::MAX as int,
                        i < n,
                        r < rows,
                        c <= cols,
                        data@.len() == (i as int * rows as int + r as int) * cols as int + c as int,
                        forall|m: int|
                            0 <= m < data@.len() ==> data@[m] == #[trigger] target.data[m],
                    decreases cols as int - c as int,
                {
                    proof {
                        lemma_flat_index_bound(
                            i as int,
                            r as int,
                            c as int,
                            n as int,
                            rows as int,
                            cols as int,
                        );
                        lemma_flat_index(i as int, r as int, c as int, rows as int, cols as int);
                        assert((r as int) * (cols as int) + (c as int) < (rows as int) * (cols as int))
                            by (nonlinear_arith)
                            requires
                                0 <= (r as int) < rows as int,
                                0 <= (c as int) < cols as int,
                        ;
                        assert((rows as int) * (cols as int) <= (n as int) * (rows as int) * (cols as int))
                            by (nonlinear_arith)
                            requires
                                1 <= n as int,
                                0 <= (rows as int) * (cols as int),
                        ;
                    }
                    let sample = self.slices[i].data[r * cols + c];
                    let val = (sample as u32) * 255;
                    proof {
                        let m = (i as int * rows as int + r as int) * cols as int + c as int;
                        assert(m < target.data.len());
                        assert(target.data[m] == val);
                    }
                    data.push(val);
                    c = c + 1;
                }
                r = r + 1;
                proof {
                    assert((i as int * rows as int + r as int - 1) * cols as int + cols as int == (
                    i as int * rows as int + r as int) * cols as int) by (nonlinear_arith);
                }
            }
            i = i + 1;
            proof {
                assert(((i as int - 1) * rows as int + rows as int) * cols as int == i as int
                    * rows as int * cols as int) by (nonlinear_arith);
            }
        }
        let canonical = Volume { d0: n, d1: rows, d2: cols, data };
        proof {
            assert(canonical@.data =~= target.data);
            assert(canonical@ =~= target);
        }
        let current = reoriented(&canonical, &Orientation::Axial);
        self.slice_array_original = canonical;
        self.slice_array = current;
        self.slices = Vec::new();
    }

    /// Re-derive the current-orientation volume from the immutable
    /// canonical volume for the requested orientation.  The replacement
    /// is whole: no reader ever observes a partially rewritten buffer.
    pub fn set_volume_orientation(&mut self, orientation: &Orientation)
        requires
            old(self).wf(),
        ensures
            final(self).wf(),
            final(self).slice_array@ == oriented(old(self).slice_array_original@, *orientation),
            final(self).volume_state() == with_orientation(
                old(self).volume_state(),
                *orientation,
            ),
            final(self).slice_array_original@ == old(self).slice_array_original@,
            final(self).images@ == old(self).images@,
            final(self).filter_indices@ == old(self).filter_indices@,
            final(self).slices@ == old(self).slices@,
    {
        self.slice_array = reoriented(&self.slice_array_original, orientation);
    }
}

/// The display bytes of plane `index` of a volume: for each sample of
/// the plane in row-major order, its 8-bit level — the stored
/// fixed-point value divided by `65535`, truncating — replicated into
/// three channels, followed by an opaque alpha byte.
pub open spec fn display_bytes(vol: VolumeView, index: int) -> Seq<u8> {
    Seq::new(
        (4 * vol.d1 * vol.d2) as nat,
        |b: int|
            if b % 4 == 3 {
                255u8
            } else {
                ((vol.at3(index, (b / 4) / vol.d2, (b / 4) % vol.d2) as int) / 65535) as u8
            },
    )
}

impl ImageRepository {
    /// Extract plane `index` of the current-orientation volume as a
    /// displayable RGBA buffer, or nothing when `index` is past the
    /// volume's leading extent — the expected, silent end of navigation.
    pub fn get_image_from_volume(&mut self, index: usize) -> (r: Option<DisplaySlice>)
        requires
            old(self).wf(),
        ensures
            *final(self) == *old(self),
            r is Some <==> (index as int) < old(self).slice_array@.d0,
            (match r {
                Option::Some(ds) => {
                    let vol = old(self).slice_array@;
                    &&& ds.width as int == vol.d2
                    &&& ds.height as int == vol.d1
                    &&& ds.bytes@ == display_bytes(vol, index as int)
                },
                Option::None => true,
            }),
    {
        if index >= self.slice_array.d0 {
            return None;
        }
        let ghost vol = self.slice_array@;
        let ghost target = display_bytes(vol, index as int);
        let height = self.slice_array.d1;
        let width = self.slice_array.d2;
        proof {
            assert(vol.d1 * vol.d2 <= vol.d0 * vol.d1 * vol.d2) by (nonlinear_arith)
                requires
                    1 <= vol.d0,
                    0 <= vol.d1 * vol.d2,
            ;
        }
        let mut bytes: Vec<u8> = Vec::new();
        let mut r: usize = 0;
        while r < height
            invariant
                vol == self.slice_array@,
                vol.wf(),
                (index as int) < vol.d0,
                height as int == vol.d1,
                width as int == vol.d2,
                target == display_bytes(vol, index as int),
                target.len() == 4 * vol.d1 * vol.d2,
                r <= height,
                bytes@.len() == 4 * (r as int * width as int),
                forall|b: int| 0 <= b < bytes@.len() ==> bytes@[b] == #[trigger] target[b],
            decreases height as int - r as int,
        {
            let mut c: usize = 0;
            while c < width
                invariant
                    vol == self.slice_array@,
                    vol.wf(),
                    (index as int) < vol.d0,
                    height as int == vol.d1,
                    width as int == vol.d2,
                    target == display_bytes(vol, index as int),
                    target.len() == 4 * vol.d1 * vol.d2,
                    r < height,
                    c <= width,
                    bytes@.len() == 4 * (r as int * width as int + c as int),
                    forall|b: int| 0 <= b < bytes@.len() ==> bytes@[b] == #[trigger] target[b],
                decreases width as int - c as int,
            {
                let v = self.slice_array.read3(index, r, c);
                let pixel = (v / 65535) as u8;
                proof {
                    let p0 = r as int * width as int + c as int;
                    lemma_fundamental_div_mod_converse_div(p0, width as int, r as int, c as int);
                    lemma_fundamental_div_mod_converse_mod(p0, width as int, r as int, c as int);
                    assert(p0 < vol.d1 * vol.d2) by (nonlinear_arith)
                        requires
                            p0 == r as int * width as int + c as int,
                            0 <= (r as int) < vol.d1,
                            0 <= (c as int) < vol.d2,
                            width as int == vol.d2,
                    ;
                    let b0 = 4 * p0;
                    assert(4 * (vol.d1 * vol.d2) == 4 * vol.d1 * vol.d2) by (nonlinear_arith);
                    lemma_fundamental_div_mod_converse_div(b0, 4, p0, 0);
                    lemma_fundamental_div_mod_converse_mod(b0, 4, p0, 0);
                    lemma_fundamental_div_mod_converse_div(b0 + 1, 4, p0, 1);
                    lemma_fundamental_div_mod_converse_mod(b0 + 1, 4, p0, 1);
                    lemma_fundamental_div_mod_converse_div(b0 + 2, 4, p0, 2);
                    lemma_fundamental_div_mod_converse_mod(b0 + 2, 4, p0, 2);
                    lemma_fundamental_div_mod_converse_div(b0 + 3, 4, p0, 3);
                    lemma_fundamental_div_mod_converse_mod(b0 + 3, 4, p0, 3);
                    assert(target[b0] == pixel && target[b0 + 1] == pixel && target[b0 + 2]
                        == pixel && target[b0 + 3] == 255u8);
                }
                bytes.push(pixel);
                bytes.push(pixel);
                bytes.push(pixel);
                bytes.push(255);
                c = c + 1;
            }
            r = r + 1;
            proof {
                assert(4 * ((r as int - 1) * width as int + width as int) == 4 * (r as int
                    * width as int)) by (nonlinear_arith);
            }
        }
        proof {
            assert(4 * (height as int * width as int) == 4 * vol.d1 * vol.d2) by (nonlinear_arith)
                requires
                    height as int == vol.d1,
                    width as int == vol.d2,
            ;
            assert(bytes@ =~= target);
        }
        Some(DisplaySlice { width: width as u32, height: height as u32, bytes })
    }
}

/// End to end, assembly feeds extraction faithfully: in the display
/// bytes of plane `i` of a freshly assembled volume, pixel `p` carries
/// the level `raw * 255 / 65535` (truncating) of sample `p` of the
/// `i`-th accumulated slice, replicated over three channels, with an
/// opaque alpha byte after it.
pub proof fn lemma_assembled_plane_levels(slices: Seq<AccumulatedSlice>, i: int, p: int)
    requires
        slices.len() > 0,
        forall|s: int| 0 <= s < slices.len() ==> (#[trigger] slices[s]).wf(),
        forall|s: int|
            0 <= s < slices.len() ==> (#[trigger] slices[s]).rows == slices[0].rows
                && slices[s].cols == slices[0].cols,
        0 <= i < slices.len(),
        0 <= p < slices[0].rows as int * slices[0].cols as int,
    ensures
        ({
            let level = ((255 * (slices[i].data@[p] as int)) / 65535) as u8;
            let bytes = display_bytes(assembled(slices), i);
            &&& bytes[4 * p] == level
            &&& bytes[4 * p + 1] == level
            &&& bytes[4 * p + 2] == level
            &&& bytes[4 * p + 3] == 255u8
        }),
{
    let vol = assembled(slices);
    let rows = slices[0].rows as int;
    let cols = slices[0].cols as int;
    let r = p / cols;
    let c = p % cols;
    lemma_fundamental_div_mod(p, cols);
    assert(0 <= r < rows) by (nonlinear_arith)
        requires
            p == cols * r + c,
            0 <= p < rows * cols,
            0 <= c < cols,
            0 < cols,
            0 < rows,
    ;
    // the flattened offset of (i, r, c) decodes back to (i, r, c)
    lemma_flat_index(i, r, c, rows, cols);
    lemma_flat_index_bound(i, r, c, slices.len() as int, rows, cols);
    let m = (i * rows + r) * cols + c;
    assert(vol.data[m] == (255 * (slices[i].data@[r * cols + c] as int)) as u32);
    assert(r * cols + c == p) by (nonlinear_arith)
        requires
            p == cols * r + c,
    ;
    assert(vol.at3(i, r, c) == vol.data[m]);
    // each of the four byte positions decodes to pixel p
    assert(4 * (vol.d1 * vol.d2) == 4 * vol.d1 * vol.d2) by (nonlinear_arith);
    let b0 = 4 * p;
    lemma_fundamental_div_mod_converse_div(b0, 4, p, 0);
    lemma_fundamental_div_mod_converse_mod(b0, 4, p, 0);
    lemma_fundamental_div_mod_converse_div(b0 + 1, 4, p, 1);
    lemma_fundamental_div_mod_converse_mod(b0 + 1, 4, p, 1);
    lemma_fundamental_div_mod_converse_div(b0 + 2, 4, p, 2);
    lemma_fundamental_div_mod_converse_mod(b0 + 2, 4, p, 2);
    lemma_fundamental_div_mod_converse_div(b0 + 3, 4, p, 3);
    lemma_fundamental_div_mod_converse_mod(b0 + 3, 4, p, 3);
    let raw = slices[i].data@[p] as int;
    assert(0 <= 255 * raw <= 255 * 65535);
    assert(vol.at3(i, b0 / 4 / vol.d2, b0 / 4 % vol.d2) == (255 * raw) as u32);
}

} // verus!
