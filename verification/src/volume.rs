//! The 3D volume a series of slices is assembled into, and its
//! reorientation by axis permutation and flips.
//!
//! A volume stores normalized intensities as fixed-point values: a raw
//! sample `v` in the display range `0 ..= 65535` is kept as `v * 255`, so
//! the displayable 8-bit level of a stored value is the value divided by
//! `65535` (truncating).  Axes are `(slice, row, col)` in the canonical
//! (assemble-time, axial) volume.

use vstd::prelude::*;
use vstd::arithmetic::div_mod::{
    lemma_div_denominator, lemma_fundamental_div_mod, lemma_fundamental_div_mod_converse_div,
    lemma_fundamental_div_mod_converse_mod,
};

use crate::Orientation;

verus! {

/// Largest value a volume may store: the top of the display range scaled
/// into fixed point.
pub const MAX_VOLUME_VALUE: u32 = 65535 * 255;

/// Mathematical view of a volume: three axis extents and the flattened
/// contents, row-major with the last axis fastest.
#[verifier::ext_equal]
pub ghost struct VolumeView {
    pub d0: int,
    pub d1: int,
    pub d2: int,
    pub data: Seq<u32>,
}

impl VolumeView {
    /// Total number of samples the axis extents call for.
    pub open spec fn total(self) -> int {
        self.d0 * self.d1 * self.d2
    }

    /// A volume is well formed when its contents match its extents, every
    /// axis extent and every stored value is in range, and a four-byte
    /// display buffer over any of its planes stays addressable.
    pub open spec fn wf(self) -> bool {
        &&& 0 <= self.d0 <= u32::MAX as int
        &&& 0 <= self.d1 <= u32::MAX as int
        &&& 0 <= self.d2 <= u32::MAX as int
        &&& self.data.len() == self.total()
        &&& 4 * self.data.len() <= usize::MAX as int
        &&& forall|n: int|
            0 <= n < self.data.len() ==> #[trigger] self.data[n] <= MAX_VOLUME_VALUE
    }

    /// The sample at coordinates `(i, j, k)`.
    pub open spec fn at3(self, i: int, j: int, k: int) -> u32 {
        self.data[(i * self.d1 + j) * self.d2 + k]
    }

    /// The volume with no samples on any axis.
    pub open spec fn empty() -> VolumeView {
        VolumeView { d0: 0, d1: 0, d2: 0, data: Seq::empty() }
    }
}

/// First coordinate of the flattened offset `n` under inner extents
/// `(dd1, dd2)`.
pub open spec fn flat_i(n: int, dd1: int, dd2: int) -> int {
    n / (dd1 * dd2)
}

/// Second coordinate of the flattened offset `n`.
pub open spec fn flat_j(n: int, dd1: int, dd2: int) -> int {
    (n / dd2) % dd1
}

/// Third coordinate of the flattened offset `n`.
pub open spec fn flat_k(n: int, dd2: int) -> int {
    n % dd2
}

/// Flattening coordinates and then decoding the offset returns the same
/// coordinates.
pub proof fn lemma_flat_index(i: int, j: int, k: int, dd1: int, dd2: int)
    requires
        0 <= i,
        0 <= j < dd1,
        0 <= k < dd2,
    ensures
        ({
            let n = (i * dd1 + j) * dd2 + k;
            &&& 0 <= n
            &&& flat_i(n, dd1, dd2) == i
            &&& flat_j(n, dd1, dd2) == j
            &&& flat_k(n, dd2) == k
        }),
{
    let q1 = i * dd1 + j;
    let n = q1 * dd2 + k;
    assert(0 <= q1) by (nonlinear_arith)
        requires
            q1 == i * dd1 + j,
            0 <= i,
            0 <= j,
            0 < dd1,
    ;
    assert(0 <= q1 * dd2) by (nonlinear_arith)
        requires
            0 <= q1,
            0 < dd2,
    ;
    lemma_fundamental_div_mod_converse_div(n, dd2, q1, k);
    lemma_fundamental_div_mod_converse_mod(n, dd2, q1, k);
    lemma_fundamental_div_mod_converse_mod(q1, dd1, i, j);
    assert(n == i * (dd1 * dd2) + (j * dd2 + k)) by (nonlinear_arith)
        requires
            n == (i * dd1 + j) * dd2 + k,
    ;
    assert(0 <= j * dd2 + k < dd1 * dd2) by (nonlinear_arith)
        requires
            0 <= j < dd1,
            0 <= k < dd2,
    ;
    lemma_fundamental_div_mod_converse_div(n, dd1 * dd2, i, j * dd2 + k);
}

/// A flattened offset is within the volume's total extent.
pub proof fn lemma_flat_index_bound(i: int, j: int, k: int, d0: int, dd1: int, dd2: int)
    requires
        0 <= i < d0,
        0 <= j < dd1,
        0 <= k < dd2,
    ensures
        0 <= (i * dd1 + j) * dd2 + k < d0 * dd1 * dd2,
{
    assert(0 <= i * dd1 + j < d0 * dd1) by (nonlinear_arith)
        requires
            0 <= i < d0,
            0 <= j < dd1,
    ;
    assert((i * dd1 + j) * dd2 + k < (d0 * dd1) * dd2 && 0 <= (i * dd1 + j) * dd2 + k)
        by (nonlinear_arith)
        requires
            0 <= i * dd1 + j < d0 * dd1,
            0 <= k < dd2,
    ;
    assert((d0 * dd1) * dd2 == d0 * dd1 * dd2) by (nonlinear_arith);
}

/// Decoding a flattened offset `n` yields in-range coordinates that
/// flatten back to `n`.
pub proof fn lemma_flat_unindex(n: int, d0: int, dd1: int, dd2: int)
    requires
        0 <= n < d0 * dd1 * dd2,
        0 <= d0,
        0 <= dd1,
        0 <= dd2,
    ensures
        0 <= flat_i(n, dd1, dd2) < d0,
        0 <= flat_j(n, dd1, dd2) < dd1,
        0 <= flat_k(n, dd2) < dd2,
        (flat_i(n, dd1, dd2) * dd1 + flat_j(n, dd1, dd2)) * dd2 + flat_k(n, dd2) == n,
{
    assert(0 < d0 && 0 < dd1 && 0 < dd2) by (nonlinear_arith)
        requires
            0 <= n < d0 * dd1 * dd2,
            0 <= d0,
            0 <= dd1,
            0 <= dd2,
    ;
    let q = n / dd2;
    let r = n % dd2;
    lemma_fundamental_div_mod(n, dd2);
    // n == dd2 * q + r, 0 <= r < dd2
    lemma_fundamental_div_mod(q, dd1);
    // q == dd1 * (q / dd1) + q % dd1, 0 <= q % dd1 < dd1
    lemma_div_denominator(n, dd2, dd1);
    // (n / dd2) / dd1 == n / (dd2 * dd1)
    assert(dd1 * dd2 == dd2 * dd1) by (nonlinear_arith);
    assert(flat_i(n, dd1, dd2) == q / dd1);
    assert(0 <= q) by (nonlinear_arith)
        requires
            n == dd2 * q + r,
            0 <= n,
            0 <= r < dd2,
            0 < dd2,
    ;
    assert(0 <= q / dd1);
    assert((q / dd1 * dd1 + q % dd1) * dd2 + r == n) by (nonlinear_arith)
        requires
            n == dd2 * q + r,
            q == dd1 * (q / dd1) + q % dd1,
    ;
    // the decoded first coordinate is below d0
    assert(q / dd1 < d0) by (nonlinear_arith)
        requires
            (q / dd1 * dd1 + q % dd1) * dd2 + r == n,
            n < d0 * dd1 * dd2,
            0 <= q % dd1 < dd1,
            0 <= r < dd2,
            0 < dd1,
            0 < dd2,
            0 <= q / dd1,
    ;
}

/// The volume derived from canonical volume `c` for orientation `o`:
/// axial is the identity; coronal permutes axes to `(row, slice, col)`
/// and sagittal to `(col, slice, row)`, and both then reverse the new
/// second axis (the canonical slice axis).
pub open spec fn oriented(c: VolumeView, o: Orientation) -> VolumeView {
    match o {
        Orientation::Axial => c,
        Orientation::Coronal => VolumeView {
            d0: c.d1,
            d1: c.d0,
            d2: c.d2,
            data: Seq::new(
                c.data.len(),
                |n: int|
                    c.at3(
                        c.d0 - 1 - flat_j(n, c.d0, c.d2),
                        flat_i(n, c.d0, c.d2),
                        flat_k(n, c.d2),
                    ),
            ),
        },
        Orientation::Sagittal => VolumeView {
            d0: c.d2,
            d1: c.d0,
            d2: c.d1,
            data: Seq::new(
                c.data.len(),
                |n: int|
                    c.at3(
                        c.d0 - 1 - flat_j(n, c.d0, c.d1),
                        flat_k(n, c.d1),
                        flat_i(n, c.d0, c.d1),
                    ),
            ),
        },
    }
}

/// Reindexing a sequence along a bijection between positions leaves its
/// multiset of values unchanged.  `f` maps each position of `t` to the
/// position of `s` it copies, and `g` is its inverse.
pub proof fn lemma_reindex_multiset<A>(
    s: Seq<A>,
    t: Seq<A>,
    f: spec_fn(int) -> int,
    g: spec_fn(int) -> int,
)
    requires
        t.len() == s.len(),
        forall|n: int| 0 <= n < t.len() ==> 0 <= #[trigger] f(n) < s.len() && t[n] == s[f(n)],
        forall|m: int| 0 <= m < s.len() ==> 0 <= #[trigger] g(m) < t.len() && f(g(m)) == m,
        forall|n: int| 0 <= n < t.len() ==> #[trigger] g(f(n)) == n,
    ensures
        t.to_multiset() == s.to_multiset(),
    decreases s.len(),
{
    broadcast use vstd::seq_lib::group_to_multiset_ensures;
    broadcast use vstd::multiset::group_multiset_axioms;

    if s.len() == 0 {
        assert(t =~= s);
    } else {
        let m = s.len() - 1;
        let v = s[m];
        let p = g(m);
        assert(t[p] == s[f(p)]);
        let s2 = s.remove(m);
        let t2 = t.remove(p);
        s.remove_ensures(m);
        t.remove_ensures(p);
        let f2 = |n: int| if n < p { f(n) } else { f(n + 1) };
        let g2 = |mm: int| if g(mm) < p { g(mm) } else { g(mm) - 1 };
        assert forall|n: int|
            0 <= n < t2.len() implies 0 <= #[trigger] f2(n) < s2.len() && t2[n] == s2[f2(n)] by {
            let nn = if n < p { n } else { n + 1 };
            assert(0 <= nn < t.len() && nn != p);
            assert(g(f(nn)) == nn);
            assert(f(nn) != m);
            assert(t2[n] == t[nn]);
        }
        assert forall|mm: int|
            0 <= mm < s2.len() implies 0 <= #[trigger] g2(mm) < t2.len() && f2(g2(mm)) == mm by {
            let q = g(mm);
            assert(0 <= q < t.len() && f(q) == mm);
            assert(q != p);
        }
        assert forall|n: int| 0 <= n < t2.len() implies #[trigger] g2(f2(n)) == n by {
            let nn = if n < p { n } else { n + 1 };
            assert(0 <= nn < t.len() && nn != p);
            assert(g(f(nn)) == nn);
        }
        lemma_reindex_multiset(s2, t2, f2, g2);
        assert(t2.to_multiset() == t.to_multiset().remove(v));
        assert(s2.to_multiset() == s.to_multiset().remove(v));
        assert(t.contains(v));
        assert(t.to_multiset().count(v) > 0);
        assert(s.to_multiset().count(v) > 0);
        assert(t.to_multiset() =~= t.to_multiset().remove(v).insert(v));
        assert(s.to_multiset() =~= s.to_multiset().remove(v).insert(v));
    }
}

/// Reorientation conserves the samples: for every orientation the derived
/// volume holds exactly as many samples as the canonical volume, and the
/// multiset of intensity values is unchanged — permutation and flips
/// neither drop nor duplicate a sample.
pub proof fn lemma_oriented_conserves(c: VolumeView, o: Orientation)
    requires
        c.wf(),
    ensures
        oriented(c, o).data.len() == c.data.len(),
        oriented(c, o).data.to_multiset() == c.data.to_multiset(),
{
    let t = oriented(c, o).data;
    let s = c.data;
    match o {
        Orientation::Axial => {},
        Orientation::Coronal => {
            let f = |n: int|
                ((c.d0 - 1 - flat_j(n, c.d0, c.d2)) * c.d1 + flat_i(n, c.d0, c.d2)) * c.d2
                    + flat_k(n, c.d2);
            let g = |m: int|
                (flat_j(m, c.d1, c.d2) * c.d0 + (c.d0 - 1 - flat_i(m, c.d1, c.d2))) * c.d2
                    + flat_k(m, c.d2);
            assert(c.d1 * c.d0 * c.d2 == c.d0 * c.d1 * c.d2) by (nonlinear_arith);
            assert forall|n: int| 0 <= n < t.len() implies 0 <= #[trigger] f(n) < s.len() && t[n]
                == s[f(n)] by {
                lemma_flat_unindex(n, c.d1, c.d0, c.d2);
                lemma_flat_index_bound(
                    c.d0 - 1 - flat_j(n, c.d0, c.d2),
                    flat_i(n, c.d0, c.d2),
                    flat_k(n, c.d2),
                    c.d0,
                    c.d1,
                    c.d2,
                );
            }
            assert forall|m: int| 0 <= m < s.len() implies 0 <= #[trigger] g(m) < t.len() && f(g(m))
                == m by {
                lemma_flat_unindex(m, c.d0, c.d1, c.d2);
                let a = flat_i(m, c.d1, c.d2);
                let b = flat_j(m, c.d1, c.d2);
                let e = flat_k(m, c.d2);
                lemma_flat_index_bound(b, c.d0 - 1 - a, e, c.d1, c.d0, c.d2);
                lemma_flat_index(b, c.d0 - 1 - a, e, c.d0, c.d2);
            }
            assert forall|n: int| 0 <= n < t.len() implies #[trigger] g(f(n)) == n by {
                lemma_flat_unindex(n, c.d1, c.d0, c.d2);
                let b = flat_j(n, c.d0, c.d2);
                let a = flat_i(n, c.d0, c.d2);
                let e = flat_k(n, c.d2);
                lemma_flat_index_bound(c.d0 - 1 - b, a, e, c.d0, c.d1, c.d2);
                lemma_flat_index(c.d0 - 1 - b, a, e, c.d1, c.d2);
            }
            lemma_reindex_multiset(s, t, f, g);
        },
        Orientation::Sagittal => {
            let f = |n: int|
                ((c.d0 - 1 - flat_j(n, c.d0, c.d1)) * c.d1 + flat_k(n, c.d1)) * c.d2 + flat_i(
                    n,
                    c.d0,
                    c.d1,
                );
            let g = |m: int|
                (flat_k(m, c.d2) * c.d0 + (c.d0 - 1 - flat_i(m, c.d1, c.d2))) * c.d1 + flat_j(
                    m,
                    c.d1,
                    c.d2,
                );
            assert(c.d2 * c.d0 * c.d1 == c.d0 * c.d1 * c.d2) by (nonlinear_arith);
            assert forall|n: int| 0 <= n < t.len() implies 0 <= #[trigger] f(n) < s.len() && t[n]
                == s[f(n)] by {
                lemma_flat_unindex(n, c.d2, c.d0, c.d1);
                lemma_flat_index_bound(
                    c.d0 - 1 - flat_j(n, c.d0, c.d1),
                    flat_k(n, c.d1),
                    flat_i(n, c.d0, c.d1),
                    c.d0,
                    c.d1,
                    c.d2,
                );
            }
            assert forall|m: int| 0 <= m < s.len() implies 0 <= #[trigger] g(m) < t.len() && f(g(m))
                == m by {
                lemma_flat_unindex(m, c.d0, c.d1, c.d2);
                let a = flat_i(m, c.d1, c.d2);
                let b = flat_j(m, c.d1, c.d2);
                let e = flat_k(m, c.d2);
                lemma_flat_index_bound(e, c.d0 - 1 - a, b, c.d2, c.d0, c.d1);
                lemma_flat_index(e, c.d0 - 1 - a, b, c.d0, c.d1);
            }
            assert forall|n: int| 0 <= n < t.len() implies #[trigger] g(f(n)) == n by {
                lemma_flat_unindex(n, c.d2, c.d0, c.d1);
                let b = flat_j(n, c.d0, c.d1);
                let e = flat_k(n, c.d1);
                let a = flat_i(n, c.d0, c.d1);
                lemma_flat_index_bound(c.d0 - 1 - b, e, a, c.d0, c.d1, c.d2);
                lemma_flat_index(c.d0 - 1 - b, e, a, c.d1, c.d2);
            }
            lemma_reindex_multiset(s, t, f, g);
        },
    }
}

/// The extent of one named axis of a volume.
pub open spec fn axis_extent(c: VolumeView, axis: int) -> int {
    if axis == 0 {
        c.d0
    } else if axis == 1 {
        c.d1
    } else {
        c.d2
    }
}

/// The axis extents of a derived volume follow the orientation's
/// permutation table: axis `p` of the derived volume has the extent of
/// the canonical axis the permutation names.
pub proof fn lemma_oriented_extents(c: VolumeView, o: Orientation)
    ensures
        ({
            let (p0, p1, p2) = o.permutation_spec();
            &&& oriented(c, o).d0 == axis_extent(c, p0)
            &&& oriented(c, o).d1 == axis_extent(c, p1)
            &&& oriented(c, o).d2 == axis_extent(c, p2)
        }),
{
}

/// The repository's volume state: the canonical volume fixed at assembly
/// time and the current-orientation volume derived from it.
#[verifier::ext_equal]
pub ghost struct VolumeState {
    pub canonical: VolumeView,
    pub current: VolumeView,
}

/// The state right after assembly: the current volume is the canonical
/// one, viewed axially.
pub open spec fn assembled_state(c: VolumeView) -> VolumeState {
    VolumeState { canonical: c, current: c }
}

/// The state after a change of orientation: the current volume is fully
/// re-derived from the immutable canonical volume.
pub open spec fn with_orientation(s: VolumeState, o: Orientation) -> VolumeState {
    VolumeState { canonical: s.canonical, current: oriented(s.canonical, o) }
}

/// Changing orientation is idempotent: setting the same orientation again
/// leaves the state — shape and values of the current volume — unchanged,
/// because the current volume is re-derived from the immutable canonical
/// volume each time.
pub proof fn lemma_orientation_idempotent(s: VolumeState, o: Orientation)
    ensures
        with_orientation(with_orientation(s, o), o) == with_orientation(s, o),
{
}

/// Setting axial, then coronal, then axial again restores exactly the
/// state produced by assembly: earlier orientation changes leave no trace.
pub proof fn lemma_orientation_rederives(c: VolumeView)
    ensures
        with_orientation(
            with_orientation(
                with_orientation(assembled_state(c), Orientation::Axial),
                Orientation::Coronal,
            ),
            Orientation::Axial,
        ) == assembled_state(c),
{
}

/// A 3D array of normalized fixed-point intensities, flattened row-major
/// with axis 2 fastest.
pub struct Volume {
    pub d0: usize,
    pub d1: usize,
    pub d2: usize,
    pub data: Vec<u32>,
}

impl View for Volume {
    type V = VolumeView;

    open spec fn view(&self) -> VolumeView {
        VolumeView { d0: self.d0 as int, d1: self.d1 as int, d2: self.d2 as int, data: self.data@ }
    }
}

impl Volume {
    /// The empty volume, used before any series has been assembled.
    pub fn zeros() -> (r: Volume)
        ensures
            r@ == VolumeView::empty(),
            r@.wf(),
    {
        let r = Volume { d0: 0, d1: 0, d2: 0, data: Vec::new() };
        proof {
            assert(r@ =~= VolumeView::empty());
        }
        r
    }

    /// Read the sample at `(i, j, k)`.
    pub fn read3(&self, i: usize, j: usize, k: usize) -> (r: u32)
        requires
            self@.wf(),
            (i as int) < self@.d0,
            (j as int) < self@.d1,
            (k as int) < self@.d2,
        ensures
            r == self@.at3(i as int, j as int, k as int),
    {
        proof {
            lemma_flat_index_bound(i as int, j as int, k as int, self@.d0, self@.d1, self@.d2);
            assert(i as int * self@.d1 + j < self@.d0 * self@.d1) by (nonlinear_arith)
                requires
                    (i as int) < self@.d0,
                    (j as int) < self@.d1,
                    0 <= (i as int),
                    0 <= (j as int),
            ;
            assert(self@.d0 * self@.d1 <= self@.d0 * self@.d1 * self@.d2) by (nonlinear_arith)
                requires
                    0 <= self@.d0 * self@.d1,
                    1 <= self@.d2,
            ;
        }
        let n = (i * self.d1 + j) * self.d2 + k;
        self.data[n]
    }
}

/// Build the volume for orientation `o` afresh from the canonical volume
/// `v`, leaving `v` untouched.
pub fn reoriented(v: &Volume, orientation: &Orientation) -> (r: Volume)
    requires
        v@.wf(),
    ensures
        r@ == oriented(v@, *orientation),
        r@.wf(),
{
    let ghost target = oriented(v@, *orientation);
    let (nd0, nd1, nd2) = match orientation {
        Orientation::Axial => (v.d0, v.d1, v.d2),
        Orientation::Coronal => (v.d1, v.d0, v.d2),
        Orientation::Sagittal => (v.d2, v.d0, v.d1),
    };
    proof {
        assert(v@.d1 * v@.d0 * v@.d2 == v@.d0 * v@.d1 * v@.d2 && v@.d2 * v@.d0 * v@.d1 == v@.d0
            * v@.d1 * v@.d2) by (nonlinear_arith);
    }
    let mut data: Vec<u32> = Vec::new();
    let mut i: usize = 0;
    while i < nd0
        invariant
            v@.wf(),
            target == oriented(v@, *orientation),
            nd0 as int == target.d0,
            nd1 as int == target.d1,
            nd2 as int == target.d2,
            target.data.len() == v@.total(),
            nd0 as int * nd1 as int * nd2 as int == v@.total(),
            i <= nd0,
            data@.len() == i as int * nd1 as int * nd2 as int,
            forall|m: int| 0 <= m < data@.len() ==> data@[m] == #[trigger] target.data[m],
        decreases nd0 as int - i as int,
    {
        let mut j: usize = 0;
        while j < nd1
            invariant
                v@.wf(),
                target == oriented(v@, *orientation),
                nd0 as int == target.d0,
                nd1 as int == target.d1,
                nd2 as int == target.d2,
                target.data.len() == v@.total(),
                nd0 as int * nd1 as int * nd2 as int == v@.total(),
                i < nd0,
                j <= nd1,
                data@.len() == (i as int * nd1 as int + j as int) * nd2 as int,
                forall|m: int| 0 <= m < data@.len() ==> data@[m] == #[trigger] target.data[m],
            decreases nd1 as int - j as int,
        {
            let mut k: usize = 0;
            while k < nd2
                invariant
                    v@.wf(),
                    target == oriented(v@, *orientation),
                    nd0 as int == target.d0,
                    nd1 as int == target.d1,
                    nd2 as int == target.d2,
                    target.data.len() == v@.total(),
                    nd0 as int * nd1 as int * nd2 as int == v@.total(),
                    i < nd0,
                    j < nd1,
                    k <= nd2,
                    data@.len() == (i as int * nd1 as int + j as int) * nd2 as int + k as int,
                    forall|m: int| 0 <= m < data@.len() ==> data@[m] == #[trigger] target.data[m],
                decreases nd2 as int - k as int,
            {
                proof {
                    lemma_flat_index_bound(
                        i as int,
                        j as int,
                        k as int,
                        nd0 as int,
                        nd1 as int,
                        nd2 as int,
                    );
                    lemma_flat_index(i as int, j as int, k as int, nd1 as int, nd2 as int);
                }
                let val = match orientation {
                    Orientation::Axial => v.read3(i, j, k),
                    Orientation::Coronal => v.read3(v.d0 - 1 - j, i, k),
                    Orientation::Sagittal => v.read3(v.d0 - 1 - j, k, i),
                };
                proof {
                    let n = (i as int * nd1 as int + j as int) * nd2 as int + k as int;
                    assert(n < target.data.len());
                    assert(target.data[n] == val);
                }
                data.push(val);
                k = k + 1;
            }
            j = j + 1;
            proof {
                assert((i as int * nd1 as int + j as int - 1) * nd2 as int + nd2 as int == (
                i as int * nd1 as int + j as int) * nd2 as int) by (nonlinear_arith);
            }
        }
        i = i + 1;
        proof {
            assert(((i as int - 1) * nd1 as int + nd1 as int) * nd2 as int == i as int
                * nd1 as int * nd2 as int) by (nonlinear_arith);
        }
    }
    let r = Volume { d0: nd0, d1: nd1, d2: nd2, data };
    proof {
        let c = v@;
        assert forall|m: int|
            0 <= m < target.data.len() implies #[trigger] target.data[m]
            <= MAX_VOLUME_VALUE by {
            match *orientation {
                Orientation::Axial => {},
                Orientation::Coronal => {
                    assert(c.d1 * c.d0 * c.d2 == c.d0 * c.d1 * c.d2) by (nonlinear_arith);
                    lemma_flat_unindex(m, c.d1, c.d0, c.d2);
                    lemma_flat_index_bound(
                        c.d0 - 1 - flat_j(m, c.d0, c.d2),
                        flat_i(m, c.d0, c.d2),
                        flat_k(m, c.d2),
                        c.d0,
                        c.d1,
                        c.d2,
                    );
                },
                Orientation::Sagittal => {
                    assert(c.d2 * c.d0 * c.d1 == c.d0 * c.d1 * c.d2) by (nonlinear_arith);
                    lemma_flat_unindex(m, c.d2, c.d0, c.d1);
                    lemma_flat_index_bound(
                        c.d0 - 1 - flat_j(m, c.d0, c.d1),
                        flat_k(m, c.d1),
                        flat_i(m, c.d0, c.d1),
                        c.d0,
                        c.d1,
                        c.d2,
                    );
                },
            }
        }
        assert(r@.data =~= target.data);
        assert(r@ =~= target);
    }
    r
}

} // verus!
