use vstd::prelude::*;

use crate::bbox::{bb_tracks, BoundingBox};
use crate::model::{
    build_faces, build_verts, face_corners, face_record, lemma_build_push, FaceDesc, Model,
};
use crate::voxelidx::VoxelIdx;

verus! {

/// A coordinate the stores accept: strictly inside the i32 range on every
/// axis, so that all six neighbours are representable.
pub open spec fn coord_ok(t: (int, int, int)) -> bool {
    &&& -2147483646 <= t.0 <= 2147483646
    &&& -2147483646 <= t.1 <= 2147483646
    &&& -2147483646 <= t.2 <= 2147483646
}

/// A run record widened to mathematical integers.
pub open spec fn wide4(r: (i32, i32, i32, i32)) -> (int, int, int, int) {
    (r.0 as int, r.1 as int, r.2 as int, r.3 as int)
}

/// The voxels covered by one run `(x, y, lo, hi)`: the column (x, y) for z in
/// the half-open span [lo, hi).
pub open spec fn run_pts(r: (int, int, int, int)) -> Set<(int, int, int)> {
    Set::new(|t: (int, int, int)| t.0 == r.0 && t.1 == r.1 && r.2 <= t.2 < r.3)
}

/// The voxels covered by a run list.
pub open spec fn runs_pts(runs: Seq<(int, int, int, int)>) -> Set<(int, int, int)>
    decreases runs.len(),
{
    if runs.len() == 0 {
        Set::empty()
    } else {
        runs_pts(runs.drop_last()).union(run_pts(runs.last()))
    }
}

/// Total length of a run list: the block count it represents.
pub open spec fn runs_total(runs: Seq<(int, int, int, int)>) -> int
    decreases runs.len(),
{
    if runs.len() == 0 {
        0
    } else {
        runs_total(runs.drop_last()) + (runs.last().3 - runs.last().2)
    }
}

/// A well-formed run: non-empty span, representable coordinates.
pub open spec fn run_ok(r: (int, int, int, int)) -> bool {
    &&& r.2 < r.3
    &&& coord_ok((r.0, r.1, r.2))
    &&& coord_ok((r.0, r.1, r.3 - 1))
}

pub open spec fn runs_ok(runs: Seq<(int, int, int, int)>) -> bool {
    forall|i: int| 0 <= i < runs.len() ==> run_ok(#[trigger] runs[i])
}

/// Every voxel covered by well-formed runs has representable coordinates.
pub proof fn lemma_runs_pts_ok(runs: Seq<(int, int, int, int)>)
    requires
        runs_ok(runs),
    ensures
        forall|t: (int, int, int)| runs_pts(runs).contains(t) ==> coord_ok(t),
    decreases runs.len(),
{
    if runs.len() != 0 {
        assert(runs_ok(runs.drop_last())) by {
            assert(forall|i: int|
                0 <= i < runs.len() - 1 ==> runs.drop_last()[i] == runs[i]);
        }
        lemma_runs_pts_ok(runs.drop_last());
        assert(run_ok(runs.last()));
        assert forall|t: (int, int, int)| runs_pts(runs).contains(t) implies coord_ok(t) by {
            if run_pts(runs.last()).contains(t) {
                assert(t.0 == runs.last().0 && t.1 == runs.last().1);
                assert(runs.last().2 <= t.2 <= runs.last().3 - 1);
            } else {
                assert(runs_pts(runs.drop_last()).contains(t));
            }
        }
    }
}

/// Concatenating run lists unions their coverage.
pub proof fn lemma_runs_pts_concat(a: Seq<(int, int, int, int)>, b: Seq<(int, int, int, int)>)
    ensures
        runs_pts(a + b) == runs_pts(a).union(runs_pts(b)),
    decreases b.len(),
{
    if b.len() == 0 {
        assert(a + b =~= a);
        assert(runs_pts(b) =~= Set::<(int, int, int)>::empty());
        assert(runs_pts(a).union(runs_pts(b)) =~= runs_pts(a));
    } else {
        lemma_runs_pts_concat(a, b.drop_last());
        assert((a + b).drop_last() =~= a + b.drop_last());
        assert((a + b).last() == b.last());
        assert(runs_pts(a + b) == runs_pts(a + b.drop_last()).union(run_pts(b.last())));
        assert(runs_pts(a).union(runs_pts(b.drop_last())).union(run_pts(b.last())) =~= runs_pts(
            a,
        ).union(runs_pts(b)));
    }
}

/// Concatenating run lists adds their totals.
pub proof fn lemma_runs_total_concat(a: Seq<(int, int, int, int)>, b: Seq<(int, int, int, int)>)
    ensures
        runs_total(a + b) == runs_total(a) + runs_total(b),
    decreases b.len(),
{
    if b.len() == 0 {
        assert(a + b =~= a);
    } else {
        lemma_runs_total_concat(a, b.drop_last());
        assert((a + b).drop_last() =~= a + b.drop_last());
        assert((a + b).last() == b.last());
    }
}

/// One more run adds its length to the running total.
pub proof fn lemma_runs_total_snoc(runs: Seq<(int, int, int, int)>, i: int)
    requires
        0 <= i < runs.len(),
    ensures
        runs_total(runs.take(i + 1)) == runs_total(runs.take(i)) + (runs[i].3 - runs[i].2),
{
    assert(runs.take(i + 1).drop_last() =~= runs.take(i));
    assert(runs.take(i + 1).last() == runs[i]);
}

/// A prefix of a well-formed run list never exceeds the whole total.
pub proof fn lemma_runs_total_prefix(runs: Seq<(int, int, int, int)>, i: int)
    requires
        runs_ok(runs),
        0 <= i <= runs.len(),
    ensures
        0 <= runs_total(runs.take(i)) <= runs_total(runs),
    decreases runs.len() - i,
{
    assert(runs_ok(runs.take(i))) by {
        assert(forall|j: int| 0 <= j < i ==> runs.take(i)[j] == runs[j]);
    }
    lemma_runs_total_nonneg(runs.take(i));
    if i == runs.len() {
        assert(runs.take(i) =~= runs);
    } else {
        lemma_runs_total_snoc(runs, i);
        assert(run_ok(runs[i]));
        lemma_runs_total_prefix(runs, i + 1);
    }
}

/// A well-formed run list has a non-negative total.
pub proof fn lemma_runs_total_nonneg(runs: Seq<(int, int, int, int)>)
    requires
        runs_ok(runs),
    ensures
        runs_total(runs) >= runs.len(),
    decreases runs.len(),
{
    if runs.len() != 0 {
        assert(runs_ok(runs.drop_last())) by {
            assert(forall|i: int| 0 <= i < runs.len() - 1 ==> runs.drop_last()[i] == runs[i]);
        }
        lemma_runs_total_nonneg(runs.drop_last());
        assert(run_ok(runs[runs.len() - 1]));
        assert(runs.last() == runs[runs.len() - 1]);
    }
}

/// The voxels of one run form a finite set of exactly the run's length.
pub proof fn lemma_run_pts_card(r: (int, int, int, int))
    requires
        r.2 <= r.3,
    ensures
        run_pts(r).finite(),
        run_pts(r).len() == r.3 - r.2,
    decreases r.3 - r.2,
{
    if r.2 == r.3 {
        assert(run_pts(r) =~= Set::<(int, int, int)>::empty());
    } else {
        let shorter = (r.0, r.1, r.2, r.3 - 1);
        lemma_run_pts_card(shorter);
        let top = (r.0, r.1, r.3 - 1);
        assert(!run_pts(shorter).contains(top));
        assert(run_pts(r) =~= run_pts(shorter).insert(top));
    }
}

/// A single-run list covers exactly that run, with its length as total.
pub proof fn lemma_runs_one(t: (int, int, int, int))
    ensures
        runs_pts(seq![t]) == run_pts(t),
        runs_total(seq![t]) == t.3 - t.2,
{
    assert(seq![t].drop_last() =~= Seq::<(int, int, int, int)>::empty());
    assert(seq![t].last() == t);
    assert(runs_pts(Seq::<(int, int, int, int)>::empty()) == Set::<(int, int, int)>::empty());
    assert(runs_total(Seq::<(int, int, int, int)>::empty()) == 0);
    assert(Set::<(int, int, int)>::empty().union(run_pts(t)) =~= run_pts(t));
}

/// The coverage of a run list is a finite set.
pub proof fn lemma_runs_pts_finite(runs: Seq<(int, int, int, int)>)
    ensures
        runs_pts(runs).finite(),
    decreases runs.len(),
{
    if runs.len() != 0 {
        lemma_runs_pts_finite(runs.drop_last());
        let last = runs.last();
        if last.2 <= last.3 {
            lemma_run_pts_card(last);
        } else {
            assert(run_pts(last) =~= Set::<(int, int, int)>::empty());
        }
    }
}

// --------------------------------------------------------------------------
// Which quads the boundary extractor emits, as a function of the occupancy
// set and the run list.
// --------------------------------------------------------------------------

/// The voxel adjacent to `(x, y, z)` in lateral direction `d`
/// (0: +x, 1: -x, 2: +y, 3: -y).
pub open spec fn lat_neighbor(x: int, y: int, z: int, d: int) -> (int, int, int) {
    if d == 0 {
        (x + 1, y, z)
    } else if d == 1 {
        (x - 1, y, z)
    } else if d == 2 {
        (x, y + 1, z)
    } else {
        (x, y - 1, z)
    }
}

/// The quad exposing the side of voxel `(x, y, z)` in lateral direction `d`;
/// the anchor and extent give a winding consistent with the neighbour tables.
pub open spec fn lat_face(x: int, y: int, z: int, d: int) -> FaceDesc {
    if d == 0 {
        ((x + 1, y + 1, z + 1), (0int, -1int, -1int))
    } else if d == 1 {
        ((x, y, z), (0int, 1int, 1int))
    } else if d == 2 {
        ((x + 1, y + 1, z + 1), (-1int, 0int, -1int))
    } else {
        ((x, y, z), (1int, 0int, 1int))
    }
}

/// The lateral quads of voxel `(x, y, z)` in direction `d`: one if the
/// neighbour is free, none otherwise.
pub open spec fn lat_head(occ: Set<(int, int, int)>, x: int, y: int, z: int, d: int) -> Seq<
    FaceDesc,
> {
    if !occ.contains(lat_neighbor(x, y, z, d)) {
        seq![lat_face(x, y, z, d)]
    } else {
        Seq::empty()
    }
}

/// The lateral quads of direction `d` for every z in [lo, hi), in ascending
/// order.
pub open spec fn lat_faces(
    occ: Set<(int, int, int)>,
    x: int,
    y: int,
    d: int,
    lo: int,
    hi: int,
) -> Seq<FaceDesc>
    decreases hi - lo,
{
    if lo >= hi {
        Seq::empty()
    } else {
        lat_head(occ, x, y, lo, d) + lat_faces(occ, x, y, d, lo + 1, hi)
    }
}

/// The bottom and top caps of a run, each emitted when the voxel beyond the
/// run end is free.
pub open spec fn cap_faces(occ: Set<(int, int, int)>, x: int, y: int, lo: int, hi: int) -> Seq<
    FaceDesc,
> {
    let bottom: Seq<FaceDesc> = if !occ.contains((x, y, lo - 1)) {
        seq![((x, y, lo), (1int, 1int, 0int))]
    } else {
        Seq::empty()
    };
    let top: Seq<FaceDesc> = if !occ.contains((x, y, hi)) {
        seq![((x, y, hi), (1int, 1int, 0int))]
    } else {
        Seq::empty()
    };
    bottom + top
}

/// Every quad one run contributes: caps, then the four lateral directions.
pub open spec fn run_faces(occ: Set<(int, int, int)>, r: (int, int, int, int)) -> Seq<FaceDesc> {
    cap_faces(occ, r.0, r.1, r.2, r.3) + lat_faces(occ, r.0, r.1, 0, r.2, r.3) + lat_faces(
        occ,
        r.0,
        r.1,
        1,
        r.2,
        r.3,
    ) + lat_faces(occ, r.0, r.1, 2, r.2, r.3) + lat_faces(occ, r.0, r.1, 3, r.2, r.3)
}

/// Every quad of the boundary mesh, in run order.
pub open spec fn mesh_faces(occ: Set<(int, int, int)>, runs: Seq<(int, int, int, int)>) -> Seq<
    FaceDesc,
>
    decreases runs.len(),
{
    if runs.len() == 0 {
        Seq::empty()
    } else {
        mesh_faces(occ, runs.drop_last()) + run_faces(occ, runs.last())
    }
}

/// Extending the scanned span by one z step appends that voxel's quads.
pub proof fn lemma_lat_faces_snoc(
    occ: Set<(int, int, int)>,
    x: int,
    y: int,
    d: int,
    lo: int,
    hi: int,
)
    requires
        lo <= hi,
    ensures
        lat_faces(occ, x, y, d, lo, hi + 1) == lat_faces(occ, x, y, d, lo, hi) + lat_head(
            occ,
            x,
            y,
            hi,
            d,
        ),
    decreases hi - lo,
{
    if lo == hi {
        assert(lat_faces(occ, x, y, d, lo, hi) =~= Seq::<FaceDesc>::empty());
        assert(lat_faces(occ, x, y, d, lo + 1, hi + 1) =~= Seq::<FaceDesc>::empty());
        assert(lat_faces(occ, x, y, d, lo, hi + 1) == lat_head(occ, x, y, lo, d) + lat_faces(
            occ,
            x,
            y,
            d,
            lo + 1,
            hi + 1,
        ));
        assert(lat_faces(occ, x, y, d, lo, hi + 1) =~= lat_faces(occ, x, y, d, lo, hi) + lat_head(
            occ,
            x,
            y,
            hi,
            d,
        ));
    } else {
        lemma_lat_faces_snoc(occ, x, y, d, lo + 1, hi);
        assert(lat_faces(occ, x, y, d, lo, hi + 1) == lat_head(occ, x, y, lo, d) + lat_faces(
            occ,
            x,
            y,
            d,
            lo + 1,
            hi + 1,
        ));
        assert(lat_faces(occ, x, y, d, lo, hi) == lat_head(occ, x, y, lo, d) + lat_faces(
            occ,
            x,
            y,
            d,
            lo + 1,
            hi,
        ));
        assert(lat_faces(occ, x, y, d, lo, hi + 1) =~= lat_faces(occ, x, y, d, lo, hi) + lat_head(
            occ,
            x,
            y,
            hi,
            d,
        ));
    }
}

/// Scanning one more run appends that run's quads.
pub proof fn lemma_mesh_faces_snoc(
    occ: Set<(int, int, int)>,
    runs: Seq<(int, int, int, int)>,
    i: int,
)
    requires
        0 <= i < runs.len(),
    ensures
        mesh_faces(occ, runs.take(i + 1)) == mesh_faces(occ, runs.take(i)) + run_faces(
            occ,
            runs[i],
        ),
{
    assert(runs.take(i + 1).drop_last() =~= runs.take(i));
    assert(runs.take(i + 1).last() == runs[i]);
}

/// The run list holds a run of `t`'s column that an insertion at `t` would
/// lengthen: one starting just above `t` or one ending exactly at `t`.
pub open spec fn has_adjacent_run(runs: Seq<(int, int, int, int)>, t: (int, int, int)) -> bool {
    exists|i: int|
        0 <= i < runs.len() && (#[trigger] runs[i]).0 == t.0 && runs[i].1 == t.1 && (runs[i].2
            == t.2 + 1 || runs[i].3 == t.2)
}

/// Each run's own coverage is part of the whole list's coverage.
pub proof fn lemma_runs_pts_super(runs: Seq<(int, int, int, int)>, k: int)
    requires
        0 <= k < runs.len(),
    ensures
        forall|t: (int, int, int)|
            run_pts(runs[k]).contains(t) ==> runs_pts(runs).contains(t),
    decreases runs.len(),
{
    if k == runs.len() - 1 {
        assert(runs[k] == runs.last());
    } else {
        lemma_runs_pts_super(runs.drop_last(), k);
        assert(runs.drop_last()[k] == runs[k]);
        assert(runs_pts(runs) == runs_pts(runs.drop_last()).union(run_pts(runs.last())));
        assert forall|t: (int, int, int)| run_pts(runs[k]).contains(t) implies runs_pts(
            runs,
        ).contains(t) by {
            assert(runs_pts(runs.drop_last()).contains(t));
        }
    }
}

/// A corner on the closed unit box of run `r`.
pub open spec fn corner_in_run_box(c: (int, int, int), r: (int, int, int, int)) -> bool {
    &&& r.0 <= c.0 <= r.0 + 1
    &&& r.1 <= c.1 <= r.1 + 1
    &&& r.2 <= c.2 <= r.3
}

/// Every lateral quad of a span is the lateral face of one of its heights.
proof fn lemma_lat_faces_members(
    occ: Set<(int, int, int)>,
    x: int,
    y: int,
    d: int,
    lo: int,
    hi: int,
)
    ensures
        forall|i: int|
            0 <= i < lat_faces(occ, x, y, d, lo, hi).len() ==> exists|z: int|
                lo <= z < hi && #[trigger] lat_faces(occ, x, y, d, lo, hi)[i] == lat_face(
                    x,
                    y,
                    z,
                    d,
                ),
    decreases hi - lo,
{
    if lo < hi {
        lemma_lat_faces_members(occ, x, y, d, lo + 1, hi);
        assert forall|i: int| 0 <= i < lat_faces(occ, x, y, d, lo, hi).len() implies exists|z: int|
            lo <= z < hi && #[trigger] lat_faces(occ, x, y, d, lo, hi)[i] == lat_face(
                x,
                y,
                z,
                d,
            ) by {
            let s = lat_faces(occ, x, y, d, lo, hi);
            let h = lat_head(occ, x, y, lo, d);
            let rest = lat_faces(occ, x, y, d, lo + 1, hi);
            assert(s == h + rest);
            if i < h.len() {
                assert(s[i] == lat_face(x, y, lo, d));
                assert(lo <= lo < hi && s[i] == lat_face(x, y, lo, d));
            } else {
                assert(s[i] == rest[i - h.len()]);
                let z = choose|z: int|
                    lo + 1 <= z < hi && #[trigger] rest[i - h.len()] == lat_face(x, y, z, d);
                assert(lo <= z < hi && s[i] == lat_face(x, y, z, d));
            }
        }
    }
}

/// Every corner of a cap or lateral face of a run lies on the run's box.
proof fn lemma_face_corner_box(fd: FaceDesc, r: (int, int, int, int), j: int)
    requires
        0 <= j < 4,
        r.2 <= r.3,
        fd == ((r.0, r.1, r.2), (1int, 1int, 0int)) || fd == ((r.0, r.1, r.3), (1int, 1int, 0int))
            || (exists|z: int, d: int|
            r.2 <= z < r.3 && 0 <= d < 4 && fd == lat_face(r.0, r.1, z, d)),
    ensures
        corner_in_run_box(face_corners(fd.0, fd.1)[j], r),
{
    if fd == ((r.0, r.1, r.2), (1int, 1int, 0int)) || fd == (
        (r.0, r.1, r.3),
        (1int, 1int, 0int),
    ) {
        if j == 0 {
        } else if j == 1 {
        } else if j == 2 {
        } else {
        }
    } else {
        let (z, d) = choose|z: int, d: int|
            r.2 <= z < r.3 && 0 <= d < 4 && fd == lat_face(r.0, r.1, z, d);
        if j == 0 {
        } else if j == 1 {
        } else if j == 2 {
        } else {
        }
    }
}

/// Every corner of every quad one run contributes lies on the run's box.
#[verifier::rlimit(100)]
proof fn lemma_run_faces_corner_bounds(occ: Set<(int, int, int)>, r: (int, int, int, int))
    requires
        r.2 <= r.3,
    ensures
        forall|i: int, j: int|
            0 <= i < run_faces(occ, r).len() && 0 <= j < 4 ==> corner_in_run_box(
                #[trigger] face_corners(run_faces(occ, r)[i].0, run_faces(occ, r)[i].1)[j],
                r,
            ),
{
    lemma_lat_faces_members(occ, r.0, r.1, 0, r.2, r.3);
    lemma_lat_faces_members(occ, r.0, r.1, 1, r.2, r.3);
    lemma_lat_faces_members(occ, r.0, r.1, 2, r.2, r.3);
    lemma_lat_faces_members(occ, r.0, r.1, 3, r.2, r.3);
    assert forall|i: int, j: int|
        0 <= i < run_faces(occ, r).len() && 0 <= j < 4 implies corner_in_run_box(
        #[trigger] face_corners(run_faces(occ, r)[i].0, run_faces(occ, r)[i].1)[j],
        r,
    ) by {
        let fds = run_faces(occ, r);
        let fd = fds[i];
        let cap = cap_faces(occ, r.0, r.1, r.2, r.3);
        let l0 = lat_faces(occ, r.0, r.1, 0, r.2, r.3);
        let l1 = lat_faces(occ, r.0, r.1, 1, r.2, r.3);
        let l2 = lat_faces(occ, r.0, r.1, 2, r.2, r.3);
        let l3 = lat_faces(occ, r.0, r.1, 3, r.2, r.3);
        if i < cap.len() {
            assert(fd == cap[i]);
            assert(fd == ((r.0, r.1, r.2), (1int, 1int, 0int)) || fd == (
                (r.0, r.1, r.3),
                (1int, 1int, 0int),
            ));
        } else if i < cap.len() + l0.len() {
            assert(fd == l0[i - cap.len()]);
        } else if i < cap.len() + l0.len() + l1.len() {
            assert(fd == l1[i - cap.len() - l0.len()]);
        } else if i < cap.len() + l0.len() + l1.len() + l2.len() {
            assert(fd == l2[i - cap.len() - l0.len() - l1.len()]);
        } else {
            assert(fd == l3[i - cap.len() - l0.len() - l1.len() - l2.len()]);
        }
        lemma_face_corner_box(fd, r, j);
    }
}

/// A run lying in the box from (xlo, ylo, zlo) to (xhi, yhi, zhi).
pub open spec fn run_in_box(
    r: (int, int, int, int),
    xlo: int,
    xhi: int,
    ylo: int,
    yhi: int,
    zlo: int,
    zhi: int,
) -> bool {
    &&& xlo <= r.0 <= xhi
    &&& ylo <= r.1 <= yhi
    &&& zlo <= r.2 <= r.3
    &&& r.3 <= zhi + 1
}

/// Every corner of every quad of the mesh lies on the closed unit box of the
/// runs' bounding region.
#[verifier::rlimit(100)]
pub proof fn lemma_mesh_corner_bounds(
    occ: Set<(int, int, int)>,
    runs: Seq<(int, int, int, int)>,
    xlo: int,
    xhi: int,
    ylo: int,
    yhi: int,
    zlo: int,
    zhi: int,
)
    requires
        forall|k: int|
            0 <= k < runs.len() ==> run_in_box(#[trigger] runs[k], xlo, xhi, ylo, yhi, zlo, zhi),
    ensures
        forall|i: int, j: int|
            0 <= i < mesh_faces(occ, runs).len() && 0 <= j < 4 ==> {
                let c = #[trigger] face_corners(
                    mesh_faces(occ, runs)[i].0,
                    mesh_faces(occ, runs)[i].1,
                )[j];
                xlo <= c.0 <= xhi + 1 && ylo <= c.1 <= yhi + 1 && zlo <= c.2 <= zhi + 1
            },
    decreases runs.len(),
{
    if runs.len() != 0 {
        assert(forall|k: int| 0 <= k < runs.len() - 1 ==> runs.drop_last()[k] == runs[k]);
        lemma_mesh_corner_bounds(occ, runs.drop_last(), xlo, xhi, ylo, yhi, zlo, zhi);
        assert(run_in_box(runs[runs.len() - 1], xlo, xhi, ylo, yhi, zlo, zhi));
        lemma_run_faces_corner_bounds(occ, runs.last());
        assert forall|i: int, j: int|
            0 <= i < mesh_faces(occ, runs).len() && 0 <= j < 4 implies {
            let c = #[trigger] face_corners(
                mesh_faces(occ, runs)[i].0,
                mesh_faces(occ, runs)[i].1,
            )[j];
            xlo <= c.0 <= xhi + 1 && ylo <= c.1 <= yhi + 1 && zlo <= c.2 <= zhi + 1
        } by {
            let pre = mesh_faces(occ, runs.drop_last());
            let lastf = run_faces(occ, runs.last());
            assert(mesh_faces(occ, runs) == pre + lastf);
            if i < pre.len() {
                assert(mesh_faces(occ, runs)[i] == pre[i]);
            } else {
                assert(mesh_faces(occ, runs)[i] == lastf[i - pre.len()]);
                assert(corner_in_run_box(
                    face_corners(lastf[i - pre.len()].0, lastf[i - pre.len()].1)[j],
                    runs.last(),
                ));
            }
        }
    }
}

// --------------------------------------------------------------------------
// The store contract.
// --------------------------------------------------------------------------

/// The queryable side of a store: which coordinates are occupied, organised
/// as runs along the z axis. Split from `Voxel` so the generic boundary
/// extractor needs only queries.
pub trait Occupancy: Sized {
    /// The set of occupied coordinates.
    spec fn occ(&self) -> Set<(int, int, int)>;

    /// The stored runs: column x, y, then a half-open z span.
    spec fn runs_view(&self) -> Seq<(int, int, int, int)>;

    /// Number of occupied voxels.
    spec fn nblocks(&self) -> int;

    /// The running bounding box.
    spec fn bb(&self) -> BoundingBox;

    /// The store's internal invariant.
    spec fn inv(&self) -> bool;

    /// What every well-formed store guarantees: the runs cover exactly the
    /// occupied set, the block count is the total run length, and the
    /// bounding box is exact.
    proof fn lemma_inv(&self)
        requires
            self.inv(),
        ensures
            self.occ().finite(),
            0 <= self.nblocks() <= usize::MAX,
            self.nblocks() == runs_total(self.runs_view()),
            self.nblocks() == self.occ().len(),
            self.occ() == runs_pts(self.runs_view()),
            runs_ok(self.runs_view()),
            forall|t: (int, int, int)| self.occ().contains(t) ==> coord_ok(t),
            bb_tracks(self.bb(), self.occ()),
            self.bb().count == self.nblocks(),
    ;

    /// Whether `coord` is occupied.
    fn occupied(&self, coord: VoxelIdx) -> (r: bool)
        requires
            self.inv(),
        ensures
            r == self.occ().contains(coord@),
    ;

    /// The stored runs as concrete records, in scan order.
    fn runs_list(&self) -> (r: Vec<(i32, i32, i32, i32)>)
        requires
            self.inv(),
        ensures
            r@.len() == self.runs_view().len(),
            forall|i: int| 0 <= i < r@.len() ==> wide4(#[trigger] r@[i]) == self.runs_view()[i],
    ;
}

/// A voxel occupancy store: a growing set of occupied lattice coordinates
/// with a running bounding box and a boundary-mesh extractor.
pub trait Voxel: Occupancy {
    /// Total number of occupied unit voxels: the sum of all run lengths.
    fn blocks(&self) -> (r: usize)
        requires
            self.inv(),
        ensures
            r as int == self.nblocks(),
    {
        proof {
            self.lemma_inv();
        }
        let ghost rv = self.runs_view();
        let runs = self.runs_list();
        let mut total: usize = 0;
        proof {
            assert(rv.take(0) =~= Seq::<(int, int, int, int)>::empty());
        }
        let mut i: usize = 0;
        while i < runs.len()
            invariant
                self.inv(),
                rv == self.runs_view(),
                runs@.len() == rv.len(),
                forall|k: int| 0 <= k < runs@.len() ==> wide4(#[trigger] runs@[k]) == rv[k],
                i <= runs.len(),
                total as int == runs_total(rv.take(i as int)),
            decreases runs.len() - i,
        {
            let (_x, _y, lo, hi) = runs[i];
            proof {
                self.lemma_inv();
                assert(wide4(runs@[i as int]) == rv[i as int]);
                assert(run_ok(rv[i as int]));
                lemma_runs_total_snoc(rv, i as int);
                lemma_runs_total_prefix(rv, i as int + 1);
            }
            total = total + (hi as i64 - lo as i64) as usize;
            i = i + 1;
        }
        proof {
            assert(rv.take(rv.len() as int) =~= rv);
        }
        total
    }

    /// Number of disjoint stored runs: the fragmentation metric.
    fn ranges(&self) -> (r: usize)
        requires
            self.inv(),
        ensures
            r as int == self.runs_view().len(),
    {
        self.runs_list().len()
    }

    fn bounding_box(&self) -> (r: &BoundingBox)
        requires
            self.inv(),
        ensures
            *r == self.bb(),
    ;

    /// How one successful insertion reshapes the stored run structure; each
    /// implementation pins its own fragmentation behaviour here.
    spec fn add_frag(pre: Self, post: Self, c: VoxelIdx) -> bool;

    /// Insert `coord`: reports true exactly when the call newly occupied it,
    /// and mutates nothing otherwise.
    fn add(&mut self, coord: VoxelIdx) -> (r: bool)
        requires
            old(self).inv(),
            coord_ok(coord@),
            old(self).nblocks() < usize::MAX,
        ensures
            final(self).inv(),
            r == !old(self).occ().contains(coord@),
            final(self).occ() == old(self).occ().insert(coord@),
            r ==> final(self).nblocks() == old(self).nblocks() + 1,
            r ==> Self::add_frag(*old(self), *final(self), coord),
            !r ==> *final(self) == *old(self),
    ;

    /// Extract the boundary mesh.
    fn to_model(&self) -> (m: Model)
        requires
            self.inv(),
        ensures
            m.wf(),
            m.verts_view() == build_verts(
                Seq::empty(),
                mesh_faces(self.occ(), self.runs_view()),
            ),
            m.faces_view() == build_faces(
                Seq::empty(),
                Seq::empty(),
                mesh_faces(self.occ(), self.runs_view()),
            ),
    ;
}

// --------------------------------------------------------------------------
// The generic boundary extractor both stores use.
// --------------------------------------------------------------------------

/// Emit the lateral quads of direction `d` for one run.
fn emit_lat_faces<V: Occupancy>(
    v: &V,
    m: &mut Model,
    Ghost(fds0): Ghost<Seq<FaceDesc>>,
    x: i32,
    y: i32,
    d: usize,
    lo: i32,
    hi: i32,
)
    requires
        v.inv(),
        old(m).wf(),
        d < 4,
        lo <= hi,
        coord_ok((x as int, y as int, lo as int)),
        hi - 1 <= 2147483646,
        old(m).verts_view() == build_verts(Seq::empty(), fds0),
        old(m).faces_view() == build_faces(Seq::empty(), Seq::empty(), fds0),
    ensures
        final(m).wf(),
        final(m).verts_view() == build_verts(
            Seq::empty(),
            fds0 + lat_faces(v.occ(), x as int, y as int, d as int, lo as int, hi as int),
        ),
        final(m).faces_view() == build_faces(
            Seq::empty(),
            Seq::empty(),
            fds0 + lat_faces(v.occ(), x as int, y as int, d as int, lo as int, hi as int),
        ),
{
    let ghost occ = v.occ();
    let mut z = lo;
    proof {
        assert(fds0 + lat_faces(occ, x as int, y as int, d as int, lo as int, lo as int) =~= fds0);
    }
    while z < hi
        invariant
            v.inv(),
            m.wf(),
            d < 4,
            lo <= z <= hi,
            coord_ok((x as int, y as int, lo as int)),
            hi - 1 <= 2147483646,
            occ == v.occ(),
            m.verts_view() == build_verts(
                Seq::empty(),
                fds0 + lat_faces(occ, x as int, y as int, d as int, lo as int, z as int),
            ),
            m.faces_view() == build_faces(
                Seq::empty(),
                Seq::empty(),
                fds0 + lat_faces(occ, x as int, y as int, d as int, lo as int, z as int),
            ),
        decreases hi - z,
    {
        let ghost fds = fds0 + lat_faces(occ, x as int, y as int, d as int, lo as int, z as int);
        let neighbor = if d == 0 {
            VoxelIdx::new([x + 1, y, z])
        } else if d == 1 {
            VoxelIdx::new([x - 1, y, z])
        } else if d == 2 {
            VoxelIdx::new([x, y + 1, z])
        } else {
            VoxelIdx::new([x, y - 1, z])
        };
        proof {
            assert(neighbor@ == lat_neighbor(x as int, y as int, z as int, d as int));
        }
        if !v.occupied(neighbor) {
            let ghost fd = lat_face(x as int, y as int, z as int, d as int);
            let (anchor, dir) = if d == 0 {
                (VoxelIdx::new([x + 1, y + 1, z + 1]), VoxelIdx::new([0, -1, -1]))
            } else if d == 1 {
                (VoxelIdx::new([x, y, z]), VoxelIdx::new([0, 1, 1]))
            } else if d == 2 {
                (VoxelIdx::new([x + 1, y + 1, z + 1]), VoxelIdx::new([-1, 0, -1]))
            } else {
                (VoxelIdx::new([x, y, z]), VoxelIdx::new([1, 0, 1]))
            };
            proof {
                assert(anchor@ == fd.0 && dir@ == fd.1);
                lemma_build_push(Seq::empty(), Seq::empty(), fds, fd);
            }
            m.add_face(anchor, dir);
            proof {
                assert(fds.push(fd) =~= fds + seq![fd]);
            }
        }
        proof {
            lemma_lat_faces_snoc(occ, x as int, y as int, d as int, lo as int, z as int);
            if !occ.contains(lat_neighbor(x as int, y as int, z as int, d as int)) {
                assert(fds + seq![lat_face(x as int, y as int, z as int, d as int)] =~= fds0
                    + lat_faces(occ, x as int, y as int, d as int, lo as int, z as int + 1));
            } else {
                assert(fds =~= fds0 + lat_faces(
                    occ,
                    x as int,
                    y as int,
                    d as int,
                    lo as int,
                    z as int + 1,
                ));
            }
        }
        z = z + 1;
    }
}

/// Walk every run of the store and emit its exposed boundary quads into a
/// fresh mesh.
#[verifier::rlimit(100)]
pub fn build_mesh<V: Occupancy>(v: &V) -> (m: Model)
    requires
        v.inv(),
    ensures
        m.wf(),
        m.verts_view() == build_verts(Seq::empty(), mesh_faces(v.occ(), v.runs_view())),
        m.faces_view() == build_faces(
            Seq::empty(),
            Seq::empty(),
            mesh_faces(v.occ(), v.runs_view()),
        ),
{
    let ghost occ = v.occ();
    let ghost rv = v.runs_view();
    proof {
        v.lemma_inv();
    }
    let runs = v.runs_list();
    let mut m = Model::new();
    proof {
        assert(rv.take(0) =~= Seq::<(int, int, int, int)>::empty());
    }
    let mut i: usize = 0;
    while i < runs.len()
        invariant
            v.inv(),
            occ == v.occ(),
            rv == v.runs_view(),
            runs@.len() == rv.len(),
            forall|k: int| 0 <= k < runs@.len() ==> wide4(#[trigger] runs@[k]) == rv[k],
            i <= runs.len(),
            m.wf(),
            m.verts_view() == build_verts(Seq::empty(), mesh_faces(occ, rv.take(i as int))),
            m.faces_view() == build_faces(
                Seq::empty(),
                Seq::empty(),
                mesh_faces(occ, rv.take(i as int)),
            ),
        decreases runs.len() - i,
    {
        let (x, y, lo, hi) = runs[i];
        proof {
            v.lemma_inv();
            assert(run_ok(rv[i as int]));
            assert(wide4(runs@[i as int]) == rv[i as int]);
        }
        let ghost f_run = mesh_faces(occ, rv.take(i as int));

        // bottom cap
        let below = VoxelIdx::new([x, y, lo - 1]);
        if !v.occupied(below) {
            proof {
                lemma_build_push(
                    Seq::empty(),
                    Seq::empty(),
                    f_run,
                    ((x as int, y as int, lo as int), (1int, 1int, 0int)),
                );
            }
            m.add_face(VoxelIdx::new([x, y, lo]), VoxelIdx::new([1, 1, 0]));
        }
        let ghost f_bot = f_run + cap_bottom(occ, x as int, y as int, lo as int);
        proof {
            if !occ.contains((x as int, y as int, lo as int - 1)) {
                assert(f_run.push(((x as int, y as int, lo as int), (1int, 1int, 0int))) =~= f_bot);
            } else {
                assert(f_run =~= f_bot);
            }
        }

        // top cap
        let above = VoxelIdx::new([x, y, hi]);
        if !v.occupied(above) {
            proof {
                lemma_build_push(
                    Seq::empty(),
                    Seq::empty(),
                    f_bot,
                    ((x as int, y as int, hi as int), (1int, 1int, 0int)),
                );
            }
            m.add_face(VoxelIdx::new([x, y, hi]), VoxelIdx::new([1, 1, 0]));
        }
        let ghost f_cap = f_run + cap_faces(occ, x as int, y as int, lo as int, hi as int);
        proof {
            if !occ.contains((x as int, y as int, hi as int)) {
                assert(f_bot.push(((x as int, y as int, hi as int), (1int, 1int, 0int))) =~= f_cap);
            } else {
                assert(f_bot =~= f_cap);
            }
        }

        emit_lat_faces(v, &mut m, Ghost(f_cap), x, y, 0, lo, hi);
        let ghost f_d0 = f_cap + lat_faces(occ, x as int, y as int, 0, lo as int, hi as int);
        emit_lat_faces(v, &mut m, Ghost(f_d0), x, y, 1, lo, hi);
        let ghost f_d1 = f_d0 + lat_faces(occ, x as int, y as int, 1, lo as int, hi as int);
        emit_lat_faces(v, &mut m, Ghost(f_d1), x, y, 2, lo, hi);
        let ghost f_d2 = f_d1 + lat_faces(occ, x as int, y as int, 2, lo as int, hi as int);
        emit_lat_faces(v, &mut m, Ghost(f_d2), x, y, 3, lo, hi);
        let ghost f_d3 = f_d2 + lat_faces(occ, x as int, y as int, 3, lo as int, hi as int);

        proof {
            lemma_mesh_faces_snoc(occ, rv, i as int);
            assert(f_d3 =~= mesh_faces(occ, rv.take(i as int)) + run_faces(occ, rv[i as int]));
            assert(f_d3 =~= mesh_faces(occ, rv.take(i as int + 1)));
        }
        i = i + 1;
    }
    proof {
        assert(rv.take(rv.len() as int) =~= rv);
    }
    m
}

/// The bottom cap alone; names the first half of `cap_faces`.
pub open spec fn cap_bottom(occ: Set<(int, int, int)>, x: int, y: int, lo: int) -> Seq<FaceDesc> {
    if !occ.contains((x, y, lo - 1)) {
        seq![((x, y, lo), (1int, 1int, 0int))]
    } else {
        Seq::empty()
    }
}

} // verus!
