use vstd::prelude::*;

use crate::bbox::bb_tracks;
use crate::model::{
    build_faces, build_verts, dedup_extend, face_corners, lemma_build_faces_len,
    lemma_build_push, lemma_build_verts_members, lemma_dedup_extend4, FaceDesc, Model,
};
use crate::voxel::{
    cap_faces, lat_face, lat_faces, lemma_mesh_corner_bounds, lemma_runs_pts_super, mesh_faces,
    run_faces, run_in_box, run_ok, run_pts, runs_ok, runs_pts, runs_total, Occupancy, Voxel,
};
use crate::voxelidx::VoxelIdx;

verus! {

/// One observed `add` call: what the store contract says of a call on `pre`
/// that produced `post` and reported `r`.
pub open spec fn add_step<V: Voxel>(pre: V, post: V, r: bool, c: VoxelIdx) -> bool {
    &&& r == !pre.occ().contains(c@)
    &&& post.occ() == pre.occ().insert(c@)
    &&& (r ==> post.nblocks() == pre.nblocks() + 1)
    &&& (!r ==> post == pre)
}

/// Occupancy idempotence: adding a coordinate twice in a row succeeds at
/// most on the first call, the second call reports false and changes
/// nothing, and the coordinate reads as occupied after either call.
pub proof fn lemma_add_idempotent<V: Voxel>(
    v0: V,
    v1: V,
    r1: bool,
    v2: V,
    r2: bool,
    c: VoxelIdx,
)
    requires
        add_step(v0, v1, r1, c),
        add_step(v1, v2, r2, c),
    ensures
        !v0.occ().contains(c@) ==> r1,
        !r2,
        v1.occ().contains(c@),
        v2.occ().contains(c@),
        v2 == v1,
{
    assert(v1.occ().contains(c@));
}

/// How many calls of a sequence reported a fresh insertion.
pub open spec fn count_true(rs: Seq<bool>) -> int
    decreases rs.len(),
{
    if rs.len() == 0 {
        0
    } else {
        count_true(rs.drop_last()) + if rs.last() {
            1int
        } else {
            0
        }
    }
}

/// Monotonic growth of the block count: across any sequence of `add` calls,
/// the count after each call is the count before plus one exactly when the
/// call reported true, and the final count is the initial count plus the
/// number of successful calls.
pub proof fn lemma_blocks_monotonic<V: Voxel>(
    states: Seq<V>,
    results: Seq<bool>,
    coords: Seq<VoxelIdx>,
)
    requires
        states.len() == results.len() + 1,
        coords.len() == results.len(),
        forall|i: int|
            0 <= i < results.len() ==> add_step(
                #[trigger] states[i],
                states[i + 1],
                results[i],
                coords[i],
            ),
    ensures
        forall|i: int|
            0 <= i < results.len() ==> (#[trigger] states[i + 1]).nblocks() == states[i].nblocks()
                + (if results[i] {
                1int
            } else {
                0
            }),
        states.last().nblocks() == states[0].nblocks() + count_true(results),
    decreases results.len(),
{
    assert forall|i: int| 0 <= i < results.len() implies (#[trigger] states[i + 1]).nblocks()
        == states[i].nblocks() + (if results[i] {
        1int
    } else {
        0
    }) by {
        assert(add_step(states[i], states[i + 1], results[i], coords[i]));
    }
    if results.len() == 0 {
        assert(states.last() == states[0]);
    } else {
        let n = results.len();
        lemma_blocks_monotonic(states.drop_last(), results.drop_last(), coords.drop_last());
        assert(states.drop_last().last() == states[n - 1]);
        assert(states.drop_last()[0] == states[0]);
        assert(states.last() == states[n as int]);
        assert(add_step(states[n - 1], states[n as int], results[n - 1], coords[n - 1]));
    }
}

/// Bounding box correctness: a well-formed store's box holds exactly the
/// componentwise extremes of every inserted coordinate.
pub proof fn lemma_bounding_box_exact<V: Voxel>(v: &V)
    requires
        v.inv(),
    ensures
        bb_tracks(v.bb(), v.occ()),
{
    v.lemma_inv();
}

/// A store of exactly one voxel holds exactly one unit run at it.
proof fn lemma_singleton_store_run(runs: Seq<(int, int, int, int)>, c: (int, int, int))
    requires
        runs_ok(runs),
        runs_total(runs) == 1,
        runs_pts(runs) == Set::<(int, int, int)>::empty().insert(c),
    ensures
        runs == seq![(c.0, c.1, c.2, c.2 + 1)],
{
    crate::voxel::lemma_runs_total_nonneg(runs);
    if runs.len() == 0 {
        assert(runs_total(runs) == 0);
    }
    assert(runs.len() == 1);
    assert(runs.drop_last() =~= Seq::<(int, int, int, int)>::empty());
    assert(runs.last() == runs[0]);
    assert(runs_total(runs) == runs_total(Seq::<(int, int, int, int)>::empty()) + (runs[0].3
        - runs[0].2));
    assert(runs[0].3 == runs[0].2 + 1);
    assert(runs_pts(runs) == runs_pts(Seq::<(int, int, int, int)>::empty()).union(
        run_pts(runs[0]),
    ));
    assert(runs_pts(runs) =~= run_pts(runs[0]));
    assert(run_pts(runs[0]).contains((runs[0].0, runs[0].1, runs[0].2)));
    assert((runs[0].0, runs[0].1, runs[0].2) == c);
    assert(runs =~= seq![(c.0, c.1, c.2, c.2 + 1)]);
}

/// Mesh closure for a single isolated voxel: whichever store variant holds
/// exactly one coordinate, its boundary mesh has exactly six quads on eight
/// distinct vertices: one closed unit cube.
#[verifier::rlimit(100)]
pub proof fn lemma_single_voxel_mesh<V: Voxel>(v: &V, c: (int, int, int), m: Model)
    requires
        v.inv(),
        v.occ() == Set::<(int, int, int)>::empty().insert(c),
        v.nblocks() == 1,
        m.wf(),
        m.verts_view() == build_verts(Seq::empty(), mesh_faces(v.occ(), v.runs_view())),
        m.faces_view() == build_faces(
            Seq::empty(),
            Seq::empty(),
            mesh_faces(v.occ(), v.runs_view()),
        ),
    ensures
        m.faces_view().len() == 6,
        m.verts_view().len() == 8,
        m.verts_view().no_duplicates(),
{
    v.lemma_inv();
    let runs = v.runs_view();
    let occ = v.occ();
    lemma_singleton_store_run(runs, c);
    let x = c.0;
    let y = c.1;
    let z = c.2;
    let r = (x, y, z, z + 1);

    // the six emitted quads
    let fd0: FaceDesc = ((x, y, z), (1int, 1int, 0int));
    let fd1: FaceDesc = ((x, y, z + 1), (1int, 1int, 0int));
    let fd2: FaceDesc = lat_face(x, y, z, 0);
    let fd3: FaceDesc = lat_face(x, y, z, 1);
    let fd4: FaceDesc = lat_face(x, y, z, 2);
    let fd5: FaceDesc = lat_face(x, y, z, 3);

    assert(runs.drop_last() =~= Seq::<(int, int, int, int)>::empty());
    assert(runs.last() == r);
    assert(mesh_faces(occ, Seq::<(int, int, int, int)>::empty()) == Seq::<FaceDesc>::empty());
    assert(mesh_faces(occ, runs) == Seq::<FaceDesc>::empty() + run_faces(occ, r));

    // every neighbour of the lone voxel is free
    assert(!occ.contains((x, y, z - 1)));
    assert(!occ.contains((x, y, z + 1)));
    assert(!occ.contains((x + 1, y, z)));
    assert(!occ.contains((x - 1, y, z)));
    assert(!occ.contains((x, y + 1, z)));
    assert(!occ.contains((x, y - 1, z)));

    assert(cap_faces(occ, x, y, z, z + 1) =~= seq![fd0, fd1]);
    assert(lat_faces(occ, x, y, 0, z + 1, z + 1) =~= Seq::<FaceDesc>::empty());
    assert(lat_faces(occ, x, y, 1, z + 1, z + 1) =~= Seq::<FaceDesc>::empty());
    assert(lat_faces(occ, x, y, 2, z + 1, z + 1) =~= Seq::<FaceDesc>::empty());
    assert(lat_faces(occ, x, y, 3, z + 1, z + 1) =~= Seq::<FaceDesc>::empty());
    assert(lat_faces(occ, x, y, 0, z, z + 1) =~= seq![fd2]);
    assert(lat_faces(occ, x, y, 1, z, z + 1) =~= seq![fd3]);
    assert(lat_faces(occ, x, y, 2, z, z + 1) =~= seq![fd4]);
    assert(lat_faces(occ, x, y, 3, z, z + 1) =~= seq![fd5]);

    let fds = mesh_faces(occ, runs);
    assert(fds =~= seq![fd0, fd1, fd2, fd3, fd4, fd5]);

    lemma_build_faces_len(Seq::empty(), Seq::empty(), fds);
    assert(m.faces_view().len() == 6);

    // the eight cube corners, in first-appearance order
    let v000 = (x, y, z);
    let v100 = (x + 1, y, z);
    let v110 = (x + 1, y + 1, z);
    let v010 = (x, y + 1, z);
    let v001 = (x, y, z + 1);
    let v101 = (x + 1, y, z + 1);
    let v111 = (x + 1, y + 1, z + 1);
    let v011 = (x, y + 1, z + 1);

    let cs0 = face_corners(fd0.0, fd0.1);
    let cs1 = face_corners(fd1.0, fd1.1);
    let cs2 = face_corners(fd2.0, fd2.1);
    let cs3 = face_corners(fd3.0, fd3.1);
    let cs4 = face_corners(fd4.0, fd4.1);
    let cs5 = face_corners(fd5.0, fd5.1);
    assert(cs0 =~= seq![v000, v100, v110, v010]);
    assert(cs1 =~= seq![v001, v101, v111, v011]);
    assert(cs2 =~= seq![v111, v101, v100, v110]);
    assert(cs3 =~= seq![v000, v010, v011, v001]);
    assert(cs4 =~= seq![v111, v011, v010, v110]);
    assert(cs5 =~= seq![v000, v100, v101, v001]);

    let w0 = Seq::<(int, int, int)>::empty();
    let w1 = seq![v000, v100, v110, v010];
    let w2 = seq![v000, v100, v110, v010, v001, v101, v111, v011];
    let fs0 = Seq::<(int, int, int, int)>::empty();

    assert(fds.take(0) =~= Seq::<FaceDesc>::empty());
    assert(build_verts(w0, fds.take(0)) == w0);
    lemma_build_push(w0, fs0, fds.take(0), fd0);
    assert(fds.take(0).push(fd0) =~= fds.take(1));
    lemma_dedup_extend4(w0, cs0[0], cs0[1], cs0[2], cs0[3]);
    assert(cs0 =~= seq![cs0[0], cs0[1], cs0[2], cs0[3]]);
    assert(dedup_extend(w0, cs0) =~= w1);
    assert(build_verts(w0, fds.take(1)) == dedup_extend(w0, cs0));

    lemma_build_push(w0, fs0, fds.take(1), fd1);
    assert(fds.take(1).push(fd1) =~= fds.take(2));
    lemma_dedup_extend4(w1, cs1[0], cs1[1], cs1[2], cs1[3]);
    assert(cs1 =~= seq![cs1[0], cs1[1], cs1[2], cs1[3]]);
    assert(dedup_extend(w1, cs1) =~= w2);
    assert(build_verts(w0, fds.take(2)) =~= w2);

    lemma_build_push(w0, fs0, fds.take(2), fd2);
    assert(fds.take(2).push(fd2) =~= fds.take(3));
    lemma_dedup_extend4(w2, cs2[0], cs2[1], cs2[2], cs2[3]);
    assert(cs2 =~= seq![cs2[0], cs2[1], cs2[2], cs2[3]]);
    assert(w2.contains(v111) && w2.contains(v101) && w2.contains(v100) && w2.contains(v110));
    assert(dedup_extend(w2, cs2) =~= w2);
    assert(build_verts(w0, fds.take(3)) =~= w2);

    lemma_build_push(w0, fs0, fds.take(3), fd3);
    assert(fds.take(3).push(fd3) =~= fds.take(4));
    lemma_dedup_extend4(w2, cs3[0], cs3[1], cs3[2], cs3[3]);
    assert(cs3 =~= seq![cs3[0], cs3[1], cs3[2], cs3[3]]);
    assert(w2.contains(v000) && w2.contains(v010) && w2.contains(v011) && w2.contains(v001));
    assert(dedup_extend(w2, cs3) =~= w2);
    assert(build_verts(w0, fds.take(4)) =~= w2);

    lemma_build_push(w0, fs0, fds.take(4), fd4);
    assert(fds.take(4).push(fd4) =~= fds.take(5));
    lemma_dedup_extend4(w2, cs4[0], cs4[1], cs4[2], cs4[3]);
    assert(cs4 =~= seq![cs4[0], cs4[1], cs4[2], cs4[3]]);
    assert(dedup_extend(w2, cs4) =~= w2);
    assert(build_verts(w0, fds.take(5)) =~= w2);

    lemma_build_push(w0, fs0, fds.take(5), fd5);
    assert(fds.take(5).push(fd5) =~= fds.take(6));
    lemma_dedup_extend4(w2, cs5[0], cs5[1], cs5[2], cs5[3]);
    assert(cs5 =~= seq![cs5[0], cs5[1], cs5[2], cs5[3]]);
    assert(dedup_extend(w2, cs5) =~= w2);
    assert(fds.take(6) =~= fds);
    assert(build_verts(w0, fds) =~= w2);

    assert(m.verts_view().len() == 8);
}

/// Every vertex of a store's boundary mesh lies on the closed unit box
/// around the region the store occupies.
#[verifier::rlimit(100)]
pub proof fn lemma_mesh_vertices_bounded<V: Voxel>(
    v: &V,
    m: Model,
    xlo: int,
    xhi: int,
    ylo: int,
    yhi: int,
    zlo: int,
    zhi: int,
)
    requires
        v.inv(),
        forall|t: (int, int, int)|
            v.occ().contains(t) ==> (xlo <= t.0 <= xhi && ylo <= t.1 <= yhi && zlo <= t.2 <= zhi),
        m.verts_view() == build_verts(Seq::empty(), mesh_faces(v.occ(), v.runs_view())),
    ensures
        forall|i: int|
            0 <= i < m.verts_view().len() ==> {
                let c = #[trigger] m.verts_view()[i];
                xlo <= c.0 <= xhi + 1 && ylo <= c.1 <= yhi + 1 && zlo <= c.2 <= zhi + 1
            },
{
    v.lemma_inv();
    let runs = v.runs_view();
    let occ = v.occ();
    assert forall|k: int| 0 <= k < runs.len() implies run_in_box(
        #[trigger] runs[k],
        xlo,
        xhi,
        ylo,
        yhi,
        zlo,
        zhi,
    ) by {
        assert(run_ok(runs[k]));
        lemma_runs_pts_super(runs, k);
        let r = runs[k];
        assert(run_pts(r).contains((r.0, r.1, r.2)));
        assert(occ.contains((r.0, r.1, r.2)));
        assert(run_pts(r).contains((r.0, r.1, r.3 - 1)));
        assert(occ.contains((r.0, r.1, r.3 - 1)));
    }
    lemma_mesh_corner_bounds(occ, runs, xlo, xhi, ylo, yhi, zlo, zhi);
    lemma_build_verts_members(Seq::empty(), mesh_faces(occ, runs));
    assert forall|i: int| 0 <= i < m.verts_view().len() implies {
        let c = #[trigger] m.verts_view()[i];
        xlo <= c.0 <= xhi + 1 && ylo <= c.1 <= yhi + 1 && zlo <= c.2 <= zhi + 1
    } by {
        let e = m.verts_view()[i];
        let fds = mesh_faces(occ, runs);
        assert(!Seq::<(int, int, int)>::empty().contains(e));
        let k = choose|k: int|
            0 <= k < fds.len() && face_corners((#[trigger] fds[k]).0, fds[k].1).contains(e);
        let cs = face_corners(fds[k].0, fds[k].1);
        let j = choose|j: int| 0 <= j < cs.len() && cs[j] == e;
        assert(cs.len() == 4);
        assert(face_corners(fds[k].0, fds[k].1)[j] == e);
    }
}

} // verus!
