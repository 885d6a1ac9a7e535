use vstd::prelude::*;

use crate::voxelidx::VoxelIdx;
use indexmap::IndexSet;

verus! {

// --------------------------------------------------------------------------
// Trusted view of indexmap's insertion-ordered set, used for vertex
// deduplication.
// --------------------------------------------------------------------------

#[verifier::external_type_specification]
#[verifier::external_body]
#[verifier::reject_recursive_types(T)]
#[verifier::reject_recursive_types(S)]
pub struct ExIndexSet<T, S>(IndexSet<T, S>);

/// What an `indexmap::IndexSet` of coordinate triples holds, in insertion
/// order.
pub uninterp spec fn iset_elems(s: IndexSet<(i32, i32, i32)>) -> Seq<(i32, i32, i32)>;

/// Relies on `indexmap::IndexSet::new`: makes an empty set.
#[verifier::external_body]
fn iset_new() -> (r: IndexSet<(i32, i32, i32)>)
    ensures
        iset_elems(r) == Seq::<(i32, i32, i32)>::empty(),
{
    IndexSet::new()
}

/// Relies on `indexmap::IndexSet::insert_full`: a missing value is appended
/// and its index reported with `true`; a present value keeps its insertion
/// position, which is reported with `false`.
#[verifier::external_body]
fn iset_insert_full(s: &mut IndexSet<(i32, i32, i32)>, v: (i32, i32, i32)) -> (r: (usize, bool))
    ensures
        iset_elems(*old(s)).contains(v) ==> {
            &&& iset_elems(*final(s)) == iset_elems(*old(s))
            &&& r.1 == false
            &&& r.0 < iset_elems(*old(s)).len()
            &&& iset_elems(*old(s))[r.0 as int] == v
        },
        !iset_elems(*old(s)).contains(v) ==> {
            &&& iset_elems(*final(s)) == iset_elems(*old(s)).push(v)
            &&& r.1 == true
            &&& r.0 as int == iset_elems(*old(s)).len()
        },
{
    s.insert_full(v)
}

/// Relies on `indexmap::IndexSet::len`.
#[verifier::external_body]
fn iset_len(s: &IndexSet<(i32, i32, i32)>) -> (r: usize)
    ensures
        r as int == iset_elems(*s).len(),
{
    s.len()
}

/// Relies on `indexmap::IndexSet::iter`: yields the values in insertion
/// order.
#[verifier::external_body]
fn iset_to_vec(s: &IndexSet<(i32, i32, i32)>) -> (r: Vec<(i32, i32, i32)>)
    ensures
        r@ == iset_elems(*s),
{
    s.iter().copied().collect()
}

// --------------------------------------------------------------------------
// The mathematical model of mesh building: vertex deduplication and quad
// records over coordinate triples.
// --------------------------------------------------------------------------

/// A coordinate triple widened to mathematical integers.
pub open spec fn wide(t: (i32, i32, i32)) -> (int, int, int) {
    (t.0 as int, t.1 as int, t.2 as int)
}

pub open spec fn wide_seq(s: Seq<(i32, i32, i32)>) -> Seq<(int, int, int)> {
    s.map_values(|t: (i32, i32, i32)| wide(t))
}

/// Append `c` unless it is already present.
pub open spec fn dedup_push(vs: Seq<(int, int, int)>, c: (int, int, int)) -> Seq<(int, int, int)> {
    if vs.contains(c) {
        vs
    } else {
        vs.push(c)
    }
}

/// Append each element of `cs`, in order, unless already present.
pub open spec fn dedup_extend(vs: Seq<(int, int, int)>, cs: Seq<(int, int, int)>) -> Seq<
    (int, int, int),
>
    decreases cs.len(),
{
    if cs.len() == 0 {
        vs
    } else {
        dedup_push(dedup_extend(vs, cs.drop_last()), cs.last())
    }
}

/// The index that `c` has once pushed through deduplication against `vs`.
pub open spec fn vert_index(vs: Seq<(int, int, int)>, c: (int, int, int)) -> int {
    if vs.contains(c) {
        vs.index_of(c)
    } else {
        vs.len() as int
    }
}

/// An extent vector with exactly one zero component and the other two in
/// {-1, 1}: the shape of every quad extent the extractor emits.
pub open spec fn valid_dir(d: (int, int, int)) -> bool {
    ||| (d.0 == 0 && (d.1 == 1 || d.1 == -1) && (d.2 == 1 || d.2 == -1))
    ||| (d.1 == 0 && (d.0 == 1 || d.0 == -1) && (d.2 == 1 || d.2 == -1))
    ||| (d.2 == 0 && (d.0 == 1 || d.0 == -1) && (d.1 == 1 || d.1 == -1))
}

/// The four corners of the quad anchored at `a` with extent `d`, in emission
/// order; the zero component of `d` names the face's normal axis.
pub open spec fn face_corners(a: (int, int, int), d: (int, int, int)) -> Seq<(int, int, int)> {
    if d.0 == 0 {
        seq![
            a,
            (a.0, a.1 + d.1, a.2),
            (a.0, a.1 + d.1, a.2 + d.2),
            (a.0, a.1, a.2 + d.2),
        ]
    } else if d.1 == 0 {
        seq![
            a,
            (a.0 + d.0, a.1, a.2),
            (a.0 + d.0, a.1, a.2 + d.2),
            (a.0, a.1, a.2 + d.2),
        ]
    } else {
        seq![
            a,
            (a.0 + d.0, a.1, a.2),
            (a.0 + d.0, a.1 + d.1, a.2),
            (a.0, a.1 + d.1, a.2),
        ]
    }
}

/// The four vertex indices recorded for a quad whose corners are pushed, in
/// order, through deduplication against the vertex list `vs0`.
pub open spec fn face_record(vs0: Seq<(int, int, int)>, cs: Seq<(int, int, int)>) -> (
    int,
    int,
    int,
    int,
) {
    let i0 = vert_index(vs0, cs[0]);
    let vs1 = dedup_push(vs0, cs[0]);
    let i1 = vert_index(vs1, cs[1]);
    let vs2 = dedup_push(vs1, cs[1]);
    let i2 = vert_index(vs2, cs[2]);
    let vs3 = dedup_push(vs2, cs[2]);
    let i3 = vert_index(vs3, cs[3]);
    (i0, i1, i2, i3)
}

/// A quad descriptor: anchor coordinate and extent vector.
pub type FaceDesc = ((int, int, int), (int, int, int));

/// The vertex list after emitting the quads `fds`, in order, starting from
/// vertex list `vs0`.
pub open spec fn build_verts(vs0: Seq<(int, int, int)>, fds: Seq<FaceDesc>) -> Seq<(int, int, int)>
    decreases fds.len(),
{
    if fds.len() == 0 {
        vs0
    } else {
        dedup_extend(
            build_verts(vs0, fds.drop_last()),
            face_corners(fds.last().0, fds.last().1),
        )
    }
}

/// The face list after emitting the quads `fds`, in order, starting from
/// vertex list `vs0` and face list `fs0`.
pub open spec fn build_faces(
    vs0: Seq<(int, int, int)>,
    fs0: Seq<(int, int, int, int)>,
    fds: Seq<FaceDesc>,
) -> Seq<(int, int, int, int)>
    decreases fds.len(),
{
    if fds.len() == 0 {
        fs0
    } else {
        build_faces(vs0, fs0, fds.drop_last()).push(
            face_record(
                build_verts(vs0, fds.drop_last()),
                face_corners(fds.last().0, fds.last().1),
            ),
        )
    }
}

// --------------------------------------------------------------------------
// The mesh itself.
// --------------------------------------------------------------------------

/// A boundary mesh: deduplicated vertices in first-insertion order and quads
/// as 4-tuples of vertex indices.
pub struct Model {
    vertices: IndexSet<(i32, i32, i32)>,
    faces: Vec<[usize; 4]>,
}

impl Model {
    /// The vertex list, in insertion order, as integer triples.
    pub closed spec fn verts_view(self) -> Seq<(int, int, int)> {
        wide_seq(iset_elems(self.vertices))
    }

    /// The quad list, each entry four vertex indices.
    pub closed spec fn faces_view(self) -> Seq<(int, int, int, int)> {
        self.faces@.map_values(
            |f: [usize; 4]| (f[0] as int, f[1] as int, f[2] as int, f[3] as int),
        )
    }

    /// Vertices are deduplicated and every recorded index is in range.
    pub open spec fn wf(self) -> bool {
        &&& self.verts_view().no_duplicates()
        &&& forall|k: int|
            0 <= k < self.faces_view().len() ==> face_in_range(
                #[trigger] self.faces_view()[k],
                self.verts_view().len() as int,
            )
    }

    pub fn new() -> (r: Model)
        ensures
            r.wf(),
            r.verts_view() == Seq::<(int, int, int)>::empty(),
            r.faces_view() == Seq::<(int, int, int, int)>::empty(),
    {
        let r = Model { vertices: iset_new(), faces: Vec::new() };
        proof {
            assert(r.verts_view() =~= Seq::<(int, int, int)>::empty());
            assert(r.faces_view() =~= Seq::<(int, int, int, int)>::empty());
        }
        r
    }

    /// Insert a vertex unless present; either way return its stable index.
    pub fn add_vert(&mut self, coord: VoxelIdx) -> (r: usize)
        requires
            old(self).wf(),
        ensures
            final(self).wf(),
            final(self).verts_view() == dedup_push(old(self).verts_view(), coord@),
            final(self).faces_view() == old(self).faces_view(),
            r as int == vert_index(old(self).verts_view(), coord@),
            final(self).verts_view().len() >= old(self).verts_view().len(),
    {
        let v = (coord.idx[0], coord.idx[1], coord.idx[2]);
        let ghost es0 = iset_elems(self.vertices);
        let ghost ws0 = old(self).verts_view();
        proof {
            assert(wide(v) == coord@);
            lemma_wide_contains(es0, v);
        }
        let (i, _newly) = iset_insert_full(&mut self.vertices, v);
        proof {
            let es1 = iset_elems(self.vertices);
            if es0.contains(v) {
                assert(ws0[i as int] == wide(es0[i as int]));
                assert(ws0.contains(coord@));
                // the index reported for a present value is its unique index
                let j = ws0.index_of(coord@);
                assert(0 <= j < ws0.len() && ws0[j] == coord@);
                assert(ws0[i as int] == coord@);
                assert(j == i as int);
            } else {
                assert(!ws0.contains(coord@));
                assert(wide_seq(es0.push(v)) =~= ws0.push(coord@));
                lemma_no_dup_push(ws0, coord@);
            }
            assert(self.faces_view() == old(self).faces_view());
            assert(self.verts_view().len() >= ws0.len());
            assert forall|k: int| 0 <= k < self.faces_view().len() implies face_in_range(
                #[trigger] self.faces_view()[k],
                self.verts_view().len() as int,
            ) by {
                assert(face_in_range(old(self).faces_view()[k], ws0.len() as int));
            }
        }
        i
    }

    /// Emit one quad: push its four corners through deduplication and record
    /// their indices.
    pub fn add_face(&mut self, coord: VoxelIdx, dir: VoxelIdx)
        requires
            old(self).wf(),
            valid_dir(dir@),
            i32::MIN <= coord@.0 + dir@.0 <= i32::MAX,
            i32::MIN <= coord@.1 + dir@.1 <= i32::MAX,
            i32::MIN <= coord@.2 + dir@.2 <= i32::MAX,
        ensures
            final(self).wf(),
            final(self).verts_view() == dedup_extend(
                old(self).verts_view(),
                face_corners(coord@, dir@),
            ),
            final(self).faces_view() == old(self).faces_view().push(
                face_record(old(self).verts_view(), face_corners(coord@, dir@)),
            ),
    {
        let ghost vs0 = old(self).verts_view();
        let ghost cs = face_corners(coord@, dir@);
        let (i0, i1, i2, i3) = if dir.idx[0] == 0 {
            let i0 = self.add_vert(coord);
            let i1 = self.add_vert(coord.add(dir.y()));
            let i2 = self.add_vert(coord.add(dir.yz()));
            let i3 = self.add_vert(coord.add(dir.z()));
            proof {
                lemma_dedup_extend4(vs0, cs[0], cs[1], cs[2], cs[3]);
                assert(cs =~= seq![cs[0], cs[1], cs[2], cs[3]]);
                assert(self.verts_view() == dedup_extend(vs0, cs));
                assert((i0 as int, i1 as int, i2 as int, i3 as int) == face_record(vs0, cs));
            }
            (i0, i1, i2, i3)
        } else if dir.idx[1] == 0 {
            let i0 = self.add_vert(coord);
            let i1 = self.add_vert(coord.add(dir.x()));
            let i2 = self.add_vert(coord.add(dir.xz()));
            let i3 = self.add_vert(coord.add(dir.z()));
            proof {
                lemma_dedup_extend4(vs0, cs[0], cs[1], cs[2], cs[3]);
                assert(cs =~= seq![cs[0], cs[1], cs[2], cs[3]]);
                assert(self.verts_view() == dedup_extend(vs0, cs));
                assert((i0 as int, i1 as int, i2 as int, i3 as int) == face_record(vs0, cs));
            }
            (i0, i1, i2, i3)
        } else {
            let i0 = self.add_vert(coord);
            let i1 = self.add_vert(coord.add(dir.x()));
            let i2 = self.add_vert(coord.add(dir.xy()));
            let i3 = self.add_vert(coord.add(dir.y()));
            proof {
                lemma_dedup_extend4(vs0, cs[0], cs[1], cs[2], cs[3]);
                assert(cs =~= seq![cs[0], cs[1], cs[2], cs[3]]);
                assert(self.verts_view() == dedup_extend(vs0, cs));
                assert((i0 as int, i1 as int, i2 as int, i3 as int) == face_record(vs0, cs));
            }
            (i0, i1, i2, i3)
        };
        proof {
            assert(self.verts_view() == dedup_extend(vs0, cs));
            assert((i0 as int, i1 as int, i2 as int, i3 as int) == face_record(vs0, cs));
            lemma_face_record_in_range(vs0, cs);
            lemma_dedup_extend_grows(vs0, cs);
        }
        let ghost mid = *self;
        self.faces.push([i0, i1, i2, i3]);
        proof {
            assert(self.faces_view() =~= mid.faces_view().push(face_record(vs0, cs)));
            assert(self.verts_view() == mid.verts_view());
            assert forall|k: int| 0 <= k < self.faces_view().len() implies face_in_range(
                #[trigger] self.faces_view()[k],
                self.verts_view().len() as int,
            ) by {
                if k < mid.faces_view().len() {
                    assert(face_in_range(mid.faces_view()[k], mid.verts_view().len() as int));
                } else {
                    assert(self.faces_view()[k] == face_record(vs0, cs));
                }
            }
        }
    }

    /// Emit the six faces of the unit cube at `coord`.
    pub fn add_cube(&mut self, coord: VoxelIdx)
        requires
            old(self).wf(),
            coord@.0 + 1 <= i32::MAX,
            coord@.1 + 1 <= i32::MAX,
            coord@.2 + 1 <= i32::MAX,
        ensures
            final(self).wf(),
            final(self).verts_view() == build_verts(old(self).verts_view(), cube_fds(coord@)),
            final(self).faces_view() == build_faces(
                old(self).verts_view(),
                old(self).faces_view(),
                cube_fds(coord@),
            ),
    {
        let ghost vs0 = old(self).verts_view();
        let ghost fs0 = old(self).faces_view();
        let ghost fds = cube_fds(coord@);
        let ghost done = Seq::<FaceDesc>::empty();

        self.add_face(coord, VoxelIdx::new([1, 1, 0]));
        proof {
            lemma_build_push(vs0, fs0, done, fds[0]);
            assert(done.push(fds[0]) =~= fds.take(1));
        }
        let ghost done = fds.take(1);
        self.add_face(coord, VoxelIdx::new([1, 0, 1]));
        proof {
            lemma_build_push(vs0, fs0, done, fds[1]);
            assert(done.push(fds[1]) =~= fds.take(2));
        }
        let ghost done = fds.take(2);
        self.add_face(coord, VoxelIdx::new([0, 1, 1]));
        proof {
            lemma_build_push(vs0, fs0, done, fds[2]);
            assert(done.push(fds[2]) =~= fds.take(3));
        }
        let ghost done = fds.take(3);

        let far = coord.add(VoxelIdx::unit());

        self.add_face(far, VoxelIdx::new([-1, -1, 0]));
        proof {
            lemma_build_push(vs0, fs0, done, fds[3]);
            assert(done.push(fds[3]) =~= fds.take(4));
        }
        let ghost done = fds.take(4);
        self.add_face(far, VoxelIdx::new([-1, 0, -1]));
        proof {
            lemma_build_push(vs0, fs0, done, fds[4]);
            assert(done.push(fds[4]) =~= fds.take(5));
        }
        let ghost done = fds.take(5);
        self.add_face(far, VoxelIdx::new([0, -1, -1]));
        proof {
            lemma_build_push(vs0, fs0, done, fds[5]);
            assert(done.push(fds[5]) =~= fds);
        }
    }

    pub fn vertex_count(&self) -> (r: usize)
        ensures
            r as int == self.verts_view().len(),
    {
        iset_len(&self.vertices)
    }

    pub fn face_count(&self) -> (r: usize)
        ensures
            r as int == self.faces_view().len(),
    {
        self.faces.len()
    }

    /// The vertices, in insertion order.
    pub fn vertex_list(&self) -> (r: Vec<VoxelIdx>)
        ensures
            r@.len() == self.verts_view().len(),
            forall|i: int| 0 <= i < r@.len() ==> r@[i]@ == self.verts_view()[i],
    {
        let raw = iset_to_vec(&self.vertices);
        let mut out: Vec<VoxelIdx> = Vec::new();
        let mut i: usize = 0;
        while i < raw.len()
            invariant
                i <= raw.len(),
                raw@ == iset_elems(self.vertices),
                out@.len() == i as int,
                forall|j: int| 0 <= j < i as int ==> out@[j]@ == self.verts_view()[j],
            decreases raw.len() - i,
        {
            let t = raw[i];
            out.push(VoxelIdx::new([t.0, t.1, t.2]));
            i = i + 1;
        }
        out
    }

    /// The quads, each four in-range vertex indices.
    pub fn face_list(&self) -> (r: &Vec<[usize; 4]>)
        ensures
            r@.map_values(|f: [usize; 4]| (f[0] as int, f[1] as int, f[2] as int, f[3] as int))
                == self.faces_view(),
    {
        &self.faces
    }

}

/// Every vertex after a deduplicating extension was there before or is one
/// of the new corners.
pub proof fn lemma_dedup_extend_members(vs: Seq<(int, int, int)>, cs: Seq<(int, int, int)>)
    ensures
        forall|i: int|
            0 <= i < dedup_extend(vs, cs).len() ==> (vs.contains(
                #[trigger] dedup_extend(vs, cs)[i],
            ) || cs.contains(dedup_extend(vs, cs)[i])),
    decreases cs.len(),
{
    if cs.len() != 0 {
        lemma_dedup_extend_members(vs, cs.drop_last());
        assert forall|i: int| 0 <= i < dedup_extend(vs, cs).len() implies (vs.contains(
            #[trigger] dedup_extend(vs, cs)[i],
        ) || cs.contains(dedup_extend(vs, cs)[i])) by {
            let e = dedup_extend(vs, cs)[i];
            let pre = dedup_extend(vs, cs.drop_last());
            if pre.contains(e) {
                if !vs.contains(e) {
                    let j = choose|j: int| 0 <= j < pre.len() && pre[j] == e;
                    assert(vs.contains(pre[j]) || cs.drop_last().contains(pre[j]));
                    if cs.drop_last().contains(e) {
                        let k = choose|k: int| 0 <= k < cs.drop_last().len() && cs.drop_last()[k]
                            == e;
                        assert(cs[k] == e);
                        assert(cs.contains(e));
                    }
                }
            } else {
                assert(e == cs.last());
                assert(cs[cs.len() - 1] == e);
                assert(cs.contains(e));
            }
        }
    }
}

/// Every vertex of a built mesh was in the starting list or is a corner of
/// one of the emitted quads.
pub proof fn lemma_build_verts_members(vs0: Seq<(int, int, int)>, fds: Seq<FaceDesc>)
    ensures
        forall|i: int|
            0 <= i < build_verts(vs0, fds).len() ==> (vs0.contains(
                #[trigger] build_verts(vs0, fds)[i],
            ) || exists|k: int|
                0 <= k < fds.len() && face_corners((#[trigger] fds[k]).0, fds[k].1).contains(
                    build_verts(vs0, fds)[i],
                )),
    decreases fds.len(),
{
    if fds.len() != 0 {
        lemma_build_verts_members(vs0, fds.drop_last());
        let pre = build_verts(vs0, fds.drop_last());
        let cs = face_corners(fds.last().0, fds.last().1);
        lemma_dedup_extend_members(pre, cs);
        assert forall|i: int| 0 <= i < build_verts(vs0, fds).len() implies (vs0.contains(
            #[trigger] build_verts(vs0, fds)[i],
        ) || exists|k: int|
            0 <= k < fds.len() && face_corners((#[trigger] fds[k]).0, fds[k].1).contains(
                build_verts(vs0, fds)[i],
            )) by {
            let e = build_verts(vs0, fds)[i];
            if pre.contains(e) {
                let j = choose|j: int| 0 <= j < pre.len() && pre[j] == e;
                if !vs0.contains(e) {
                    let k = choose|k: int|
                        0 <= k < fds.drop_last().len() && face_corners(
                            (#[trigger] fds.drop_last()[k]).0,
                            fds.drop_last()[k].1,
                        ).contains(pre[j]);
                    assert(fds.drop_last()[k] == fds[k]);
                    assert(face_corners(fds[k].0, fds[k].1).contains(e));
                }
            } else {
                assert(cs.contains(e));
                assert(fds[fds.len() - 1] == fds.last());
                assert(face_corners(fds[fds.len() - 1].0, fds[fds.len() - 1].1).contains(e));
            }
        }
    }
}

impl Default for Model {
    /// An empty mesh.
    fn default() -> (r: Model)
        ensures
            r.wf(),
            r.verts_view() == Seq::<(int, int, int)>::empty(),
            r.faces_view() == Seq::<(int, int, int, int)>::empty(),
    {
        Model::new()
    }
}

/// All four indices of a face record lie below `n`.
pub open spec fn face_in_range(f: (int, int, int, int), n: int) -> bool {
    0 <= f.0 < n && 0 <= f.1 < n && 0 <= f.2 < n && 0 <= f.3 < n
}

/// The six quad descriptors of the unit cube at `c`, in emission order.
pub open spec fn cube_fds(c: (int, int, int)) -> Seq<FaceDesc> {
    let far = (c.0 + 1, c.1 + 1, c.2 + 1);
    seq![
        (c, (1int, 1int, 0int)),
        (c, (1int, 0int, 1int)),
        (c, (0int, 1int, 1int)),
        (far, (-1int, -1int, 0int)),
        (far, (-1int, 0int, -1int)),
        (far, (0int, -1int, -1int)),
    ]
}

/// Widening a coordinate triple keeps membership: the widened sequence
/// contains the widened value exactly when the raw sequence contains the raw
/// value.
proof fn lemma_wide_contains(s: Seq<(i32, i32, i32)>, v: (i32, i32, i32))
    ensures
        s.contains(v) <==> wide_seq(s).contains(wide(v)),
{
    if s.contains(v) {
        let i = choose|i: int| 0 <= i < s.len() && s[i] == v;
        assert(wide_seq(s)[i] == wide(v));
    }
    if wide_seq(s).contains(wide(v)) {
        let i = choose|i: int| 0 <= i < wide_seq(s).len() && wide_seq(s)[i] == wide(v);
        assert(wide(s[i]) == wide(v));
        assert(s[i] == v);
        assert(s.contains(v));
    }
}

/// Pushing a fresh element keeps a sequence duplicate-free.
proof fn lemma_no_dup_push(s: Seq<(int, int, int)>, c: (int, int, int))
    requires
        s.no_duplicates(),
        !s.contains(c),
    ensures
        s.push(c).no_duplicates(),
{
    let t = s.push(c);
    assert forall|i: int, j: int| 0 <= i < t.len() && 0 <= j < t.len() && i != j implies t[i]
        != t[j] by {
        if i < s.len() && j < s.len() {
            assert(t[i] == s[i] && t[j] == s[j]);
        } else if i < s.len() {
            assert(t[j] == c && t[i] == s[i]);
            assert(s.contains(s[i]));
        } else {
            assert(t[i] == c && t[j] == s[j]);
            assert(s.contains(s[j]));
        }
    }
}

/// A vertex index assigned against `vs` is in range of the list after the
/// corresponding push.
proof fn lemma_vert_index_in_range(vs: Seq<(int, int, int)>, c: (int, int, int))
    ensures
        0 <= vert_index(vs, c) < dedup_push(vs, c).len(),
        dedup_push(vs, c).len() >= vs.len(),
{
    if vs.contains(c) {
        let j = vs.index_of(c);
        assert(0 <= j < vs.len());
    }
}

/// Four-element deduplicating extension is four deduplicating pushes.
pub proof fn lemma_dedup_extend4(
    vs: Seq<(int, int, int)>,
    c0: (int, int, int),
    c1: (int, int, int),
    c2: (int, int, int),
    c3: (int, int, int),
)
    ensures
        dedup_extend(vs, seq![c0, c1, c2, c3]) == dedup_push(
            dedup_push(dedup_push(dedup_push(vs, c0), c1), c2),
            c3,
        ),
{
    let cs = seq![c0, c1, c2, c3];
    assert(cs.drop_last() =~= seq![c0, c1, c2]);
    assert(seq![c0, c1, c2].drop_last() =~= seq![c0, c1]);
    assert(seq![c0, c1].drop_last() =~= seq![c0]);
    assert(seq![c0].drop_last() =~= Seq::<(int, int, int)>::empty());
    assert(dedup_extend(vs, Seq::<(int, int, int)>::empty()) == vs);
    assert(dedup_extend(vs, seq![c0]) == dedup_push(vs, c0));
    assert(dedup_extend(vs, seq![c0, c1]) == dedup_push(dedup_extend(vs, seq![c0]), c1));
    assert(dedup_extend(vs, seq![c0, c1, c2]) == dedup_push(dedup_extend(vs, seq![c0, c1]), c2));
}

/// The four indices a quad records are in range of the vertex list that the
/// quad's corners leave behind.
pub proof fn lemma_face_record_in_range(vs: Seq<(int, int, int)>, cs: Seq<(int, int, int)>)
    requires
        cs.len() == 4,
    ensures
        face_in_range(face_record(vs, cs), dedup_extend(vs, cs).len() as int),
{
    lemma_dedup_extend4(vs, cs[0], cs[1], cs[2], cs[3]);
    assert(cs =~= seq![cs[0], cs[1], cs[2], cs[3]]);
    lemma_vert_index_in_range(vs, cs[0]);
    let v1 = dedup_push(vs, cs[0]);
    lemma_vert_index_in_range(v1, cs[1]);
    let v2 = dedup_push(v1, cs[1]);
    lemma_vert_index_in_range(v2, cs[2]);
    let v3 = dedup_push(v2, cs[2]);
    lemma_vert_index_in_range(v3, cs[3]);
    let v4 = dedup_push(v3, cs[3]);
    assert(v1.len() >= vs.len() && v2.len() >= v1.len() && v3.len() >= v2.len() && v4.len()
        >= v3.len());
}

/// One more emitted quad unfolds `build_verts` and `build_faces` by one step.
pub proof fn lemma_build_push(
    vs0: Seq<(int, int, int)>,
    fs0: Seq<(int, int, int, int)>,
    fds: Seq<FaceDesc>,
    fd: FaceDesc,
)
    ensures
        build_verts(vs0, fds.push(fd)) == dedup_extend(
            build_verts(vs0, fds),
            face_corners(fd.0, fd.1),
        ),
        build_faces(vs0, fs0, fds.push(fd)) == build_faces(vs0, fs0, fds).push(
            face_record(build_verts(vs0, fds), face_corners(fd.0, fd.1)),
        ),
{
    assert(fds.push(fd).drop_last() =~= fds);
    assert(fds.push(fd).last() == fd);
    assert(fds.push(fd).len() != 0);
}

/// Emitting a concatenation of quads is emitting the parts in turn.
pub proof fn lemma_build_concat(
    vs0: Seq<(int, int, int)>,
    fs0: Seq<(int, int, int, int)>,
    a: Seq<FaceDesc>,
    b: Seq<FaceDesc>,
)
    ensures
        build_verts(vs0, a + b) == build_verts(build_verts(vs0, a), b),
        build_faces(vs0, fs0, a + b) == build_faces(build_verts(vs0, a), build_faces(vs0, fs0, a), b),
    decreases b.len(),
{
    if b.len() == 0 {
        assert(a + b =~= a);
    } else {
        lemma_build_concat(vs0, fs0, a, b.drop_last());
        assert((a + b).drop_last() =~= a + b.drop_last());
        assert((a + b).last() == b.last());
    }
}

/// Emitting quads appends exactly one face record per quad.
pub proof fn lemma_build_faces_len(
    vs0: Seq<(int, int, int)>,
    fs0: Seq<(int, int, int, int)>,
    fds: Seq<FaceDesc>,
)
    ensures
        build_faces(vs0, fs0, fds).len() == fs0.len() + fds.len(),
    decreases fds.len(),
{
    if fds.len() != 0 {
        lemma_build_faces_len(vs0, fs0, fds.drop_last());
    }
}

/// Deduplicating extension never removes vertices.
pub proof fn lemma_dedup_extend_grows(vs: Seq<(int, int, int)>, cs: Seq<(int, int, int)>)
    ensures
        dedup_extend(vs, cs).len() >= vs.len(),
        forall|i: int| 0 <= i < vs.len() ==> dedup_extend(vs, cs)[i] == vs[i],
    decreases cs.len(),
{
    if cs.len() != 0 {
        lemma_dedup_extend_grows(vs, cs.drop_last());
    }
}

} // verus!
