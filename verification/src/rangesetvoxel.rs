use vstd::prelude::*;

use crate::bbox::{bb_tracks, lemma_bb_add, BoundingBox};
use crate::model::Model;
use crate::voxel::{
    build_mesh, coord_ok, lemma_run_pts_card, lemma_runs_pts_finite, lemma_runs_pts_ok,
    lemma_runs_total_nonneg, run_ok, run_pts, runs_ok, runs_pts, runs_total, wide4, Occupancy,
    Voxel,
};
use crate::voxelidx::VoxelIdx;
use rangemap::RangeSet;

verus! {

// --------------------------------------------------------------------------
// Trusted view of rangemap's ordered range set.
// --------------------------------------------------------------------------

#[verifier::external_type_specification]
#[verifier::external_body]
#[verifier::reject_recursive_types(T)]
pub struct ExRangeSet<T>(RangeSet<T>);

/// A stored range: half-open, bounded by coordinate triples in the
/// lexicographic tuple order.
pub type RPair = ((i32, i32, i32), (i32, i32, i32));

/// What a `rangemap::RangeSet` of coordinate triples stores: its coalesced
/// ranges, in ascending order.
pub uninterp spec fn rset_ranges(s: RangeSet<(i32, i32, i32)>) -> Seq<RPair>;

pub open spec fn wide3(t: (i32, i32, i32)) -> (int, int, int) {
    (t.0 as int, t.1 as int, t.2 as int)
}

/// The lexicographic order on coordinate triples, as std orders tuples.
pub open spec fn lex_le(a: (int, int, int), b: (int, int, int)) -> bool {
    ||| a.0 < b.0
    ||| (a.0 == b.0 && a.1 < b.1)
    ||| (a.0 == b.0 && a.1 == b.1 && a.2 <= b.2)
}

pub open spec fn lex_lt(a: (int, int, int), b: (int, int, int)) -> bool {
    lex_le(a, b) && a != b
}

/// The triples covered by one half-open lexicographic range.
pub open spec fn range_pts(lo: (int, int, int), hi: (int, int, int)) -> Set<(int, int, int)> {
    Set::new(|t: (int, int, int)| lex_le(lo, t) && lex_lt(t, hi))
}

/// The triples covered by a list of ranges.
pub open spec fn ranges_pts3(rs: Seq<RPair>) -> Set<(int, int, int)>
    decreases rs.len(),
{
    if rs.len() == 0 {
        Set::empty()
    } else {
        ranges_pts3(rs.drop_last()).union(range_pts(wide3(rs.last().0), wide3(rs.last().1)))
    }
}

/// A range as this store creates them: both ends in one column, a non-empty
/// z span, representable coordinates.
pub open spec fn rpair_ok(r: RPair) -> bool {
    &&& r.0.0 == r.1.0
    &&& r.0.1 == r.1.1
    &&& (r.0.2 as int) < (r.1.2 as int)
    &&& coord_ok(wide3(r.0))
}

/// The shape our insertions keep the stored ranges in: column-pure,
/// non-empty, sorted and disjoint.
pub open spec fn rpairs_wf(rs: Seq<RPair>) -> bool {
    &&& forall|i: int| 0 <= i < rs.len() ==> rpair_ok(#[trigger] rs[i])
    &&& forall|i: int|
        0 <= i && i + 1 < rs.len() ==> lex_le(wide3((#[trigger] rs[i]).1), wide3(rs[i + 1].0))
}

/// Relies on `rangemap::RangeSet::new`: makes an empty set with no ranges.
#[verifier::external_body]
fn rset_new() -> (r: RangeSet<(i32, i32, i32)>)
    ensures
        rset_ranges(r) == Seq::<RPair>::empty(),
{
    RangeSet::new()
}

/// Relies on `rangemap::RangeSet::contains`: true exactly when one of the
/// stored ranges covers the value in the lexicographic tuple order.
#[verifier::external_body]
fn rset_contains(s: &RangeSet<(i32, i32, i32)>, v: (i32, i32, i32)) -> (r: bool)
    ensures
        r == ranges_pts3(rset_ranges(*s)).contains(wide3(v)),
{
    s.contains(&v)
}

/// Relies on `rangemap::RangeSet::insert`: adds the range `lo..hi`,
/// coalescing it with any stored range it overlaps or touches. Coalescing
/// preserves the covered points; merged endpoints are endpoints of the
/// touching ranges, so ranges that all sit in one column each stay
/// column-pure, sorted and disjoint; and since the touched ranges are
/// removed while exactly one range is stored, the range count grows by at
/// most one.
#[verifier::external_body]
fn rset_insert(s: &mut RangeSet<(i32, i32, i32)>, lo: (i32, i32, i32), hi: (i32, i32, i32))
    requires
        lex_lt(wide3(lo), wide3(hi)),
    ensures
        ranges_pts3(rset_ranges(*final(s))) == ranges_pts3(rset_ranges(*old(s))).union(
            range_pts(wide3(lo), wide3(hi)),
        ),
        rpairs_wf(rset_ranges(*old(s))) && rpair_ok((lo, hi)) ==> rpairs_wf(
            rset_ranges(*final(s)),
        ),
        rset_ranges(*final(s)).len() <= rset_ranges(*old(s)).len() + 1,
{
    s.insert(lo..hi);
}

/// Relies on `rangemap::RangeSet::iter`: yields the stored ranges in
/// ascending order.
#[verifier::external_body]
fn rset_to_vec(s: &RangeSet<(i32, i32, i32)>) -> (r: Vec<RPair>)
    ensures
        r@ == rset_ranges(*s),
{
    s.iter().map(|rg| (rg.start, rg.end)).collect()
}

// --------------------------------------------------------------------------
// Bridging the lexicographic ranges to z-axis runs.
// --------------------------------------------------------------------------

/// The stored ranges as flat run records.
pub open spec fn rpairs_runs(rs: Seq<RPair>) -> Seq<(int, int, int, int)>
    decreases rs.len(),
{
    if rs.len() == 0 {
        Seq::empty()
    } else {
        rpairs_runs(rs.drop_last()).push(
            (
                rs.last().0.0 as int,
                rs.last().0.1 as int,
                rs.last().0.2 as int,
                rs.last().1.2 as int,
            ),
        )
    }
}

pub proof fn lemma_rpairs_runs_index(rs: Seq<RPair>)
    ensures
        rpairs_runs(rs).len() == rs.len(),
        forall|i: int|
            0 <= i < rs.len() ==> rpairs_runs(rs)[i] == (
                (#[trigger] rs[i]).0.0 as int,
                rs[i].0.1 as int,
                rs[i].0.2 as int,
                rs[i].1.2 as int,
            ),
    decreases rs.len(),
{
    if rs.len() != 0 {
        lemma_rpairs_runs_index(rs.drop_last());
        assert(forall|i: int| 0 <= i < rs.len() - 1 ==> rs.drop_last()[i] == rs[i]);
    }
}

/// A column-pure lexicographic range covers exactly the run of its column.
pub proof fn lemma_pure_range_pts(r: RPair)
    requires
        r.0.0 == r.1.0,
        r.0.1 == r.1.1,
    ensures
        range_pts(wide3(r.0), wide3(r.1)) == run_pts(
            (r.0.0 as int, r.0.1 as int, r.0.2 as int, r.1.2 as int),
        ),
{
    assert(range_pts(wide3(r.0), wide3(r.1)) =~= run_pts(
        (r.0.0 as int, r.0.1 as int, r.0.2 as int, r.1.2 as int),
    ));
}

/// Column-pure ranges cover the same points as their run records.
pub proof fn lemma_rpairs_pts_bridge(rs: Seq<RPair>)
    requires
        forall|i: int| 0 <= i < rs.len() ==> rpair_ok(#[trigger] rs[i]),
    ensures
        ranges_pts3(rs) == runs_pts(rpairs_runs(rs)),
    decreases rs.len(),
{
    if rs.len() != 0 {
        assert(forall|i: int| 0 <= i < rs.len() - 1 ==> rs.drop_last()[i] == rs[i]);
        lemma_rpairs_pts_bridge(rs.drop_last());
        assert(rpair_ok(rs[rs.len() - 1]));
        lemma_pure_range_pts(rs.last());
        let pre = rpairs_runs(rs.drop_last());
        let tup = (
            rs.last().0.0 as int,
            rs.last().0.1 as int,
            rs.last().0.2 as int,
            rs.last().1.2 as int,
        );
        assert(pre.push(tup).drop_last() =~= pre);
        assert(pre.push(tup).last() == tup);
        assert(runs_pts(rpairs_runs(rs)) == runs_pts(pre).union(run_pts(tup)));
    }
}

/// Well-formed stored ranges flatten to well-formed run records.
pub proof fn lemma_rpairs_runs_ok(rs: Seq<RPair>)
    requires
        rpairs_wf(rs),
    ensures
        runs_ok(rpairs_runs(rs)),
{
    lemma_rpairs_runs_index(rs);
    assert forall|i: int| 0 <= i < rpairs_runs(rs).len() implies run_ok(
        #[trigger] rpairs_runs(rs)[i],
    ) by {
        assert(rpair_ok(rs[i]));
    }
}

/// Transitivity of the lexicographic order.
pub proof fn lemma_lex_le_trans(a: (int, int, int), b: (int, int, int), c: (int, int, int))
    requires
        lex_le(a, b),
        lex_le(b, c),
    ensures
        lex_le(a, c),
{
}

/// Every endpoint of an earlier range sits at or before the start of a later
/// one.
pub proof fn lemma_rpairs_chain(rs: Seq<RPair>, i: int, j: int)
    requires
        rpairs_wf(rs),
        0 <= i < j < rs.len(),
    ensures
        lex_le(wide3(rs[i].1), wide3(rs[j].0)),
    decreases j - i,
{
    if i + 1 == j {
    } else {
        lemma_rpairs_chain(rs, i, j - 1);
        assert(rpair_ok(rs[j - 1]));
        assert(lex_le(wide3(rs[j - 1].0), wide3(rs[j - 1].1)));
        lemma_lex_le_trans(wide3(rs[i].1), wide3(rs[j - 1].0), wide3(rs[j - 1].1));
        lemma_lex_le_trans(wide3(rs[i].1), wide3(rs[j - 1].1), wide3(rs[j].0));
    }
}

/// A covered point lies in one of the runs.
pub proof fn lemma_runs_pts_member(runs: Seq<(int, int, int, int)>, t: (int, int, int))
    requires
        runs_pts(runs).contains(t),
    ensures
        exists|i: int| 0 <= i < runs.len() && run_pts(#[trigger] runs[i]).contains(t),
    decreases runs.len(),
{
    if runs.len() != 0 {
        if run_pts(runs.last()).contains(t) {
            assert(runs[runs.len() - 1] == runs.last());
        } else {
            lemma_runs_pts_member(runs.drop_last(), t);
            let i = choose|i: int|
                0 <= i < runs.drop_last().len() && run_pts(
                    #[trigger] runs.drop_last()[i],
                ).contains(t);
            assert(runs.drop_last()[i] == runs[i]);
        }
    }
}

/// Sorted disjoint column-pure ranges cover as many points as their total
/// length: no voxel is counted twice.
#[verifier::rlimit(100)]
pub proof fn lemma_rpairs_card(rs: Seq<RPair>)
    requires
        rpairs_wf(rs),
    ensures
        runs_pts(rpairs_runs(rs)).finite(),
        runs_pts(rpairs_runs(rs)).len() == runs_total(rpairs_runs(rs)),
    decreases rs.len(),
{
    lemma_rpairs_runs_index(rs);
    if rs.len() == 0 {
        assert(runs_pts(rpairs_runs(rs)) =~= Set::<(int, int, int)>::empty());
    } else {
        assert(forall|i: int| 0 <= i < rs.len() - 1 ==> rs.drop_last()[i] == rs[i]);
        assert(rpairs_wf(rs.drop_last()));
        lemma_rpairs_card(rs.drop_last());
        lemma_rpairs_runs_index(rs.drop_last());
        let last = rs[rs.len() - 1];
        assert(rpair_ok(last));
        let tup = (last.0.0 as int, last.0.1 as int, last.0.2 as int, last.1.2 as int);
        let pre = rpairs_runs(rs.drop_last());
        assert(pre.push(tup).drop_last() =~= pre);
        assert(pre.push(tup).last() == tup);
        assert(rpairs_runs(rs) == pre.push(tup));
        assert(runs_pts(rpairs_runs(rs)) == runs_pts(pre).union(run_pts(tup)));
        assert(runs_total(rpairs_runs(rs)) == runs_total(pre) + (tup.3 - tup.2));
        lemma_run_pts_card(tup);
        // the last range starts lexicographically beyond every earlier
        // range, so its points are fresh
        assert forall|t: (int, int, int)| runs_pts(pre).contains(t) implies !run_pts(
            tup,
        ).contains(t) by {
            lemma_runs_pts_member(pre, t);
            let i = choose|i: int| 0 <= i < pre.len() && run_pts(#[trigger] pre[i]).contains(t);
            assert(pre[i] == (rs[i].0.0 as int, rs[i].0.1 as int, rs[i].0.2 as int, rs[i].1.2 as int));
            lemma_rpairs_chain(rs, i, rs.len() - 1);
            if run_pts(tup).contains(t) {
                assert(lex_le(wide3(last.0), t));
                assert(lex_lt(t, wide3(rs[i].1)));
                lemma_lex_le_trans(wide3(rs[i].1), wide3(last.0), t);
                assert(false);
            }
        }
        assert(runs_pts(pre).disjoint(run_pts(tup)));
        vstd::set_lib::lemma_set_disjoint_lens(runs_pts(pre), run_pts(tup));
        assert(runs_pts(pre) + run_pts(tup) =~= runs_pts(pre).union(run_pts(tup)));
    }
}

// --------------------------------------------------------------------------
// The store.
// --------------------------------------------------------------------------

/// The interval-set voxel store: unit z-extent ranges over the full
/// three-dimensional lexicographic order, held in a general-purpose ordered
/// range collection, with a running bounding box.
pub struct RangeSetVoxel {
    ranges: RangeSet<(i32, i32, i32)>,
    bb: BoundingBox,
}

impl RangeSetVoxel {
    pub fn new() -> (r: RangeSetVoxel)
        ensures
            r.inv(),
            r.occ() == Set::<(int, int, int)>::empty(),
            r.runs_view() == Seq::<(int, int, int, int)>::empty(),
            r.nblocks() == 0,
    {
        let r = RangeSetVoxel { ranges: rset_new(), bb: BoundingBox::new() };
        proof {
            assert(rpairs_runs(rset_ranges(r.ranges)) =~= Seq::<(int, int, int, int)>::empty());
            assert(runs_pts(rpairs_runs(rset_ranges(r.ranges))) =~= Set::<(int, int, int)>::empty());
            assert(bb_tracks(r.bb, runs_pts(rpairs_runs(rset_ranges(r.ranges)))));
        }
        r
    }
}

impl Default for RangeSetVoxel {
    /// An empty store.
    fn default() -> (r: RangeSetVoxel)
        ensures
            r.inv(),
            r.occ() == Set::<(int, int, int)>::empty(),
            r.runs_view() == Seq::<(int, int, int, int)>::empty(),
            r.nblocks() == 0,
    {
        RangeSetVoxel::new()
    }
}

impl Occupancy for RangeSetVoxel {
    closed spec fn occ(&self) -> Set<(int, int, int)> {
        runs_pts(rpairs_runs(rset_ranges(self.ranges)))
    }

    closed spec fn runs_view(&self) -> Seq<(int, int, int, int)> {
        rpairs_runs(rset_ranges(self.ranges))
    }

    closed spec fn nblocks(&self) -> int {
        runs_total(rpairs_runs(rset_ranges(self.ranges)))
    }

    closed spec fn bb(&self) -> BoundingBox {
        self.bb
    }

    closed spec fn inv(&self) -> bool {
        &&& rpairs_wf(rset_ranges(self.ranges))
        &&& runs_total(rpairs_runs(rset_ranges(self.ranges))) <= usize::MAX
        &&& self.bb.count as int == runs_total(rpairs_runs(rset_ranges(self.ranges)))
        &&& bb_tracks(self.bb, runs_pts(rpairs_runs(rset_ranges(self.ranges))))
    }

    proof fn lemma_inv(&self) {
        let rs = rset_ranges(self.ranges);
        lemma_rpairs_runs_ok(rs);
        lemma_runs_pts_finite(rpairs_runs(rs));
        lemma_runs_total_nonneg(rpairs_runs(rs));
        lemma_runs_pts_ok(rpairs_runs(rs));
        lemma_rpairs_card(rs);
    }

    fn occupied(&self, coord: VoxelIdx) -> (r: bool) {
        proof {
            let rs = rset_ranges(self.ranges);
            assert(forall|i: int| 0 <= i < rs.len() ==> rpair_ok(#[trigger] rs[i]));
            lemma_rpairs_pts_bridge(rs);
        }
        rset_contains(&self.ranges, (coord.idx[0], coord.idx[1], coord.idx[2]))
    }

    fn runs_list(&self) -> (r: Vec<(i32, i32, i32, i32)>) {
        let raw = rset_to_vec(&self.ranges);
        proof {
            lemma_rpairs_runs_index(rset_ranges(self.ranges));
        }
        let mut out: Vec<(i32, i32, i32, i32)> = Vec::new();
        let mut i: usize = 0;
        while i < raw.len()
            invariant
                raw@ == rset_ranges(self.ranges),
                rpairs_runs(raw@).len() == raw@.len(),
                forall|k: int|
                    0 <= k < raw@.len() ==> rpairs_runs(raw@)[k] == (
                        (#[trigger] raw@[k]).0.0 as int,
                        raw@[k].0.1 as int,
                        raw@[k].0.2 as int,
                        raw@[k].1.2 as int,
                    ),
                i <= raw@.len(),
                out@.len() == i as int,
                forall|k: int|
                    0 <= k < i as int ==> wide4(#[trigger] out@[k]) == rpairs_runs(raw@)[k],
            decreases raw@.len() - i,
        {
            let (lo, hi) = raw[i];
            out.push((lo.0, lo.1, lo.2, hi.2));
            i = i + 1;
        }
        out
    }
}

impl Voxel for RangeSetVoxel {
    /// The general-purpose range collection coalesces: an insertion stores
    /// one range and may merge touching neighbours away, so the run count
    /// grows by at most one and may shrink.
    open spec fn add_frag(pre: Self, post: Self, c: VoxelIdx) -> bool {
        post.runs_view().len() <= pre.runs_view().len() + 1
    }

    fn add(&mut self, coord: VoxelIdx) -> (r: bool) {
        proof {
            self.lemma_inv();
        }
        let v = (coord.idx[0], coord.idx[1], coord.idx[2]);
        let already = self.occupied(coord);
        if already {
            proof {
                assert(old(self).occ().insert(coord@) =~= old(self).occ());
            }
            return false;
        }
        let ghost rs0 = rset_ranges(self.ranges);
        let ghost occ0 = old(self).occ();
        let hi = (v.0, v.1, v.2 + 1);
        proof {
            assert(lex_lt(wide3(v), wide3(hi)));
            assert(rpair_ok((v, hi)));
        }
        rset_insert(&mut self.ranges, v, hi);
        self.bb.add(coord);
        proof {
            let rs1 = rset_ranges(self.ranges);
            assert(coord_ok(coord@));
            assert(rpairs_wf(rs1));
            lemma_rpairs_pts_bridge(rs0);
            lemma_rpairs_pts_bridge(rs1);
            assert(range_pts(wide3(v), wide3(hi)) =~= Set::<(int, int, int)>::empty().insert(
                coord@,
            ));
            assert(self.occ() =~= occ0.insert(coord@));
            lemma_rpairs_card(rs0);
            lemma_rpairs_card(rs1);
            assert(self.occ().len() == occ0.len() + 1);
            assert(self.nblocks() == old(self).nblocks() + 1);
            lemma_rpairs_runs_index(rs0);
            lemma_rpairs_runs_index(rs1);
            assert(Self::add_frag(*old(self), *self, coord));
            lemma_bb_add(old(self).bb, self.bb, coord, occ0);
            assert(bb_tracks(self.bb, self.occ()));
        }
        true
    }

    fn bounding_box(&self) -> (r: &BoundingBox) {
        &self.bb
    }

    fn to_model(&self) -> (m: Model) {
        build_mesh(self)
    }
}

} // verus!
