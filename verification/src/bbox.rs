use vstd::prelude::*;

use crate::voxelidx::VoxelIdx;

verus! {

/// Running componentwise bounds of every coordinate handed to `add`, with an
/// insertion count; the bounds mean nothing while `count` is zero.
#[derive(Clone, Copy, Debug)]
pub struct BoundingBox {
    pub bound_min: VoxelIdx,
    pub bound_max: VoxelIdx,
    pub count: usize,
}

/// Componentwise order on coordinate triples.
pub open spec fn le3(a: (int, int, int), b: (int, int, int)) -> bool {
    a.0 <= b.0 && a.1 <= b.1 && a.2 <= b.2
}

/// `bb` holds exactly the componentwise minimum and maximum of `occ`: all of
/// `occ` lies between the bounds, and each bound component is attained.
pub open spec fn bb_tracks(bb: BoundingBox, occ: Set<(int, int, int)>) -> bool {
    &&& (bb.count == 0 <==> occ.is_empty())
    &&& (forall|t: (int, int, int)|
        occ.contains(t) ==> le3(bb.bound_min@, t) && le3(t, bb.bound_max@))
    &&& (bb.count != 0 ==> exists|t: (int, int, int)| occ.contains(t) && t.0 == bb.bound_min@.0)
    &&& (bb.count != 0 ==> exists|t: (int, int, int)| occ.contains(t) && t.1 == bb.bound_min@.1)
    &&& (bb.count != 0 ==> exists|t: (int, int, int)| occ.contains(t) && t.2 == bb.bound_min@.2)
    &&& (bb.count != 0 ==> exists|t: (int, int, int)| occ.contains(t) && t.0 == bb.bound_max@.0)
    &&& (bb.count != 0 ==> exists|t: (int, int, int)| occ.contains(t) && t.1 == bb.bound_max@.1)
    &&& (bb.count != 0 ==> exists|t: (int, int, int)| occ.contains(t) && t.2 == bb.bound_max@.2)
}

impl BoundingBox {
    /// An empty box: no coordinate inserted yet.
    pub fn new() -> (r: Self)
        ensures
            r.count == 0,
            bb_tracks(r, Set::empty()),
    {
        BoundingBox {
            bound_min: VoxelIdx::new([0, 0, 0]),
            bound_max: VoxelIdx::new([0, 0, 0]),
            count: 0,
        }
    }

    /// Widen the box to cover `coord` and count the insertion.
    pub fn add(&mut self, coord: VoxelIdx)
        requires
            old(self).count < usize::MAX,
        ensures
            final(self).count == old(self).count + 1,
            old(self).count == 0 ==> final(self).bound_min == coord && final(self).bound_max
                == coord,
            old(self).count != 0 ==> final(self).bound_min@ == (
                vstd::math::min(old(self).bound_min@.0, coord@.0),
                vstd::math::min(old(self).bound_min@.1, coord@.1),
                vstd::math::min(old(self).bound_min@.2, coord@.2),
            ),
            old(self).count != 0 ==> final(self).bound_max@ == (
                vstd::math::max(old(self).bound_max@.0, coord@.0),
                vstd::math::max(old(self).bound_max@.1, coord@.1),
                vstd::math::max(old(self).bound_max@.2, coord@.2),
            ),
    {
        if self.count == 0 {
            self.bound_min = coord;
            self.bound_max = coord;
        } else {
            self.bound_min = coord.bb_min(&self.bound_min);
            self.bound_max = coord.bb_max(&self.bound_max);
        }
        self.count = self.count + 1;
    }

    pub fn bound_min(&self) -> (r: VoxelIdx)
        ensures
            r == self.bound_min,
    {
        self.bound_min
    }

    pub fn bound_max(&self) -> (r: VoxelIdx)
        ensures
            r == self.bound_max,
    {
        self.bound_max
    }

    pub fn count(&self) -> (r: usize)
        ensures
            r == self.count,
    {
        self.count
    }
}

/// One `BoundingBox::add` step keeps the box exact: if `bb0` was the exact
/// bounds of `occ`, the widened `bb1` is the exact bounds of `occ` with `c`.
pub proof fn lemma_bb_add(bb0: BoundingBox, bb1: BoundingBox, c: VoxelIdx, occ: Set<
    (int, int, int),
>)
    requires
        bb_tracks(bb0, occ),
        bb1.count == bb0.count + 1,
        bb0.count == 0 ==> bb1.bound_min == c && bb1.bound_max == c,
        bb0.count != 0 ==> bb1.bound_min@ == (
            vstd::math::min(bb0.bound_min@.0, c@.0),
            vstd::math::min(bb0.bound_min@.1, c@.1),
            vstd::math::min(bb0.bound_min@.2, c@.2),
        ),
        bb0.count != 0 ==> bb1.bound_max@ == (
            vstd::math::max(bb0.bound_max@.0, c@.0),
            vstd::math::max(bb0.bound_max@.1, c@.1),
            vstd::math::max(bb0.bound_max@.2, c@.2),
        ),
    ensures
        bb_tracks(bb1, occ.insert(c@)),
{
    let occ1 = occ.insert(c@);
    assert(occ1.contains(c@));
    assert(!occ1.is_empty());
    if bb0.count == 0 {
        assert(occ.is_empty());
        assert forall|t: (int, int, int)| occ1.contains(t) implies le3(bb1.bound_min@, t) && le3(
            t,
            bb1.bound_max@,
        ) by {
            assert(t == c@);
        }
    } else {
        assert(!occ.is_empty());
        assert forall|t: (int, int, int)| occ1.contains(t) implies le3(bb1.bound_min@, t) && le3(
            t,
            bb1.bound_max@,
        ) by {
            if t != c@ {
                assert(occ.contains(t));
            }
        }
        // each bound component of bb1 is attained either by c or by the old attainer
        let m0 = choose|t: (int, int, int)| occ.contains(t) && t.0 == bb0.bound_min@.0;
        let m1 = choose|t: (int, int, int)| occ.contains(t) && t.1 == bb0.bound_min@.1;
        let m2 = choose|t: (int, int, int)| occ.contains(t) && t.2 == bb0.bound_min@.2;
        let x0 = choose|t: (int, int, int)| occ.contains(t) && t.0 == bb0.bound_max@.0;
        let x1 = choose|t: (int, int, int)| occ.contains(t) && t.1 == bb0.bound_max@.1;
        let x2 = choose|t: (int, int, int)| occ.contains(t) && t.2 == bb0.bound_max@.2;
        assert(occ1.contains(m0) && occ1.contains(m1) && occ1.contains(m2));
        assert(occ1.contains(x0) && occ1.contains(x1) && occ1.contains(x2));
        if bb1.bound_min@.0 != c@.0 {
            assert(occ1.contains(m0) && m0.0 == bb1.bound_min@.0);
        }
        if bb1.bound_min@.1 != c@.1 {
            assert(occ1.contains(m1) && m1.1 == bb1.bound_min@.1);
        }
        if bb1.bound_min@.2 != c@.2 {
            assert(occ1.contains(m2) && m2.2 == bb1.bound_min@.2);
        }
        if bb1.bound_max@.0 != c@.0 {
            assert(occ1.contains(x0) && x0.0 == bb1.bound_max@.0);
        }
        if bb1.bound_max@.1 != c@.1 {
            assert(occ1.contains(x1) && x1.1 == bb1.bound_max@.1);
        }
        if bb1.bound_max@.2 != c@.2 {
            assert(occ1.contains(x2) && x2.2 == bb1.bound_max@.2);
        }
    }
}

} // verus!
