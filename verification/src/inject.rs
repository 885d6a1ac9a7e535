use vstd::prelude::*;

use crate::monotonicvoxel::MonotonicVoxel;
use crate::voxel::{coord_ok, run_pts, Occupancy, Voxel};
use crate::voxelidx::VoxelIdx;

verus! {

/// Hard cap on the injector's depth budget; keeps the visited set small
/// enough to count in a usize on every machine.
pub const DEPTH_LIMIT: usize = 500;

/// Hard cap on the magnitude of a seed component; keeps every visited
/// coordinate representable.
pub const SEED_LIMIT: i32 = 1_000_000_000;

/// One frontier entry of the injector's best-first search: squared distance
/// to the seed, remaining expansion depth, and the coordinate itself.
#[derive(Clone, Copy, Debug)]
pub struct HeapItem {
    pub dist: usize,
    pub depth: usize,
    pub pos: VoxelIdx,
}

/// Frontier entries sorted by distance, largest first, so the nearest entry
/// sits at the back; this turns a plain vector into a minimum-first queue.
pub open spec fn sorted_desc(s: Seq<HeapItem>) -> bool {
    forall|i: int, j: int|
        0 <= i < j < s.len() ==> (#[trigger] s[i]).dist >= (#[trigger] s[j]).dist
}

pub open spec fn pow7(n: nat) -> nat
    decreases n,
{
    if n == 0 {
        1
    } else {
        7 * pow7((n - 1) as nat)
    }
}

/// Work measure of the frontier: each entry weighs in with the search tree
/// it could still spawn, so every loop step strictly shrinks it.
pub open spec fn frontier_measure(s: Seq<HeapItem>) -> nat
    decreases s.len(),
{
    if s.len() == 0 {
        0
    } else {
        frontier_measure(s.drop_last()) + pow7(s.last().depth as nat)
    }
}

proof fn lemma_measure_concat(a: Seq<HeapItem>, b: Seq<HeapItem>)
    ensures
        frontier_measure(a + b) == frontier_measure(a) + frontier_measure(b),
    decreases b.len(),
{
    if b.len() == 0 {
        assert(a + b =~= a);
    } else {
        lemma_measure_concat(a, b.drop_last());
        assert((a + b).drop_last() =~= a + b.drop_last());
        assert((a + b).last() == b.last());
    }
}

proof fn lemma_measure_one(it: HeapItem)
    ensures
        frontier_measure(seq![it]) == pow7(it.depth as nat),
{
    assert(seq![it].drop_last() =~= Seq::<HeapItem>::empty());
    assert(seq![it].last() == it);
    assert(frontier_measure(Seq::<HeapItem>::empty()) == 0);
}

/// Push an entry, keeping the descending order; the frontier grows by the
/// entry and its weight.
fn frontier_push(fr: &mut Vec<HeapItem>, it: HeapItem)
    requires
        sorted_desc(old(fr)@),
    ensures
        sorted_desc(final(fr)@),
        final(fr)@.len() == old(fr)@.len() + 1,
        frontier_measure(final(fr)@) == frontier_measure(old(fr)@) + pow7(it.depth as nat),
        forall|i: int|
            0 <= i < final(fr)@.len() ==> (#[trigger] final(fr)@[i] == it || exists|j: int|
                0 <= j < old(fr)@.len() && final(fr)@[i] == old(fr)@[j]),
{
    let ghost fr0 = fr@;
    let mut k: usize = fr.len();
    while k > 0 && fr[k - 1].dist < it.dist
        invariant
            fr@ == fr0,
            k <= fr@.len(),
            sorted_desc(fr@),
            forall|i: int| k <= i < fr@.len() ==> (#[trigger] fr@[i]).dist < it.dist,
        decreases k,
    {
        k = k - 1;
    }
    proof {
        assert(k == 0 || fr@[k - 1].dist >= it.dist);
    }
    fr.insert(k, it);
    proof {
        let fr1 = fr@;
        assert(fr1 =~= fr0.take(k as int) + seq![it] + fr0.skip(k as int));
        assert(fr0 =~= fr0.take(k as int) + fr0.skip(k as int));
        lemma_measure_concat(fr0.take(k as int) + seq![it], fr0.skip(k as int));
        lemma_measure_concat(fr0.take(k as int), seq![it]);
        lemma_measure_concat(fr0.take(k as int), fr0.skip(k as int));
        lemma_measure_one(it);
        assert forall|i: int, j: int| 0 <= i < j < fr1.len() implies (#[trigger] fr1[i]).dist
            >= (#[trigger] fr1[j]).dist by {
            if i < k as int {
                assert(fr1[i] == fr0[i]);
            } else if i == k as int {
                assert(fr1[i] == it);
            } else {
                assert(fr1[i] == fr0[i - 1]);
            }
            if j < k as int {
                assert(fr1[j] == fr0[j]);
            } else if j == k as int {
                assert(fr1[j] == it);
            } else {
                assert(fr1[j] == fr0[j - 1]);
            }
            if i < k as int && k as int <= j {
                assert(fr0[i].dist >= fr0[k as int - 1].dist);
            }
        }
        assert forall|i: int| 0 <= i < fr1.len() implies (#[trigger] fr1[i] == it || exists|j: int|
            0 <= j < fr0.len() && fr1[i] == fr0[j]) by {
            if i < k as int {
                assert(fr1[i] == fr0[i]);
            } else if i > k as int {
                assert(fr1[i] == fr0[i - 1]);
            }
        }
    }
}

/// Pop the nearest entry: the back of the vector.
fn frontier_pop(fr: &mut Vec<HeapItem>) -> (r: HeapItem)
    requires
        sorted_desc(old(fr)@),
        old(fr)@.len() > 0,
    ensures
        sorted_desc(final(fr)@),
        final(fr)@ == old(fr)@.drop_last(),
        r == old(fr)@.last(),
        frontier_measure(final(fr)@) + pow7(r.depth as nat) == frontier_measure(old(fr)@),
        forall|i: int| 0 <= i < final(fr)@.len() ==> (#[trigger] final(fr)@[i]).dist >= r.dist,
{
    let r = fr.pop().unwrap();
    proof {
        assert(forall|i: int|
            0 <= i < fr@.len() ==> (#[trigger] fr@[i]) == old(fr)@[i]);
    }
    r
}

/// The axis-aligned box of coordinates within `r` of `c` on every axis.
pub open spec fn box3(xlo: int, xhi: int, ylo: int, yhi: int, zlo: int, zhi: int) -> Set<
    (int, int, int),
> {
    Set::new(
        |t: (int, int, int)| xlo <= t.0 <= xhi && ylo <= t.1 <= yhi && zlo <= t.2 <= zhi,
    )
}

proof fn lemma_line_card(x: int, y: int, zlo: int, zhi: int)
    requires
        zlo <= zhi,
    ensures
        box3(x, x, y, y, zlo, zhi).finite(),
        box3(x, x, y, y, zlo, zhi).len() == zhi - zlo + 1,
{
    assert(box3(x, x, y, y, zlo, zhi) =~= run_pts((x, y, zlo, zhi + 1)));
    crate::voxel::lemma_run_pts_card((x, y, zlo, zhi + 1));
}

proof fn lemma_plane_card(x: int, ylo: int, yhi: int, zlo: int, zhi: int)
    requires
        ylo <= yhi,
        zlo <= zhi,
    ensures
        box3(x, x, ylo, yhi, zlo, zhi).finite(),
        box3(x, x, ylo, yhi, zlo, zhi).len() <= (yhi - ylo + 1) * (zhi - zlo + 1),
    decreases yhi - ylo,
{
    if ylo == yhi {
        lemma_line_card(x, ylo, zlo, zhi);
        assert(box3(x, x, ylo, yhi, zlo, zhi) =~= box3(x, x, ylo, ylo, zlo, zhi));
    } else {
        lemma_plane_card(x, ylo, yhi - 1, zlo, zhi);
        lemma_line_card(x, yhi, zlo, zhi);
        let a = box3(x, x, ylo, yhi - 1, zlo, zhi);
        let b = box3(x, x, yhi, yhi, zlo, zhi);
        assert(box3(x, x, ylo, yhi, zlo, zhi) =~= a.union(b));
        vstd::set_lib::lemma_len_union(a, b);
        assert((yhi - 1 - ylo + 1) * (zhi - zlo + 1) + (zhi - zlo + 1) == (yhi - ylo + 1) * (zhi
            - zlo + 1)) by (nonlinear_arith);
    }
}

proof fn lemma_box_card(xlo: int, xhi: int, ylo: int, yhi: int, zlo: int, zhi: int)
    requires
        xlo <= xhi,
        ylo <= yhi,
        zlo <= zhi,
    ensures
        box3(xlo, xhi, ylo, yhi, zlo, zhi).finite(),
        box3(xlo, xhi, ylo, yhi, zlo, zhi).len() <= (xhi - xlo + 1) * (yhi - ylo + 1) * (zhi - zlo
            + 1),
    decreases xhi - xlo,
{
    if xlo == xhi {
        lemma_plane_card(xlo, ylo, yhi, zlo, zhi);
        assert(box3(xlo, xhi, ylo, yhi, zlo, zhi) =~= box3(xlo, xlo, ylo, yhi, zlo, zhi));
    } else {
        lemma_box_card(xlo, xhi - 1, ylo, yhi, zlo, zhi);
        lemma_plane_card(xhi, ylo, yhi, zlo, zhi);
        let a = box3(xlo, xhi - 1, ylo, yhi, zlo, zhi);
        let b = box3(xhi, xhi, ylo, yhi, zlo, zhi);
        assert(box3(xlo, xhi, ylo, yhi, zlo, zhi) =~= a.union(b));
        vstd::set_lib::lemma_len_union(a, b);
        assert((xhi - 1 - xlo + 1) * (yhi - ylo + 1) * (zhi - zlo + 1) + (yhi - ylo + 1) * (zhi
            - zlo + 1) == (xhi - xlo + 1) * (yhi - ylo + 1) * (zhi - zlo + 1))
            by (nonlinear_arith);
    }
}

/// The Manhattan distance between two coordinate triples.
pub open spec fn l1_dist(a: (int, int, int), b: (int, int, int)) -> int {
    vstd::math::abs(a.0 - b.0) + vstd::math::abs(a.1 - b.1) + vstd::math::abs(a.2 - b.2) as int
}

/// What every frontier entry satisfies while injecting around `pos0` with
/// initial depth `depth0` in the slab [zlow, zhigh]: the consumed depth pays
/// for every step away from the seed.
pub open spec fn item_ok(
    it: HeapItem,
    pos0: VoxelIdx,
    depth0: usize,
    zlow: i32,
    zhigh: i32,
) -> bool {
    &&& it.depth <= depth0
    &&& l1_dist(it.pos@, pos0@) <= depth0 - it.depth
    &&& (it.pos@ == pos0@ || zlow as int <= it.pos@.2 <= zhigh as int)
}

pub open spec fn frontier_ok(
    s: Seq<HeapItem>,
    pos0: VoxelIdx,
    depth0: usize,
    zlow: i32,
    zhigh: i32,
) -> bool {
    forall|i: int| 0 <= i < s.len() ==> item_ok(#[trigger] s[i], pos0, depth0, zlow, zhigh)
}

/// A coordinate an injection call may touch: the seed itself, or a slab
/// coordinate whose Manhattan distance from the seed is strictly below the
/// depth budget.
pub open spec fn inject_target(
    t: (int, int, int),
    pos0: VoxelIdx,
    depth0: usize,
    zlow: i32,
    zhigh: i32,
) -> bool {
    ||| t == pos0@
    ||| (zlow as int <= t.2 <= zhigh as int && l1_dist(t, pos0@) <= depth0 - 1)
}

/// Push the neighbour of `pos` in direction `(dx, dy, dz)` unless it leaves
/// the slab or was already visited.
#[verifier::rlimit(100)]
fn push_neighbor(
    fr: &mut Vec<HeapItem>,
    visited: &MonotonicVoxel,
    pos0: VoxelIdx,
    pos: VoxelIdx,
    dx: i32,
    dy: i32,
    dz: i32,
    zlow: i32,
    zhigh: i32,
    newdepth: usize,
    Ghost(depth0): Ghost<usize>,
)
    requires
        visited.inv(),
        sorted_desc(old(fr)@),
        frontier_ok(old(fr)@, pos0, depth0, zlow, zhigh),
        (dx == 1 && dy == 0 && dz == 0) || (dx == -1 && dy == 0 && dz == 0) || (dx == 0 && dy == 1
            && dz == 0) || (dx == 0 && dy == -1 && dz == 0) || (dx == 0 && dy == 0 && dz == 1) || (
        dx == 0 && dy == 0 && dz == -1),
        -SEED_LIMIT <= pos0@.0 <= SEED_LIMIT,
        -SEED_LIMIT <= pos0@.1 <= SEED_LIMIT,
        -SEED_LIMIT <= pos0@.2 <= SEED_LIMIT,
        depth0 <= DEPTH_LIMIT,
        newdepth + 1 <= depth0,
        l1_dist(pos@, pos0@) <= depth0 - newdepth - 1,
    ensures
        sorted_desc(final(fr)@),
        frontier_ok(final(fr)@, pos0, depth0, zlow, zhigh),
        frontier_measure(final(fr)@) <= frontier_measure(old(fr)@) + pow7(newdepth as nat),
{
    proof {
        assert(vstd::math::abs(pos@.0 - pos0@.0) <= depth0 - newdepth - 1);
        assert(vstd::math::abs(pos@.1 - pos0@.1) <= depth0 - newdepth - 1);
        assert(vstd::math::abs(pos@.2 - pos0@.2) <= depth0 - newdepth - 1);
    }
    let next = VoxelIdx::new([pos.idx[0] + dx, pos.idx[1] + dy, pos.idx[2] + dz]);
    if next.idx[2] < zlow || next.idx[2] > zhigh {
        return ;
    }
    if visited.occupied(next) {
        return ;
    }
    let delta = pos0.sub(next);
    let dist = delta.magnitude_squared();
    let it = HeapItem { dist, depth: newdepth, pos: next };
    let ghost fr0 = fr@;
    frontier_push(fr, it);
    proof {
        assert(item_ok(it, pos0, depth0, zlow, zhigh));
        assert forall|i: int| 0 <= i < fr@.len() implies item_ok(
            #[trigger] fr@[i],
            pos0,
            depth0,
            zlow,
            zhigh,
        ) by {
            if fr@[i] != it {
                let j = choose|j: int| 0 <= j < fr0.len() && fr@[i] == fr0[j];
                assert(item_ok(fr0[j], pos0, depth0, zlow, zhigh));
            }
        }
    }
}

/// Deposit up to `n` voxels into `v`, nearest to the seed `pos0` first,
/// constrained to heights in [zlow, zhigh]; `depth` bounds how far the
/// best-first frontier may wander from the seed. The seed itself is always
/// the first candidate; the call commits fewer than `n` voxels when the
/// bounded frontier is exhausted first, and that is not an error.
#[verifier::rlimit(100)]
pub fn inject_at<V: Voxel>(
    v: &mut V,
    zlow: i32,
    zhigh: i32,
    pos0: VoxelIdx,
    n: usize,
    depth: usize,
)
    requires
        old(v).inv(),
        -SEED_LIMIT <= pos0@.0 <= SEED_LIMIT,
        -SEED_LIMIT <= pos0@.1 <= SEED_LIMIT,
        -SEED_LIMIT <= pos0@.2 <= SEED_LIMIT,
        depth <= DEPTH_LIMIT,
        old(v).nblocks() + n <= usize::MAX,
    ensures
        final(v).inv(),
        final(v).nblocks() <= old(v).nblocks() + n,
        forall|t: (int, int, int)|
            old(v).occ().contains(t) ==> final(v).occ().contains(t),
        forall|t: (int, int, int)|
            final(v).occ().contains(t) && !old(v).occ().contains(t) ==> inject_target(
                t,
                pos0,
                depth,
                zlow,
                zhigh,
            ),
        final(v).nblocks() - old(v).nblocks() == final(v).occ().len() - old(v).occ().len(),
        n == 0 ==> *final(v) == *old(v),
        n >= 1 && depth >= 1 ==> final(v).occ().contains(pos0@),
        n >= 1 && depth >= 1 && !old(v).occ().contains(pos0@) ==> final(v).nblocks() >= old(
            v,
        ).nblocks() + 1,
{
    if n == 0 {
        return ;
    }
    if depth == 0 {
        // the seed entry would be popped with no depth left and discarded
        return ;
    }
    proof {
        v.lemma_inv();
    }
    let ghost occ_in = old(v).occ();
    let ghost blocks_in = old(v).nblocks();
    let ghost vbox = box3(
        pos0@.0 - DEPTH_LIMIT as int,
        pos0@.0 + DEPTH_LIMIT as int,
        pos0@.1 - DEPTH_LIMIT as int,
        pos0@.1 + DEPTH_LIMIT as int,
        pos0@.2 - DEPTH_LIMIT as int,
        pos0@.2 + DEPTH_LIMIT as int,
    );
    proof {
        lemma_box_card(
            pos0@.0 - DEPTH_LIMIT as int,
            pos0@.0 + DEPTH_LIMIT as int,
            pos0@.1 - DEPTH_LIMIT as int,
            pos0@.1 + DEPTH_LIMIT as int,
            pos0@.2 - DEPTH_LIMIT as int,
            pos0@.2 + DEPTH_LIMIT as int,
        );
        assert(vbox.len() <= 1001 * 1001 * 1001);
    }
    let mut visited = MonotonicVoxel::new();
    let mut remaining = n;

    // the seed is the nearest candidate there is: commit it first
    let ghost v0 = *v;
    if v.add(pos0) {
        remaining = remaining - 1;
        proof {
            v.lemma_inv();
            assert(v.occ() == v0.occ().insert(pos0@));
            assert(v.occ().len() == v0.occ().len() + 1);
            assert(inject_target(pos0@, pos0, depth, zlow, zhigh));
        }
    } else {
        proof {
            assert(v.occ() =~= v0.occ());
        }
    }
    let seed_seen = visited.add(pos0);
    proof {
        assert(seed_seen);
        assert(visited.occ() == Set::<(int, int, int)>::empty().insert(pos0@));
        assert(vbox.contains(pos0@));
        assert(visited.occ().subset_of(vbox));
        vstd::set_lib::lemma_len_subset(visited.occ(), vbox);
    }
    if remaining == 0 {
        return ;
    }

    let mut frontier: Vec<HeapItem> = Vec::new();
    proof {
        assert(frontier_measure(frontier@) == 0);
        assert(l1_dist(pos0@, pos0@) == 0);
    }
    push_neighbor(&mut frontier, &visited, pos0, pos0, 1, 0, 0, zlow, zhigh, depth - 1, Ghost(depth));
    push_neighbor(&mut frontier, &visited, pos0, pos0, -1, 0, 0, zlow, zhigh, depth - 1, Ghost(depth));
    push_neighbor(&mut frontier, &visited, pos0, pos0, 0, 1, 0, zlow, zhigh, depth - 1, Ghost(depth));
    push_neighbor(&mut frontier, &visited, pos0, pos0, 0, -1, 0, zlow, zhigh, depth - 1, Ghost(depth));
    push_neighbor(&mut frontier, &visited, pos0, pos0, 0, 0, 1, zlow, zhigh, depth - 1, Ghost(depth));
    push_neighbor(&mut frontier, &visited, pos0, pos0, 0, 0, -1, zlow, zhigh, depth - 1, Ghost(depth));
    while frontier.len() > 0
        invariant_except_break
            remaining >= 1,
        invariant
            v.inv(),
            visited.inv(),
            sorted_desc(frontier@),
            frontier_ok(frontier@, pos0, depth, zlow, zhigh),
            -SEED_LIMIT <= pos0@.0 <= SEED_LIMIT,
            -SEED_LIMIT <= pos0@.1 <= SEED_LIMIT,
            -SEED_LIMIT <= pos0@.2 <= SEED_LIMIT,
            1 <= depth <= DEPTH_LIMIT,
            1 <= n,
            remaining <= n,
            blocks_in + n <= usize::MAX,
            blocks_in == old(v).nblocks(),
            occ_in == old(v).occ(),
            occ_in.finite(),
            v.occ().finite(),
            v.nblocks() == blocks_in + (n - remaining),
            v.occ().len() == occ_in.len() + (n - remaining),
            v.occ().contains(pos0@),
            !occ_in.contains(pos0@) ==> remaining < n,
            forall|t: (int, int, int)| occ_in.contains(t) ==> v.occ().contains(t),
            forall|t: (int, int, int)|
                v.occ().contains(t) && !occ_in.contains(t) ==> inject_target(
                    t,
                    pos0,
                    depth,
                    zlow,
                    zhigh,
                ),
            visited.occ().subset_of(vbox),
            visited.nblocks() == visited.occ().len(),
            vbox == box3(
                pos0@.0 - DEPTH_LIMIT as int,
                pos0@.0 + DEPTH_LIMIT as int,
                pos0@.1 - DEPTH_LIMIT as int,
                pos0@.1 + DEPTH_LIMIT as int,
                pos0@.2 - DEPTH_LIMIT as int,
                pos0@.2 + DEPTH_LIMIT as int,
            ),
            vbox.len() <= 1001 * 1001 * 1001,
            vbox.finite(),
        ensures
            remaining == 0 || frontier@.len() == 0,
            v.inv(),
            v.nblocks() == blocks_in + (n - remaining),
            v.occ().len() == occ_in.len() + (n - remaining),
            remaining <= n,
            v.occ().contains(pos0@),
            !occ_in.contains(pos0@) ==> remaining < n,
            forall|t: (int, int, int)| occ_in.contains(t) ==> v.occ().contains(t),
            forall|t: (int, int, int)|
                v.occ().contains(t) && !occ_in.contains(t) ==> inject_target(
                    t,
                    pos0,
                    depth,
                    zlow,
                    zhigh,
                ),
        decreases frontier_measure(frontier@),
    {
        let it = frontier_pop(&mut frontier);
        proof {
            assert(item_ok(it, pos0, depth, zlow, zhigh));
            assert(pow7(it.depth as nat) >= 1) by {
                lemma_pow7_pos(it.depth as nat);
            }
        }
        if it.depth == 0 {
            continue ;
        }
        proof {
            visited.lemma_inv();
            vstd::set_lib::lemma_len_subset(visited.occ(), vbox);
            assert(visited.nblocks() < usize::MAX);
            assert(vstd::math::abs(it.pos@.0 - pos0@.0) <= depth - it.depth);
            assert(vstd::math::abs(it.pos@.1 - pos0@.1) <= depth - it.depth);
            assert(vstd::math::abs(it.pos@.2 - pos0@.2) <= depth - it.depth);
            assert(coord_ok(it.pos@));
        }
        let ghost vis0 = visited;
        let newly_seen = visited.add(it.pos);
        if !newly_seen {
            continue ;
        }
        proof {
            assert(vbox.contains(it.pos@));
            assert(visited.occ() == vis0.occ().insert(it.pos@));
            assert(visited.occ().subset_of(vbox));
        }
        let ghost v0 = *v;
        proof {
            v.lemma_inv();
            assert(coord_ok(it.pos@));
            assert(v.nblocks() < usize::MAX);
        }
        if v.add(it.pos) {
            remaining = remaining - 1;
            proof {
                assert(v.occ() == v0.occ().insert(it.pos@));
                assert(!v0.occ().contains(it.pos@));
                assert(v.occ().len() == v0.occ().len() + 1);
                assert(inject_target(it.pos@, pos0, depth, zlow, zhigh));
                assert forall|t: (int, int, int)|
                    v.occ().contains(t) && !occ_in.contains(t) implies inject_target(
                    t,
                    pos0,
                    depth,
                    zlow,
                    zhigh,
                ) by {
                    if t != it.pos@ {
                        assert(v0.occ().contains(t));
                    }
                }
            }
            if remaining == 0 {
                break ;
            }
        } else {
            proof {
                assert(v.occ() =~= v0.occ());
            }
        }
        let ghost m0 = frontier_measure(frontier@);
        push_neighbor(&mut frontier, &visited, pos0, it.pos, 1, 0, 0, zlow, zhigh, it.depth - 1, Ghost(depth));
        push_neighbor(&mut frontier, &visited, pos0, it.pos, -1, 0, 0, zlow, zhigh, it.depth - 1, Ghost(depth));
        push_neighbor(&mut frontier, &visited, pos0, it.pos, 0, 1, 0, zlow, zhigh, it.depth - 1, Ghost(depth));
        push_neighbor(&mut frontier, &visited, pos0, it.pos, 0, -1, 0, zlow, zhigh, it.depth - 1, Ghost(depth));
        push_neighbor(&mut frontier, &visited, pos0, it.pos, 0, 0, 1, zlow, zhigh, it.depth - 1, Ghost(depth));
        push_neighbor(&mut frontier, &visited, pos0, it.pos, 0, 0, -1, zlow, zhigh, it.depth - 1, Ghost(depth));
        proof {
            assert(frontier_measure(frontier@) <= m0 + 6 * pow7((it.depth - 1) as nat));
            assert(pow7(it.depth as nat) == 7 * pow7((it.depth - 1) as nat));
            lemma_pow7_pos((it.depth - 1) as nat);
        }
    }
}

proof fn lemma_pow7_pos(n: nat)
    ensures
        pow7(n) >= 1,
    decreases n,
{
    if n > 0 {
        lemma_pow7_pos((n - 1) as nat);
    }
}

} // verus!
