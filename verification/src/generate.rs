use vstd::prelude::*;

use crate::inject::{inject_at, DEPTH_LIMIT};
use crate::model::{build_faces, build_verts, cube_fds, lemma_build_concat, FaceDesc, Model};
use crate::monotonicvoxel::MonotonicVoxel;
use crate::voxel::{mesh_faces, Occupancy, Voxel};
use crate::voxelidx::VoxelIdx;

verus! {

/// Largest sphere radius the generators accept.
pub const RADIUS_LIMIT: i32 = 1000;

/// The procedural solid: strictly inside the origin-centred sphere.
pub open spec fn in_sphere(x: int, y: int, z: int, radius: int) -> bool {
    x * x + y * y + z * z < radius * radius
}

/// Every lattice point of the solid.
pub open spec fn sphere_set(radius: int) -> Set<(int, int, int)> {
    Set::new(|t: (int, int, int)| in_sphere(t.0, t.1, t.2, radius))
}

/// One horizontal layer of the solid.
pub open spec fn sphere_layer(radius: int, z: int) -> Set<(int, int, int)> {
    Set::new(|t: (int, int, int)| in_sphere(t.0, t.1, t.2, radius) && t.2 == z)
}

/// One row of one layer of the solid.
pub open spec fn sphere_row(radius: int, y: int, z: int) -> Set<(int, int, int)> {
    Set::new(|t: (int, int, int)| in_sphere(t.0, t.1, t.2, radius) && t.1 == y && t.2 == z)
}

/// A point of the solid has every component strictly below the radius.
proof fn lemma_sq_bound(a: int, r: int)
    requires
        a * a < r * r,
        r >= 0,
    ensures
        -r < a < r,
{
    assert(-r < a < r) by (nonlinear_arith)
        requires
            a * a < r * r,
            r >= 0,
    ;
}

/// Every point of the solid lies strictly inside the cube of the radius.
proof fn lemma_sphere_bounds(x: int, y: int, z: int, r: int)
    requires
        in_sphere(x, y, z, r),
        r >= 0,
    ensures
        -r < x < r,
        -r < y < r,
        -r < z < r,
{
    assert(x * x >= 0 && y * y >= 0 && z * z >= 0) by (nonlinear_arith);
    lemma_sq_bound(x, r);
    lemma_sq_bound(y, r);
    lemma_sq_bound(z, r);
}

/// The sphere predicate.
pub fn test(x: i32, y: i32, z: i32, radius: i32) -> (r: bool)
    requires
        -RADIUS_LIMIT - 1 <= x <= RADIUS_LIMIT + 1,
        -RADIUS_LIMIT - 1 <= y <= RADIUS_LIMIT + 1,
        -RADIUS_LIMIT - 1 <= z <= RADIUS_LIMIT + 1,
        0 <= radius <= RADIUS_LIMIT,
    ensures
        r == in_sphere(x as int, y as int, z as int, radius as int),
{
    let xl = x as i64;
    let yl = y as i64;
    let zl = z as i64;
    let rl = radius as i64;
    proof {
        assert(0 <= xl * xl <= 1002001 && 0 <= yl * yl <= 1002001 && 0 <= zl * zl <= 1002001 && 0
            <= rl * rl <= 1000000) by (nonlinear_arith)
            requires
                -1001 <= xl <= 1001,
                -1001 <= yl <= 1001,
                -1001 <= zl <= 1001,
                0 <= rl <= 1000,
        ;
    }
    xl * xl + yl * yl + zl * zl < rl * rl
}

/// Insert one row of the solid sphere into the store.
#[verifier::rlimit(100)]
pub fn fill_sphere_row<V: Voxel>(v: &mut V, radius: i32, y: i32, z: i32)
    requires
        old(v).inv(),
        0 <= radius <= RADIUS_LIMIT,
        -RADIUS_LIMIT <= y <= RADIUS_LIMIT,
        -RADIUS_LIMIT <= z <= RADIUS_LIMIT,
        old(v).nblocks() + 2 * radius + 2 <= usize::MAX,
    ensures
        final(v).inv(),
        final(v).occ() == old(v).occ().union(sphere_row(radius as int, y as int, z as int)),
        final(v).nblocks() - old(v).nblocks() == final(v).occ().len() - old(v).occ().len(),
        0 <= final(v).nblocks() - old(v).nblocks() <= 2 * radius + 1,
{
    proof {
        v.lemma_inv();
    }
    let ghost occ0 = old(v).occ();
    let ghost blocks0 = old(v).nblocks();
    let mut x = -radius;
    proof {
        assert forall|t: (int, int, int)|
            sphere_row(radius as int, y as int, z as int).contains(t) implies t.0
            >= -radius by {
            lemma_sphere_bounds(t.0, t.1, t.2, radius as int);
        }
        assert(occ0.union(
            Set::new(
                |t: (int, int, int)| sphere_row(radius as int, y as int, z as int).contains(t)
                    && t.0 < -radius,
            ),
        ) =~= occ0);
    }
    while x <= radius
        invariant
            v.inv(),
            0 <= radius <= RADIUS_LIMIT,
            -RADIUS_LIMIT <= y <= RADIUS_LIMIT,
            -RADIUS_LIMIT <= z <= RADIUS_LIMIT,
            -radius <= x <= radius + 1,
            blocks0 + 2 * radius + 2 <= usize::MAX,
            blocks0 == old(v).nblocks(),
            occ0 == old(v).occ(),
            occ0.finite(),
            v.occ().finite(),
            v.occ() == occ0.union(
                Set::new(
                    |t: (int, int, int)| sphere_row(radius as int, y as int, z as int).contains(t)
                        && t.0 < x as int,
                ),
            ),
            v.nblocks() - blocks0 == v.occ().len() - occ0.len(),
            0 <= v.nblocks() - blocks0 <= x + radius,
        decreases radius + 1 - x,
    {
        let ghost vpre = *v;
        if test(x, y, z, radius) {
            proof {
                lemma_sphere_bounds(x as int, y as int, z as int, radius as int);
                v.lemma_inv();
            }
            let newly = v.add(VoxelIdx::new([x, y, z]));
            proof {
                if newly {
                    assert(v.occ().len() == vpre.occ().len() + 1);
                } else {
                    assert(v.occ() =~= vpre.occ());
                }
            }
        }
        proof {
            assert(v.occ() =~= occ0.union(
                Set::new(
                    |t: (int, int, int)| sphere_row(radius as int, y as int, z as int).contains(t)
                        && t.0 < x as int + 1,
                ),
            ));
        }
        x = x + 1;
    }
    proof {
        assert forall|t: (int, int, int)|
            sphere_row(radius as int, y as int, z as int).contains(t) implies t.0 < x as int by {
            lemma_sphere_bounds(t.0, t.1, t.2, radius as int);
        }
        assert(v.occ() =~= occ0.union(sphere_row(radius as int, y as int, z as int)));
    }
}

/// Insert one horizontal layer of the solid sphere into the store.
#[verifier::rlimit(100)]
pub fn fill_sphere_slab<V: Voxel>(v: &mut V, radius: i32, z: i32)
    requires
        old(v).inv(),
        0 <= radius <= RADIUS_LIMIT,
        -RADIUS_LIMIT <= z <= RADIUS_LIMIT,
        old(v).nblocks() + (2 * radius + 1) * (2 * radius + 1) + 1 <= usize::MAX,
    ensures
        final(v).inv(),
        final(v).occ() == old(v).occ().union(sphere_layer(radius as int, z as int)),
        final(v).nblocks() - old(v).nblocks() == final(v).occ().len() - old(v).occ().len(),
        0 <= final(v).nblocks() - old(v).nblocks() <= (2 * radius + 1) * (2 * radius + 1),
{
    proof {
        v.lemma_inv();
    }
    let ghost occ0 = old(v).occ();
    let ghost blocks0 = old(v).nblocks();
    let mut y = -radius;
    proof {
        assert forall|t: (int, int, int)|
            sphere_layer(radius as int, z as int).contains(t) implies t.1 >= -radius by {
            lemma_sphere_bounds(t.0, t.1, t.2, radius as int);
        }
        assert(occ0.union(
            Set::new(
                |t: (int, int, int)| sphere_layer(radius as int, z as int).contains(t) && t.1
                    < -radius,
            ),
        ) =~= occ0);
    }
    while y <= radius
        invariant
            v.inv(),
            0 <= radius <= RADIUS_LIMIT,
            -RADIUS_LIMIT <= z <= RADIUS_LIMIT,
            -radius <= y <= radius + 1,
            blocks0 + (2 * radius + 1) * (2 * radius + 1) + 1 <= usize::MAX,
            blocks0 == old(v).nblocks(),
            occ0 == old(v).occ(),
            occ0.finite(),
            v.occ().finite(),
            v.occ() == occ0.union(
                Set::new(
                    |t: (int, int, int)| sphere_layer(radius as int, z as int).contains(t) && t.1
                        < y as int,
                ),
            ),
            v.nblocks() - blocks0 == v.occ().len() - occ0.len(),
            0 <= v.nblocks() - blocks0 <= (y + radius) * (2 * radius + 1),
        decreases radius + 1 - y,
    {
        let ghost vpre = *v;
        proof {
            assert((y + radius) * (2 * radius + 1) + (2 * radius + 1) == (y + radius + 1) * (2
                * radius + 1)) by (nonlinear_arith);
            assert((y + radius + 1) * (2 * radius + 1) <= (2 * radius + 1) * (2 * radius + 1))
                by (nonlinear_arith)
                requires
                    -radius <= y <= radius,
                    radius >= 0,
            ;
            assert(v.nblocks() + 2 * radius + 2 <= usize::MAX);
        }
        fill_sphere_row(v, radius, y, z);
        proof {
            v.lemma_inv();
            assert(v.occ() =~= occ0.union(
                Set::new(
                    |t: (int, int, int)| sphere_layer(radius as int, z as int).contains(t) && t.1
                        < y as int + 1,
                ),
            ));
        }
        y = y + 1;
    }
    proof {
        assert forall|t: (int, int, int)| sphere_layer(radius as int, z as int).contains(
            t,
        ) implies t.1 < y as int by {
            lemma_sphere_bounds(t.0, t.1, t.2, radius as int);
        }
        assert(v.occ() =~= occ0.union(sphere_layer(radius as int, z as int)));
    }
}

/// Insert every lattice point of the solid sphere into the store.
#[verifier::rlimit(100)]
pub fn fill_sphere<V: Voxel>(v: &mut V, radius: i32)
    requires
        old(v).inv(),
        0 <= radius <= RADIUS_LIMIT,
        old(v).nblocks() + (2 * radius + 1) * (2 * radius + 1) * (2 * radius + 1) + 2
            <= usize::MAX,
    ensures
        final(v).inv(),
        final(v).occ() == old(v).occ().union(sphere_set(radius as int)),
        final(v).nblocks() - old(v).nblocks() == final(v).occ().len() - old(v).occ().len(),
        0 <= final(v).nblocks() - old(v).nblocks() <= (2 * radius + 1) * (2 * radius + 1) * (2
            * radius + 1),
{
    proof {
        v.lemma_inv();
    }
    let ghost occ0 = old(v).occ();
    let ghost blocks0 = old(v).nblocks();
    let mut z = -radius;
    proof {
        assert forall|t: (int, int, int)| sphere_set(radius as int).contains(t) implies t.2
            >= -radius by {
            lemma_sphere_bounds(t.0, t.1, t.2, radius as int);
        }
        assert(occ0.union(
            Set::new(
                |t: (int, int, int)| sphere_set(radius as int).contains(t) && t.2 < -radius,
            ),
        ) =~= occ0);
    }
    while z <= radius
        invariant
            v.inv(),
            0 <= radius <= RADIUS_LIMIT,
            -radius <= z <= radius + 1,
            blocks0 + (2 * radius + 1) * (2 * radius + 1) * (2 * radius + 1) + 2 <= usize::MAX,
            blocks0 == old(v).nblocks(),
            occ0 == old(v).occ(),
            occ0.finite(),
            v.occ().finite(),
            v.occ() == occ0.union(
                Set::new(
                    |t: (int, int, int)| sphere_set(radius as int).contains(t) && t.2 < z as int,
                ),
            ),
            v.nblocks() - blocks0 == v.occ().len() - occ0.len(),
            0 <= v.nblocks() - blocks0 <= (z + radius) * ((2 * radius + 1) * (2 * radius + 1)),
        decreases radius + 1 - z,
    {
        let ghost vpre = *v;
        proof {
            assert((z + radius) * ((2 * radius + 1) * (2 * radius + 1)) + (2 * radius + 1) * (2
                * radius + 1) == (z + radius + 1) * ((2 * radius + 1) * (2 * radius + 1)))
                by (nonlinear_arith);
            assert((z + radius + 1) * ((2 * radius + 1) * (2 * radius + 1)) <= (2 * radius + 1) * (
            2 * radius + 1) * (2 * radius + 1)) by (nonlinear_arith)
                requires
                    -radius <= z <= radius,
                    radius >= 0,
            ;
            assert(v.nblocks() + (2 * radius + 1) * (2 * radius + 1) + 1 <= usize::MAX);
        }
        fill_sphere_slab(v, radius, z);
        proof {
            v.lemma_inv();
            assert(v.occ() =~= occ0.union(
                Set::new(
                    |t: (int, int, int)| sphere_set(radius as int).contains(t) && t.2 < z as int
                        + 1,
                ),
            ));
        }
        z = z + 1;
    }
    proof {
        assert forall|t: (int, int, int)| sphere_set(radius as int).contains(t) implies t.2
            < z as int by {
            lemma_sphere_bounds(t.0, t.1, t.2, radius as int);
        }
        assert(v.occ() =~= occ0.union(sphere_set(radius as int)));
        assert((z + radius) as int * ((2 * radius + 1) as int * (2 * radius + 1) as int) == (2
            * radius + 1) as int * (2 * radius + 1) as int * (2 * radius + 1) as int)
            by (nonlinear_arith)
            requires
                z == radius + 1,
        ;
    }
}

/// Build the sphere in a run-length store and extract its boundary mesh.
pub fn generate_face_only(radius: i32) -> (m: Model)
    requires
        0 <= radius <= 600,
    ensures
        m.wf(),
        forall|i: int|
            0 <= i < m.verts_view().len() ==> {
                let c = #[trigger] m.verts_view()[i];
                -(radius as int) <= c.0 <= radius as int + 1 && -(radius as int) <= c.1
                    <= radius as int + 1 && -(radius as int) <= c.2 <= radius as int + 1
            },
        exists|s: MonotonicVoxel|
            (#[trigger] s.inv()) && s.occ() == sphere_set(radius as int) && m.verts_view()
                == build_verts(Seq::empty(), mesh_faces(s.occ(), s.runs_view()))
                && m.faces_view() == build_faces(
                Seq::empty(),
                Seq::empty(),
                mesh_faces(s.occ(), s.runs_view()),
            ),
{
    let mut mv = MonotonicVoxel::new();
    proof {
        assert((2 * radius + 1) as int * (2 * radius + 1) as int * (2 * radius + 1) as int <= 1201
            * 1201 * 1201) by (nonlinear_arith)
            requires
                0 <= radius <= 600,
        ;
    }
    fill_sphere(&mut mv, radius);
    proof {
        assert(mv.occ() =~= sphere_set(radius as int));
    }
    let m = mv.to_model();
    proof {
        assert(mv.inv() && mv.occ() == sphere_set(radius as int));
        assert forall|t: (int, int, int)| mv.occ().contains(t) implies (-(radius as int) <= t.0
            <= radius as int && -(radius as int) <= t.1 <= radius as int && -(radius as int)
            <= t.2 <= radius as int) by {
            lemma_sphere_bounds(t.0, t.1, t.2, radius as int);
        }
        crate::laws::lemma_mesh_vertices_bounded(
            &mv,
            m,
            -(radius as int),
            radius as int,
            -(radius as int),
            radius as int,
            -(radius as int),
            radius as int,
        );
    }
    m
}

/// Deposit material along a straight line of seed points, a fixed budget per
/// step, into a fresh run-length store.
pub fn generate_inject(
    inject_per_dist: usize,
    dist_per_step: i32,
    dist: i32,
    zlow: i32,
    zhigh: i32,
    depth: usize,
) -> (mv: MonotonicVoxel)
    requires
        1 <= dist_per_step <= 1000,
        0 <= dist <= 1000,
        inject_per_dist <= 1000,
        depth <= DEPTH_LIMIT,
    ensures
        mv.inv(),
        mv.nblocks() <= dist as int * 1_000_000,
        forall|t: (int, int, int)|
            mv.occ().contains(t) ==> ((zlow as int <= t.2 <= zhigh as int) || (t.1 == 0 && t.2
                == 0)),
        inject_per_dist >= 1 && depth >= 1 ==> forall|k: int|
            0 <= k < dist as int / dist_per_step as int ==> #[trigger] mv.occ().contains(
                (k * dist_per_step as int, 0, 0),
            ),
        inject_per_dist >= 1 && depth >= 1 && dist >= dist_per_step ==> mv.nblocks() >= 1,
{
    let mut mv = MonotonicVoxel::new();
    let steps = dist / dist_per_step;
    proof {
        assert(0 <= dist as int / dist_per_step as int <= dist as int) by (nonlinear_arith)
            requires
                0 <= dist as int <= 1000,
                1 <= dist_per_step as int,
        ;
    }
    proof {
        assert(0 <= inject_per_dist as int * dist_per_step as int <= 1_000_000)
            by (nonlinear_arith)
            requires
                0 <= inject_per_dist as int <= 1000,
                0 <= dist_per_step as int <= 1000,
        ;
    }
    let budget = inject_per_dist * (dist_per_step as usize);
    let mut step: i32 = 0;
    while step < steps
        invariant
            mv.inv(),
            0 <= step <= steps,
            0 <= steps <= dist,
            0 <= dist <= 1000,
            1 <= dist_per_step <= 1000,
            budget <= 1_000_000,
            budget as int == inject_per_dist as int * dist_per_step as int,
            inject_per_dist <= 1000,
            steps as int == dist as int / dist_per_step as int,
            depth <= DEPTH_LIMIT,
            mv.nblocks() <= step as int * budget as int,
            forall|t: (int, int, int)|
                mv.occ().contains(t) ==> ((zlow as int <= t.2 <= zhigh as int) || (t.1 == 0 && t.2
                    == 0)),
            inject_per_dist >= 1 && depth >= 1 ==> forall|k: int|
                0 <= k < step as int ==> #[trigger] mv.occ().contains(
                    (k * dist_per_step as int, 0, 0),
                ),
        decreases steps - step,
    {
        proof {
            assert(step as int * budget as int + budget as int == (step + 1) as int
                * budget as int) by (nonlinear_arith);
            assert((step + 1) as int * budget as int <= 1000 * 1_000_000) by (nonlinear_arith)
                requires
                    0 <= step as int + 1 <= 1000,
                    0 <= budget as int <= 1_000_000,
            ;
            assert(step as int * budget as int >= 0) by (nonlinear_arith)
                requires
                    step as int >= 0,
                    budget as int >= 0,
            ;
        }
        proof {
            assert(0 <= step as int * dist_per_step as int <= 1_000_000) by (nonlinear_arith)
                requires
                    0 <= step as int <= 1000,
                    0 <= dist_per_step as int <= 1000,
            ;
        }
        let seed = VoxelIdx::new([step * dist_per_step, 0, 0]);
        let ghost pre = mv;
        proof {
            if inject_per_dist >= 1 {
                assert(inject_per_dist as int * dist_per_step as int >= 1) by (nonlinear_arith)
                    requires
                        inject_per_dist as int >= 1,
                        dist_per_step as int >= 1,
                ;
            }
        }
        inject_at(&mut mv, zlow, zhigh, seed, budget, depth);
        proof {
            assert forall|t: (int, int, int)| mv.occ().contains(t) implies ((zlow as int <= t.2
                <= zhigh as int) || (t.1 == 0 && t.2 == 0)) by {
                if !pre.occ().contains(t) {
                    assert(crate::inject::inject_target(t, seed, depth, zlow, zhigh));
                    if !(zlow as int <= t.2 <= zhigh as int) {
                        assert(t == seed@);
                    }
                }
            }
            if inject_per_dist >= 1 && depth >= 1 {
                assert(mv.occ().contains(seed@));
                assert(seed@ == (step as int * dist_per_step as int, 0int, 0int));
                assert forall|k: int| 0 <= k < step as int + 1 implies #[trigger] mv.occ().contains(
                    (k * dist_per_step as int, 0, 0),
                ) by {
                    if k < step as int {
                        assert(pre.occ().contains((k * dist_per_step as int, 0, 0)));
                    }
                }
            }
        }
        step = step + 1;
    }
    proof {
        assert(steps as int * budget as int <= dist as int * 1_000_000) by (nonlinear_arith)
            requires
                0 <= steps as int <= dist as int,
                0 <= budget as int <= 1_000_000,
        ;
        if inject_per_dist >= 1 && depth >= 1 && dist >= dist_per_step {
            assert(dist as int / dist_per_step as int >= 1) by (nonlinear_arith)
                requires
                    dist as int >= dist_per_step as int,
                    dist_per_step as int >= 1,
            ;
            assert(mv.occ().contains((0int * dist_per_step as int, 0int, 0int)));
            assert(mv.occ().contains((0int, 0int, 0int)));
            mv.lemma_inv();
            if mv.occ().len() == 0 {
                mv.occ().lemma_len0_is_empty();
            }
        }
    }
    mv
}

/// The sphere predicate as a value, for the scan specifications.
pub open spec fn sphere_pred(radius: int) -> spec_fn(int, int, int) -> bool {
    |x: int, y: int, z: int| in_sphere(x, y, z, radius)
}

/// A point on the shell: the predicate differs from one of its 6 neighbours.
pub open spec fn shell_at(x: int, y: int, z: int, radius: int) -> bool {
    ||| in_sphere(x, y, z, radius) != in_sphere(x + 1, y, z, radius)
    ||| in_sphere(x, y, z, radius) != in_sphere(x - 1, y, z, radius)
    ||| in_sphere(x, y, z, radius) != in_sphere(x, y + 1, z, radius)
    ||| in_sphere(x, y, z, radius) != in_sphere(x, y - 1, z, radius)
    ||| in_sphere(x, y, z, radius) != in_sphere(x, y, z + 1, radius)
    ||| in_sphere(x, y, z, radius) != in_sphere(x, y, z - 1, radius)
}

pub open spec fn shell_pred(radius: int) -> spec_fn(int, int, int) -> bool {
    |x: int, y: int, z: int| shell_at(x, y, z, radius)
}

/// The quads one x row of the scan emits: a cube for every point where the
/// predicate holds.
pub open spec fn scan_row(
    p: spec_fn(int, int, int) -> bool,
    xlo: int,
    xhi: int,
    y: int,
    z: int,
) -> Seq<FaceDesc>
    decreases xhi - xlo,
{
    if xhi <= xlo {
        Seq::empty()
    } else {
        scan_row(p, xlo, xhi - 1, y, z) + (if p(xhi - 1, y, z) {
            cube_fds((xhi - 1, y, z))
        } else {
            Seq::empty()
        })
    }
}

/// The quads one z layer of the scan emits, row by row.
pub open spec fn scan_layer(
    p: spec_fn(int, int, int) -> bool,
    xlo: int,
    xhi: int,
    ylo: int,
    yhi: int,
    z: int,
) -> Seq<FaceDesc>
    decreases yhi - ylo,
{
    if yhi <= ylo {
        Seq::empty()
    } else {
        scan_layer(p, xlo, xhi, ylo, yhi - 1, z) + scan_row(p, xlo, xhi, yhi - 1, z)
    }
}

/// The quads the whole cubic scan emits, layer by layer.
pub open spec fn scan_cube(
    p: spec_fn(int, int, int) -> bool,
    xlo: int,
    xhi: int,
    ylo: int,
    yhi: int,
    zlo: int,
    zhi: int,
) -> Seq<FaceDesc>
    decreases zhi - zlo,
{
    if zhi <= zlo {
        Seq::empty()
    } else {
        scan_cube(p, xlo, xhi, ylo, yhi, zlo, zhi - 1) + scan_layer(p, xlo, xhi, ylo, yhi, zhi - 1)
    }
}

/// Scan the cubic domain and emit one cube per point where `p` holds.
#[verifier::rlimit(100)]
fn scan_cubes(m: &mut Model, radius: i32, shell: bool)
    requires
        old(m).wf(),
        old(m).verts_view() == Seq::<(int, int, int)>::empty(),
        old(m).faces_view() == Seq::<(int, int, int, int)>::empty(),
        0 <= radius <= RADIUS_LIMIT,
    ensures
        final(m).wf(),
        final(m).verts_view() == build_verts(
            Seq::empty(),
            scan_cube(
                if shell {
                    shell_pred(radius as int)
                } else {
                    sphere_pred(radius as int)
                },
                -radius as int,
                radius as int + 1,
                -radius as int,
                radius as int + 1,
                -radius as int,
                radius as int + 1,
            ),
        ),
        final(m).faces_view() == build_faces(
            Seq::empty(),
            Seq::empty(),
            scan_cube(
                if shell {
                    shell_pred(radius as int)
                } else {
                    sphere_pred(radius as int)
                },
                -radius as int,
                radius as int + 1,
                -radius as int,
                radius as int + 1,
                -radius as int,
                radius as int + 1,
            ),
        ),
{
    let ghost p = if shell {
        shell_pred(radius as int)
    } else {
        sphere_pred(radius as int)
    };
    let ghost lo = -radius as int;
    let ghost hi = radius as int + 1;
    let mut z = -radius;
    proof {
        assert(scan_cube(p, lo, hi, lo, hi, lo, lo) =~= Seq::<FaceDesc>::empty());
    }
    while z <= radius
        invariant
            m.wf(),
            0 <= radius <= RADIUS_LIMIT,
            -radius <= z <= radius + 1,
            p == (if shell {
                shell_pred(radius as int)
            } else {
                sphere_pred(radius as int)
            }),
            lo == -radius as int,
            hi == radius as int + 1,
            m.verts_view() == build_verts(Seq::empty(), scan_cube(p, lo, hi, lo, hi, lo, z as int)),
            m.faces_view() == build_faces(
                Seq::empty(),
                Seq::empty(),
                scan_cube(p, lo, hi, lo, hi, lo, z as int),
            ),
        decreases radius + 1 - z,
    {
        let ghost f_z = scan_cube(p, lo, hi, lo, hi, lo, z as int);
        let mut y = -radius;
        proof {
            assert(f_z + scan_layer(p, lo, hi, lo, lo, z as int) =~= f_z);
        }
        while y <= radius
            invariant
                m.wf(),
                0 <= radius <= RADIUS_LIMIT,
                -radius <= z <= radius,
                -radius <= y <= radius + 1,
                p == (if shell {
                    shell_pred(radius as int)
                } else {
                    sphere_pred(radius as int)
                }),
                lo == -radius as int,
                hi == radius as int + 1,
                f_z == scan_cube(p, lo, hi, lo, hi, lo, z as int),
                m.verts_view() == build_verts(
                    Seq::empty(),
                    f_z + scan_layer(p, lo, hi, lo, y as int, z as int),
                ),
                m.faces_view() == build_faces(
                    Seq::empty(),
                    Seq::empty(),
                    f_z + scan_layer(p, lo, hi, lo, y as int, z as int),
                ),
            decreases radius + 1 - y,
        {
            let ghost f_y = f_z + scan_layer(p, lo, hi, lo, y as int, z as int);
            let mut x = -radius;
            proof {
                assert(f_y + scan_row(p, lo, lo, y as int, z as int) =~= f_y);
            }
            while x <= radius
                invariant
                    m.wf(),
                    0 <= radius <= RADIUS_LIMIT,
                    -radius <= z <= radius,
                    -radius <= y <= radius,
                    -radius <= x <= radius + 1,
                    p == (if shell {
                        shell_pred(radius as int)
                    } else {
                        sphere_pred(radius as int)
                    }),
                    lo == -radius as int,
                    hi == radius as int + 1,
                    f_y == scan_cube(p, lo, hi, lo, hi, lo, z as int) + scan_layer(
                        p,
                        lo,
                        hi,
                        lo,
                        y as int,
                        z as int,
                    ),
                    m.verts_view() == build_verts(
                        Seq::empty(),
                        f_y + scan_row(p, lo, x as int, y as int, z as int),
                    ),
                    m.faces_view() == build_faces(
                        Seq::empty(),
                        Seq::empty(),
                        f_y + scan_row(p, lo, x as int, y as int, z as int),
                    ),
                decreases radius + 1 - x,
            {
                let ghost f_x = f_y + scan_row(p, lo, x as int, y as int, z as int);
                let emit = if shell {
                    let r0 = test(x, y, z, radius);
                    let mut d = r0 != test(x + 1, y, z, radius);
                    d = d || r0 != test(x - 1, y, z, radius);
                    d = d || r0 != test(x, y + 1, z, radius);
                    d = d || r0 != test(x, y - 1, z, radius);
                    d = d || r0 != test(x, y, z + 1, radius);
                    d = d || r0 != test(x, y, z - 1, radius);
                    d
                } else {
                    test(x, y, z, radius)
                };
                proof {
                    assert(emit == p(x as int, y as int, z as int));
                }
                if emit {
                    proof {
                        lemma_build_concat(
                            Seq::empty(),
                            Seq::empty(),
                            f_x,
                            cube_fds((x as int, y as int, z as int)),
                        );
                    }
                    m.add_cube(VoxelIdx::new([x, y, z]));
                    proof {
                        assert(f_x + cube_fds((x as int, y as int, z as int)) =~= f_y + scan_row(
                            p,
                            lo,
                            x as int + 1,
                            y as int,
                            z as int,
                        ));
                    }
                } else {
                    proof {
                        assert(f_x =~= f_y + scan_row(p, lo, x as int + 1, y as int, z as int));
                    }
                }
                x = x + 1;
            }
            proof {
                assert(f_y + scan_row(p, lo, hi, y as int, z as int) =~= f_z + scan_layer(
                    p,
                    lo,
                    hi,
                    lo,
                    y as int + 1,
                    z as int,
                ));
            }
            y = y + 1;
        }
        proof {
            assert(f_z + scan_layer(p, lo, hi, lo, hi, z as int) =~= scan_cube(
                p,
                lo,
                hi,
                lo,
                hi,
                lo,
                z as int + 1,
            ));
        }
        z = z + 1;
    }
}

/// Emit a cube for every lattice point of the solid sphere, with no
/// occupancy store and no face culling.
pub fn generate_brute_force(radius: i32) -> (m: Model)
    requires
        0 <= radius <= RADIUS_LIMIT,
    ensures
        m.wf(),
        m.verts_view() == build_verts(
            Seq::empty(),
            scan_cube(
                sphere_pred(radius as int),
                -radius as int,
                radius as int + 1,
                -radius as int,
                radius as int + 1,
                -radius as int,
                radius as int + 1,
            ),
        ),
        m.faces_view() == build_faces(
            Seq::empty(),
            Seq::empty(),
            scan_cube(
                sphere_pred(radius as int),
                -radius as int,
                radius as int + 1,
                -radius as int,
                radius as int + 1,
                -radius as int,
                radius as int + 1,
            ),
        ),
{
    let mut m = Model::new();
    scan_cubes(&mut m, radius, false);
    m
}

/// Emit a cube only where the sphere predicate differs from one of the six
/// neighbours: the shell of the solid.
pub fn generate_shell(radius: i32) -> (m: Model)
    requires
        0 <= radius <= RADIUS_LIMIT,
    ensures
        m.wf(),
        m.verts_view() == build_verts(
            Seq::empty(),
            scan_cube(
                shell_pred(radius as int),
                -radius as int,
                radius as int + 1,
                -radius as int,
                radius as int + 1,
                -radius as int,
                radius as int + 1,
            ),
        ),
        m.faces_view() == build_faces(
            Seq::empty(),
            Seq::empty(),
            scan_cube(
                shell_pred(radius as int),
                -radius as int,
                radius as int + 1,
                -radius as int,
                radius as int + 1,
                -radius as int,
                radius as int + 1,
            ),
        ),
{
    let mut m = Model::new();
    scan_cubes(&mut m, radius, true);
    m
}

} // verus!
