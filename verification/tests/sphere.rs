use voxelize::generate::{fill_sphere, generate_brute_force, generate_face_only, generate_shell};
use voxelize::monotonicvoxel::MonotonicVoxel;
use voxelize::rangesetvoxel::RangeSetVoxel;
use voxelize::voxel::{Occupancy, Voxel};
use voxelize::VoxelIdx;

fn lattice_count(radius: i32) -> usize {
    let mut count: usize = 0;
    for z in -radius..=radius {
        for y in -radius..=radius {
            for x in -radius..=radius {
                if voxelize::generate::test(x, y, z, radius) {
                    count += 1;
                }
            }
        }
    }
    count
}

#[test]
fn sphere_round_trip() {
    // brute-force cube scan of the radius-100 sphere through the store
    let radius = 100;
    let mut v = MonotonicVoxel::new();
    fill_sphere(&mut v, radius);
    assert_eq!(v.blocks(), lattice_count(radius));

    let m = v.to_model();
    assert!(m.face_count() > 0);
    let verts = m.vertex_list();
    assert_eq!(verts.len(), m.vertex_count());
    for c in &verts {
        for k in 0..3 {
            assert!(c.idx[k].abs() <= 101);
        }
    }
    for f in m.face_list() {
        for k in 0..4 {
            assert!(f[k] < verts.len());
        }
    }
}

#[test]
fn small_sphere_both_variants_agree() {
    let radius = 4;
    let mut a = MonotonicVoxel::new();
    let mut b = RangeSetVoxel::new();
    fill_sphere(&mut a, radius);
    fill_sphere(&mut b, radius);
    assert_eq!(a.blocks(), b.blocks());
    assert_eq!(a.blocks(), lattice_count(radius));
    for x in -5..=5 {
        for y in -5..=5 {
            for z in -5..=5 {
                let c = VoxelIdx::new([x, y, z]);
                assert_eq!(a.occupied(c), b.occupied(c));
            }
        }
    }
    let ma = a.to_model();
    let mb = b.to_model();
    assert_eq!(ma.face_count(), mb.face_count());
    assert_eq!(ma.vertex_count(), mb.vertex_count());
}

#[test]
fn face_only_radius_two() {
    let m = generate_face_only(2);
    // radius 2: lattice points with x^2+y^2+z^2 < 4
    let mut v = MonotonicVoxel::new();
    fill_sphere(&mut v, 2);
    assert_eq!(v.blocks(), lattice_count(2));
    let m2 = v.to_model();
    assert_eq!(m.face_count(), m2.face_count());
    assert_eq!(m.vertex_count(), m2.vertex_count());
}

#[test]
fn brute_force_counts_every_cube() {
    let radius = 3;
    let m = generate_brute_force(radius);
    assert_eq!(m.face_count(), 6 * lattice_count(radius));
}

#[test]
fn brute_force_radius_one() {
    // only the origin satisfies x^2+y^2+z^2 < 1
    let m = generate_brute_force(1);
    assert_eq!(m.face_count(), 6);
    assert_eq!(m.vertex_count(), 8);
}

#[test]
fn shell_counts_boundary_cubes() {
    let radius = 3;
    let mut expected: usize = 0;
    let neighbors = [
        [1, 0, 0],
        [-1, 0, 0],
        [0, 1, 0],
        [0, -1, 0],
        [0, 0, 1],
        [0, 0, -1],
    ];
    for z in -radius..=radius {
        for y in -radius..=radius {
            for x in -radius..=radius {
                let r0 = voxelize::generate::test(x, y, z, radius);
                let mut emit = false;
                for [dx, dy, dz] in neighbors {
                    if r0 != voxelize::generate::test(x + dx, y + dy, z + dz, radius) {
                        emit = true;
                    }
                }
                if emit {
                    expected += 1;
                }
            }
        }
    }
    let m = generate_shell(radius);
    assert_eq!(m.face_count(), 6 * expected);
}

#[test]
fn predicate_matches_formula() {
    assert!(voxelize::generate::test(0, 0, 0, 1));
    assert!(!voxelize::generate::test(1, 0, 0, 1));
    assert!(voxelize::generate::test(3, 4, 0, 6));
    assert!(!voxelize::generate::test(3, 4, 0, 5));
    assert!(voxelize::generate::test(-3, -4, 0, 6));
}
