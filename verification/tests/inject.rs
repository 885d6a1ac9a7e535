use voxelize::generate::generate_inject;
use voxelize::inject::inject_at;
use voxelize::monotonicvoxel::MonotonicVoxel;
use voxelize::voxel::{Occupancy, Voxel};
use voxelize::VoxelIdx;

#[test]
fn conservation_under_injection() {
    // a budget of n into an empty store with a wide slab and ample depth
    // deposits exactly n voxels
    let mut v = MonotonicVoxel::new();
    inject_at(&mut v, -1000, 1000, VoxelIdx::new([0, 0, 0]), 100, 100);
    assert_eq!(v.blocks(), 100);
}

#[test]
fn zero_budget_is_a_noop() {
    let mut v = MonotonicVoxel::new();
    v.add(VoxelIdx::new([7, 7, 7]));
    inject_at(&mut v, -1000, 1000, VoxelIdx::new([0, 0, 0]), 0, 100);
    assert_eq!(v.blocks(), 1);
    assert!(!v.occupied(VoxelIdx::new([0, 0, 0])));
}

#[test]
fn zero_depth_exhausts_immediately() {
    let mut v = MonotonicVoxel::new();
    inject_at(&mut v, -1000, 1000, VoxelIdx::new([0, 0, 0]), 5, 0);
    assert_eq!(v.blocks(), 0);
}

#[test]
fn slab_constrains_deposits() {
    let mut v = MonotonicVoxel::new();
    inject_at(&mut v, 0, 0, VoxelIdx::new([0, 0, 0]), 30, 100);
    assert_eq!(v.blocks(), 30);
    for x in -20..=20 {
        for y in -20..=20 {
            for z in -20..=20i32 {
                if v.occupied(VoxelIdx::new([x, y, z])) {
                    assert_eq!(z, 0);
                }
            }
        }
    }
}

#[test]
fn seed_outside_slab_is_still_deposited() {
    // the seed itself is inserted before the slab filter applies to its
    // neighbours
    let mut v = MonotonicVoxel::new();
    inject_at(&mut v, 10, 12, VoxelIdx::new([0, 0, 0]), 1, 100);
    assert_eq!(v.blocks(), 1);
    assert!(v.occupied(VoxelIdx::new([0, 0, 0])));
}

#[test]
fn starved_frontier_deposits_less() {
    // depth 1: only the seed can be committed before the frontier dies out
    let mut v = MonotonicVoxel::new();
    inject_at(&mut v, -1000, 1000, VoxelIdx::new([0, 0, 0]), 50, 1);
    assert_eq!(v.blocks(), 1);
}

#[test]
fn already_occupied_seed_costs_no_budget() {
    let mut v = MonotonicVoxel::new();
    v.add(VoxelIdx::new([0, 0, 0]));
    inject_at(&mut v, -1000, 1000, VoxelIdx::new([0, 0, 0]), 1, 100);
    // the budget went to the nearest free voxel instead
    assert_eq!(v.blocks(), 2);
}

#[test]
fn injector_distance_ordering() {
    // across growing budgets the deposits are nested, and each new voxel is
    // at least as far from the seed as every earlier one
    let seed = [0i32, 0, 0];
    let dist = |c: &[i32; 3]| -> i64 {
        let dx = (c[0] - seed[0]) as i64;
        let dy = (c[1] - seed[1]) as i64;
        let dz = (c[2] - seed[2]) as i64;
        dx * dx + dy * dy + dz * dz
    };
    let mut prev: Vec<[i32; 3]> = Vec::new();
    for k in 1..=7usize {
        let mut v = MonotonicVoxel::new();
        inject_at(&mut v, -100, 100, VoxelIdx::new(seed), k, 100);
        assert_eq!(v.blocks(), k);
        let mut cur: Vec<[i32; 3]> = Vec::new();
        for x in -5..=5 {
            for y in -5..=5 {
                for z in -5..=5 {
                    if v.occupied(VoxelIdx::new([x, y, z])) {
                        cur.push([x, y, z]);
                    }
                }
            }
        }
        assert_eq!(cur.len(), k);
        for c in &prev {
            assert!(cur.contains(c));
        }
        let prev_max = prev.iter().map(&dist).max().unwrap_or(0);
        for c in &cur {
            if !prev.contains(c) {
                assert!(dist(c) >= prev_max);
            }
        }
        prev = cur;
    }
}

#[test]
fn generate_inject_covers_every_seed() {
    let mv = generate_inject(200, 5, 100, -5, 5, 100);
    for k in 0..20 {
        assert!(mv.occupied(VoxelIdx::new([5 * k, 0, 0])));
    }
}

#[test]
fn inject_commits_the_seed_first() {
    let mut v = MonotonicVoxel::new();
    inject_at(&mut v, -10, 10, VoxelIdx::new([3, 4, 5]), 1, 100);
    assert_eq!(v.blocks(), 1);
    assert!(v.occupied(VoxelIdx::new([3, 4, 5])));
}

#[test]
fn generate_inject_demo() {
    let mv = generate_inject(200, 5, 100, -5, 5, 100);
    let blocks = mv.blocks();
    assert!(blocks > 0);
    assert!(blocks <= 20 * 1000);
    let m = mv.to_model();
    assert!(m.face_count() > 0);
}
