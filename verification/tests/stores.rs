use voxelize::monotonicvoxel::MonotonicVoxel;
use voxelize::rangesetvoxel::RangeSetVoxel;
use voxelize::voxel::{Occupancy, Voxel};
use voxelize::VoxelIdx;

fn check_idempotence<V: Voxel>(mut v: V) {
    let c = VoxelIdx::new([3, -2, 7]);
    assert!(!v.occupied(c));
    assert!(v.add(c));
    assert!(v.occupied(c));
    assert!(!v.add(c));
    assert!(v.occupied(c));
    assert_eq!(v.blocks(), 1);
}

#[test]
fn idempotence_monotonic() {
    check_idempotence(MonotonicVoxel::new());
}

#[test]
fn idempotence_rangeset() {
    check_idempotence(RangeSetVoxel::new());
}

fn check_blocks_monotonic<V: Voxel>(mut v: V) {
    let coords = [
        [0, 0, 0],
        [0, 0, 1],
        [0, 0, 0],
        [5, 5, 5],
        [0, 0, 2],
        [5, 5, 5],
    ];
    let mut expected: usize = 0;
    for c in coords {
        let before = v.blocks();
        let newly = v.add(VoxelIdx::new(c));
        if newly {
            expected += 1;
            assert_eq!(v.blocks(), before + 1);
        } else {
            assert_eq!(v.blocks(), before);
        }
    }
    assert_eq!(v.blocks(), expected);
    assert_eq!(v.blocks(), 4);
}

#[test]
fn blocks_monotonic_monotonic() {
    check_blocks_monotonic(MonotonicVoxel::new());
}

#[test]
fn blocks_monotonic_rangeset() {
    check_blocks_monotonic(RangeSetVoxel::new());
}

fn check_bounding_box<V: Voxel>(mut v: V) {
    assert_eq!(v.bounding_box().count(), 0);
    let coords = [[3, -1, 2], [-5, 9, 0], [1, 1, 1], [3, -1, 2]];
    for c in coords {
        v.add(VoxelIdx::new(c));
    }
    let bb = v.bounding_box();
    assert_eq!(bb.count(), 3);
    assert_eq!(bb.bound_min(), VoxelIdx::new([-5, -1, 0]));
    assert_eq!(bb.bound_max(), VoxelIdx::new([3, 9, 2]));
}

#[test]
fn bounding_box_monotonic() {
    check_bounding_box(MonotonicVoxel::new());
}

#[test]
fn bounding_box_rangeset() {
    check_bounding_box(RangeSetVoxel::new());
}

#[test]
fn partial_merge_monotonic() {
    // two separate runs that later become adjacent are not re-coalesced
    let mut v = MonotonicVoxel::new();
    assert!(v.add(VoxelIdx::new([0, 0, 1])));
    assert!(v.add(VoxelIdx::new([0, 0, 3])));
    assert_eq!(v.ranges(), 2);
    assert!(v.add(VoxelIdx::new([0, 0, 2])));
    assert_eq!(v.blocks(), 3);
    assert_eq!(v.ranges(), 2);
    assert!(v.occupied(VoxelIdx::new([0, 0, 1])));
    assert!(v.occupied(VoxelIdx::new([0, 0, 2])));
    assert!(v.occupied(VoxelIdx::new([0, 0, 3])));
    assert!(!v.occupied(VoxelIdx::new([0, 0, 0])));
    assert!(!v.occupied(VoxelIdx::new([0, 0, 4])));
}

#[test]
fn coalescing_rangeset() {
    // the general-purpose range collection does coalesce touching runs
    let mut v = RangeSetVoxel::new();
    assert!(v.add(VoxelIdx::new([0, 0, 1])));
    assert!(v.add(VoxelIdx::new([0, 0, 3])));
    assert_eq!(v.ranges(), 2);
    assert!(v.add(VoxelIdx::new([0, 0, 2])));
    assert_eq!(v.blocks(), 3);
    assert_eq!(v.ranges(), 1);
}

#[test]
fn runs_extend_monotonic() {
    let mut v = MonotonicVoxel::new();
    // grow a run upward, then prepend below
    assert!(v.add(VoxelIdx::new([2, 2, 0])));
    assert!(v.add(VoxelIdx::new([2, 2, 1])));
    assert!(v.add(VoxelIdx::new([2, 2, -1])));
    assert_eq!(v.ranges(), 1);
    assert_eq!(v.blocks(), 3);
}

#[test]
fn columns_are_independent() {
    let mut v = MonotonicVoxel::new();
    assert!(v.add(VoxelIdx::new([0, 0, 5])));
    assert!(v.add(VoxelIdx::new([1, 0, 5])));
    assert!(v.add(VoxelIdx::new([0, 1, 5])));
    assert_eq!(v.ranges(), 3);
    assert_eq!(v.blocks(), 3);
    assert!(!v.occupied(VoxelIdx::new([1, 1, 5])));
}

#[test]
fn negative_key_columns() {
    let mut v = MonotonicVoxel::new();
    assert!(v.add(VoxelIdx::new([-1, -1, 0])));
    assert!(v.add(VoxelIdx::new([-1, 1, 0])));
    assert!(v.add(VoxelIdx::new([1, -1, 0])));
    assert!(v.occupied(VoxelIdx::new([-1, -1, 0])));
    assert!(!v.occupied(VoxelIdx::new([1, 1, 0])));
    assert_eq!(v.blocks(), 3);
}
