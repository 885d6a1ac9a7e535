use voxelize::VoxelIdx;

#[test]
pub fn test_add() {
    let idx0 = VoxelIdx::new([1, 2, 3]);
    let idx1 = VoxelIdx::new([4, 3, 1]);

    assert_eq!(idx0.bb_max(&idx1), VoxelIdx::new([4, 3, 3]));
}

#[test]
fn test_bb_min() {
    let idx0 = VoxelIdx::new([1, 2, 3]);
    let idx1 = VoxelIdx::new([4, 3, 1]);
    assert_eq!(idx0.bb_min(&idx1), VoxelIdx::new([1, 2, 1]));
}

#[test]
fn test_projections() {
    let v = VoxelIdx::new([5, -7, 9]);
    assert_eq!(v.x(), VoxelIdx::new([5, 0, 0]));
    assert_eq!(v.y(), VoxelIdx::new([0, -7, 0]));
    assert_eq!(v.z(), VoxelIdx::new([0, 0, 9]));
    assert_eq!(v.xy(), VoxelIdx::new([5, -7, 0]));
    assert_eq!(v.xz(), VoxelIdx::new([5, 0, 9]));
    assert_eq!(v.yz(), VoxelIdx::new([0, -7, 9]));
}

#[test]
fn test_unit() {
    assert_eq!(VoxelIdx::unit(), VoxelIdx::new([1, 1, 1]));
}

#[test]
fn test_magnitude_squared() {
    assert_eq!(VoxelIdx::new([3, 4, 0]).magnitude_squared(), 25);
    assert_eq!(VoxelIdx::new([-2, 1, -2]).magnitude_squared(), 9);
    assert_eq!(VoxelIdx::new([0, 0, 0]).magnitude_squared(), 0);
}

#[test]
fn test_add_sub() {
    let a = VoxelIdx::new([1, 2, 3]);
    let b = VoxelIdx::new([10, -20, 30]);
    assert_eq!(a.add(b), VoxelIdx::new([11, -18, 33]));
    assert_eq!(b.sub(a), VoxelIdx::new([9, -22, 27]));
}
