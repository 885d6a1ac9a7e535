use voxelize::monotonicvoxel::MonotonicVoxel;
use voxelize::rangesetvoxel::RangeSetVoxel;
use voxelize::voxel::Voxel;
use voxelize::VoxelIdx;

fn check_single_voxel_cube<V: Voxel>(mut v: V) {
    assert!(v.add(VoxelIdx::new([2, -3, 5])));
    let m = v.to_model();
    assert_eq!(m.face_count(), 6);
    assert_eq!(m.vertex_count(), 8);
    // the eight distinct cube corners
    let verts = m.vertex_list();
    assert_eq!(verts.len(), 8);
    for dx in 0..2 {
        for dy in 0..2 {
            for dz in 0..2 {
                let corner = VoxelIdx::new([2 + dx, -3 + dy, 5 + dz]);
                assert!(verts.contains(&corner));
            }
        }
    }
    // every face uses four distinct in-range indices
    for f in m.face_list() {
        for k in 0..4 {
            assert!(f[k] < verts.len());
            for l in 0..4 {
                if k != l {
                    assert_ne!(f[k], f[l]);
                }
            }
        }
    }
}

#[test]
fn single_voxel_monotonic() {
    check_single_voxel_cube(MonotonicVoxel::new());
}

#[test]
fn single_voxel_rangeset() {
    check_single_voxel_cube(RangeSetVoxel::new());
}

fn check_two_stacked<V: Voxel>(mut v: V) {
    assert!(v.add(VoxelIdx::new([0, 0, 0])));
    assert!(v.add(VoxelIdx::new([0, 0, 1])));
    let m = v.to_model();
    // two caps and four sides of two voxels each
    assert_eq!(m.face_count(), 10);
    // three rings of four corners
    assert_eq!(m.vertex_count(), 12);
}

#[test]
fn two_stacked_monotonic() {
    check_two_stacked(MonotonicVoxel::new());
}

#[test]
fn two_stacked_rangeset() {
    check_two_stacked(RangeSetVoxel::new());
}

#[test]
fn two_apart_monotonic() {
    let mut v = MonotonicVoxel::new();
    assert!(v.add(VoxelIdx::new([0, 0, 0])));
    assert!(v.add(VoxelIdx::new([0, 0, 2])));
    let m = v.to_model();
    // two full cubes, nothing shared
    assert_eq!(m.face_count(), 12);
    assert_eq!(m.vertex_count(), 16);
}

#[test]
fn side_by_side_hides_shared_wall() {
    let mut v = MonotonicVoxel::new();
    assert!(v.add(VoxelIdx::new([0, 0, 0])));
    assert!(v.add(VoxelIdx::new([1, 0, 0])));
    let m = v.to_model();
    // the wall between the two voxels is not emitted from either side
    assert_eq!(m.face_count(), 10);
    assert_eq!(m.vertex_count(), 12);
}

#[test]
fn vertices_deduplicated() {
    // 24 face corners collapse onto the 8 cube corners; duplicates would
    // mean the dedup structure handed back wrong indices
    let mut v = MonotonicVoxel::new();
    assert!(v.add(VoxelIdx::new([0, 0, 0])));
    let m = v.to_model();
    let verts = m.vertex_list();
    for i in 0..verts.len() {
        for j in 0..verts.len() {
            if i != j {
                assert_ne!(verts[i], verts[j]);
            }
        }
    }
    // four corners are referenced by three faces each
    let mut refs = vec![0usize; verts.len()];
    for f in m.face_list() {
        for k in 0..4 {
            refs[f[k]] += 1;
        }
    }
    for r in refs {
        assert_eq!(r, 3);
    }
}

#[test]
fn empty_store_empty_mesh() {
    let v = MonotonicVoxel::new();
    let m = v.to_model();
    assert_eq!(m.face_count(), 0);
    assert_eq!(m.vertex_count(), 0);
}
