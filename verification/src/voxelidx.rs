use vstd::prelude::*;

verus! {

/// Largest absolute component value accepted by `magnitude_squared`; keeps the
/// sum of three squares within every machine's `usize`.
pub const MAG_LIMIT: i32 = 30_000;

/// An integer 3-vector addressing one unit voxel of the lattice.
///
/// The derived `Ord` orders coordinates lexicographically: x, then y, then z.
#[derive(Clone, Copy, Debug, PartialEq, Eq, PartialOrd, Ord, Hash, Default)]
pub struct VoxelIdx {
    pub idx: [i32; 3],
}

impl View for VoxelIdx {
    type V = (int, int, int);

    open spec fn view(&self) -> (int, int, int) {
        (self.idx[0] as int, self.idx[1] as int, self.idx[2] as int)
    }
}

impl VoxelIdx {
    /// The diagonal unit vector (1, 1, 1).
    pub fn unit() -> (r: Self)
        ensures
            r@ == (1int, 1int, 1int),
    {
        Self::new([1, 1, 1])
    }

    pub fn new(idx: [i32; 3]) -> (r: Self)
        ensures
            r@ == (idx[0] as int, idx[1] as int, idx[2] as int),
    {
        Self { idx }
    }

    /// Projection keeping only the x component.
    pub fn x(&self) -> (r: VoxelIdx)
        ensures
            r@ == (self@.0, 0int, 0int),
    {
        Self { idx: [self.idx[0], 0, 0] }
    }

    /// Projection keeping only the y component.
    pub fn y(&self) -> (r: VoxelIdx)
        ensures
            r@ == (0int, self@.1, 0int),
    {
        Self { idx: [0, self.idx[1], 0] }
    }

    /// Projection keeping only the z component.
    pub fn z(&self) -> (r: VoxelIdx)
        ensures
            r@ == (0int, 0int, self@.2),
    {
        Self { idx: [0, 0, self.idx[2]] }
    }

    /// Projection keeping the x and y components.
    pub fn xy(&self) -> (r: VoxelIdx)
        ensures
            r@ == (self@.0, self@.1, 0int),
    {
        Self { idx: [self.idx[0], self.idx[1], 0] }
    }

    /// Projection keeping the x and z components.
    pub fn xz(&self) -> (r: VoxelIdx)
        ensures
            r@ == (self@.0, 0int, self@.2),
    {
        Self { idx: [self.idx[0], 0, self.idx[2]] }
    }

    /// Projection keeping the y and z components.
    pub fn yz(&self) -> (r: VoxelIdx)
        ensures
            r@ == (0int, self@.1, self@.2),
    {
        Self { idx: [0, self.idx[1], self.idx[2]] }
    }

    /// Squared Euclidean norm.
    pub fn magnitude_squared(&self) -> (r: usize)
        requires
            -MAG_LIMIT <= self.idx[0] <= MAG_LIMIT,
            -MAG_LIMIT <= self.idx[1] <= MAG_LIMIT,
            -MAG_LIMIT <= self.idx[2] <= MAG_LIMIT,
        ensures
            r == self@.0 * self@.0 + self@.1 * self@.1 + self@.2 * self@.2,
    {
        let x = self.idx[0] as i64;
        let y = self.idx[1] as i64;
        let z = self.idx[2] as i64;
        assert(0 <= x * x <= 900_000_000 && 0 <= y * y <= 900_000_000 && 0 <= z * z
            <= 900_000_000) by (nonlinear_arith)
            requires
                -30_000 <= x <= 30_000,
                -30_000 <= y <= 30_000,
                -30_000 <= z <= 30_000,
        ;
        (x * x + y * y + z * z) as usize
    }

    /// Componentwise minimum.
    pub fn bb_min(&self, other: &Self) -> (r: Self)
        ensures
            r@.0 == vstd::math::min(self@.0, other@.0),
            r@.1 == vstd::math::min(self@.1, other@.1),
            r@.2 == vstd::math::min(self@.2, other@.2),
    {
        Self {
            idx: [
                if self.idx[0] <= other.idx[0] {
                    self.idx[0]
                } else {
                    other.idx[0]
                },
                if self.idx[1] <= other.idx[1] {
                    self.idx[1]
                } else {
                    other.idx[1]
                },
                if self.idx[2] <= other.idx[2] {
                    self.idx[2]
                } else {
                    other.idx[2]
                },
            ],
        }
    }

    /// Componentwise maximum.
    pub fn bb_max(&self, other: &Self) -> (r: Self)
        ensures
            r@.0 == vstd::math::max(self@.0, other@.0),
            r@.1 == vstd::math::max(self@.1, other@.1),
            r@.2 == vstd::math::max(self@.2, other@.2),
    {
        Self {
            idx: [
                if self.idx[0] >= other.idx[0] {
                    self.idx[0]
                } else {
                    other.idx[0]
                },
                if self.idx[1] >= other.idx[1] {
                    self.idx[1]
                } else {
                    other.idx[1]
                },
                if self.idx[2] >= other.idx[2] {
                    self.idx[2]
                } else {
                    other.idx[2]
                },
            ],
        }
    }

    /// Componentwise sum.
    pub fn add(self, rhs: VoxelIdx) -> (r: VoxelIdx)
        requires
            i32::MIN <= self@.0 + rhs@.0 <= i32::MAX,
            i32::MIN <= self@.1 + rhs@.1 <= i32::MAX,
            i32::MIN <= self@.2 + rhs@.2 <= i32::MAX,
        ensures
            r@ == (self@.0 + rhs@.0, self@.1 + rhs@.1, self@.2 + rhs@.2),
    {
        Self {
            idx: [
                self.idx[0] + rhs.idx[0],
                self.idx[1] + rhs.idx[1],
                self.idx[2] + rhs.idx[2],
            ],
        }
    }

    /// Componentwise difference.
    pub fn sub(self, rhs: VoxelIdx) -> (r: VoxelIdx)
        requires
            i32::MIN <= self@.0 - rhs@.0 <= i32::MAX,
            i32::MIN <= self@.1 - rhs@.1 <= i32::MAX,
            i32::MIN <= self@.2 - rhs@.2 <= i32::MAX,
        ensures
            r@ == (self@.0 - rhs@.0, self@.1 - rhs@.1, self@.2 - rhs@.2),
    {
        Self {
            idx: [
                self.idx[0] - rhs.idx[0],
                self.idx[1] - rhs.idx[1],
                self.idx[2] - rhs.idx[2],
            ],
        }
    }
}

} // verus!
