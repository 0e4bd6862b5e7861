use vstd::prelude::*;

verus! {

/// Whether an integer fits in an `i32`.
pub open spec fn fits_i32(v: int) -> bool {
    i32::MIN <= v <= i32::MAX
}

/// A source of voxels: for each lattice point, whether it is solid.
///
/// An implementation states which voxels are solid in `solid` and where it
/// answers in `defined_at`. One that keeps the defaults answers nowhere as
/// far as verified code knows: nothing verified can call its `get`, and
/// nothing is claimed of what it returns.
pub trait VoxelSource {
    /// Whether the voxel at `(x, y, z)` is solid.
    open spec fn solid(&self, x: int, y: int, z: int) -> bool {
        false
    }

    /// Whether `get` may be asked about `(x, y, z)`.
    open spec fn defined_at(&self, x: int, y: int, z: int) -> bool {
        false
    }

    fn get(&self, x: i32, y: i32, z: i32) -> (b: bool)
        requires
            self.defined_at(x as int, y as int, z as int),
        ensures
            b == self.solid(x as int, y as int, z as int),
    ;
}

/// A solid ball of radius `r` centred on `(x, y, z)`.
pub struct SphereSource {
    pub x: i32,
    pub y: i32,
    pub z: i32,
    pub r: i32,
}

impl SphereSource {
    /// Squared distance from the centre to `(x, y, z)`.
    pub open spec fn dist2(&self, x: int, y: int, z: int) -> int {
        (x - self.x) * (x - self.x) + (y - self.y) * (y - self.y) + (z - self.z) * (z - self.z)
    }
}

impl VoxelSource for SphereSource {
    open spec fn solid(&self, x: int, y: int, z: int) -> bool {
        self.dist2(x, y, z) < self.r * self.r
    }

    /// The `i32` arithmetic of the test does not overflow.
    open spec fn defined_at(&self, x: int, y: int, z: int) -> bool {
        let dx = x - self.x;
        let dy = y - self.y;
        let dz = z - self.z;
        &&& fits_i32(dx) && fits_i32(dy) && fits_i32(dz)
        &&& fits_i32(dx * dx) && fits_i32(dy * dy) && fits_i32(dz * dz)
        &&& fits_i32(dx * dx + dy * dy) && fits_i32(dx * dx + dy * dy + dz * dz)
        &&& fits_i32(self.r * self.r)
    }

    fn get(&self, ix: i32, iy: i32, iz: i32) -> (b: bool) {
        let x = ix - self.x;
        let y = iy - self.y;
        let z = iz - self.z;
        let d2 = x * x + y * y + z * z;
        let r2 = self.r * self.r;
        d2 < r2
    }
}

} // verus!
