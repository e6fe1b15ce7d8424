//! Integer cell coordinates and 8-bit RGBA colors.

use vstd::prelude::*;

verus! {

/// An integer lattice coordinate (one voxel cell). `y` is up.
#[derive(Clone, Copy, Debug, PartialEq, Eq, Hash, Structural)]
pub struct IVec3 {
    pub x: i32,
    pub y: i32,
    pub z: i32,
}

/// 8-bit sRGB color with alpha.
pub type Color8 = [u8; 4];

impl IVec3 {
    pub fn new(x: i32, y: i32, z: i32) -> (r: IVec3)
        ensures
            r == (IVec3 { x, y, z }),
    {
        IVec3 { x, y, z }
    }

    /// Component-wise sum.
    pub open spec fn spec_add(self, o: IVec3) -> IVec3 {
        IVec3 { x: (self.x + o.x) as i32, y: (self.y + o.y) as i32, z: (self.z + o.z) as i32 }
    }

    /// Component-wise difference.
    pub open spec fn spec_sub(self, o: IVec3) -> IVec3 {
        IVec3 { x: (self.x - o.x) as i32, y: (self.y - o.y) as i32, z: (self.z - o.z) as i32 }
    }

    pub open spec fn add_fits(self, o: IVec3) -> bool {
        &&& i32::MIN <= self.x + o.x <= i32::MAX
        &&& i32::MIN <= self.y + o.y <= i32::MAX
        &&& i32::MIN <= self.z + o.z <= i32::MAX
    }

    pub open spec fn sub_fits(self, o: IVec3) -> bool {
        &&& i32::MIN <= self.x - o.x <= i32::MAX
        &&& i32::MIN <= self.y - o.y <= i32::MAX
        &&& i32::MIN <= self.z - o.z <= i32::MAX
    }

    /// Component-wise sum; the caller keeps every component in `i32` range.
    pub fn add(self, o: IVec3) -> (r: IVec3)
        requires
            self.add_fits(o),
        ensures
            r == self.spec_add(o),
    {
        IVec3 { x: self.x + o.x, y: self.y + o.y, z: self.z + o.z }
    }

    /// Component-wise difference; the caller keeps every component in range.
    pub fn sub(self, o: IVec3) -> (r: IVec3)
        requires
            self.sub_fits(o),
        ensures
            r == self.spec_sub(o),
    {
        IVec3 { x: self.x - o.x, y: self.y - o.y, z: self.z - o.z }
    }

    /// Component-wise minimum.
    pub open spec fn spec_min(self, o: IVec3) -> IVec3 {
        IVec3 {
            x: if self.x <= o.x { self.x } else { o.x },
            y: if self.y <= o.y { self.y } else { o.y },
            z: if self.z <= o.z { self.z } else { o.z },
        }
    }

    /// Component-wise maximum.
    pub open spec fn spec_max(self, o: IVec3) -> IVec3 {
        IVec3 {
            x: if self.x >= o.x { self.x } else { o.x },
            y: if self.y >= o.y { self.y } else { o.y },
            z: if self.z >= o.z { self.z } else { o.z },
        }
    }

    pub fn min(self, o: IVec3) -> (r: IVec3)
        ensures
            r == self.spec_min(o),
    {
        IVec3 {
            x: if self.x <= o.x { self.x } else { o.x },
            y: if self.y <= o.y { self.y } else { o.y },
            z: if self.z <= o.z { self.z } else { o.z },
        }
    }

    pub fn max(self, o: IVec3) -> (r: IVec3)
        ensures
            r == self.spec_max(o),
    {
        IVec3 {
            x: if self.x >= o.x { self.x } else { o.x },
            y: if self.y >= o.y { self.y } else { o.y },
            z: if self.z >= o.z { self.z } else { o.z },
        }
    }

    /// Component `axis` (0 = x, 1 = y, otherwise z).
    pub open spec fn spec_comp(self, axis: usize) -> i32 {
        if axis == 0 { self.x } else if axis == 1 { self.y } else { self.z }
    }

    pub fn comp(self, axis: usize) -> (r: i32)
        ensures
            r == self.spec_comp(axis),
    {
        if axis == 0 { self.x } else if axis == 1 { self.y } else { self.z }
    }

    /// The same coordinate with component `axis` replaced by `v`.
    pub open spec fn spec_with(self, axis: usize, v: i32) -> IVec3 {
        if axis == 0 {
            IVec3 { x: v, ..self }
        } else if axis == 1 {
            IVec3 { y: v, ..self }
        } else {
            IVec3 { z: v, ..self }
        }
    }

    pub fn with(self, axis: usize, v: i32) -> (r: IVec3)
        ensures
            r == self.spec_with(axis, v),
    {
        if axis == 0 {
            IVec3 { x: v, ..self }
        } else if axis == 1 {
            IVec3 { y: v, ..self }
        } else {
            IVec3 { z: v, ..self }
        }
    }
}

/// Equality of two colors, channel by channel.
pub fn color_eq(a: &Color8, b: &Color8) -> (r: bool)
    ensures
        r == (*a == *b),
{
    let r = a[0] == b[0] && a[1] == b[1] && a[2] == b[2] && a[3] == b[3];
    proof {
        if r {
            assert(a@ =~= b@);
            vstd::array::lemma_array_index(*a, 0);
            assert(*a == *b) by {
                broadcast use vstd::array::axiom_array_ext_equal;
            }
        } else {
            assert(a@[0] != b@[0] || a@[1] != b@[1] || a@[2] != b@[2] || a@[3] != b@[3]);
        }
    }
    r
}

/// Equality of two optional colors.
pub fn opt_color_eq(a: &Option<Color8>, b: &Option<Color8>) -> (r: bool)
    ensures
        r == (*a == *b),
{
    match (a, b) {
        (Some(x), Some(y)) => color_eq(x, y),
        (None, None) => true,
        _ => false,
    }
}

} // verus!
