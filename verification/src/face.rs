//! The faces of a cube in three dimensions.

use crate::axis::Axis;
use crate::big::BigNum;
use crate::ndrect::BigRect;
use crate::ndvec::BigVec;
use vstd::prelude::*;

verus! {

/// The direction along an axis in which a face looks.
#[derive(Clone, Copy, Debug, PartialEq, Eq, Structural)]
pub enum FaceSign {
    /// Towards lower coordinates.
    Minus,
    /// Towards higher coordinates.
    Plus,
}

/// Axis-aligned 3D cube face.
#[derive(Clone, Copy, Debug, PartialEq, Eq, Structural)]
pub enum Face {
    /// The face that looks up the first axis.
    PosX,
    /// The face that looks up the second axis.
    PosY,
    /// The face that looks up the third axis.
    PosZ,
    /// The face that looks down the first axis.
    NegX,
    /// The face that looks down the second axis.
    NegY,
    /// The face that looks down the third axis.
    NegZ,
}

/// The axis is one of the three of a cube.
pub open spec fn is_3d(axis: Axis) -> bool {
    axis.index_of() < 3
}

impl Face {
    /// The six faces, those that look up an axis first.
    pub fn all() -> (faces: [Face; 6])
        ensures
            faces@ == seq![Face::PosX, Face::PosY, Face::PosZ, Face::NegX, Face::NegY, Face::NegZ],
    {
        let faces = [Face::PosX, Face::PosY, Face::PosZ, Face::NegX, Face::NegY, Face::NegZ];
        assert(faces@ =~= seq![
            Face::PosX,
            Face::PosY,
            Face::PosZ,
            Face::NegX,
            Face::NegY,
            Face::NegZ,
        ]);
        faces
    }

    /// Returns a face with a positive normal along an axis of the cube.
    pub fn positive(axis: Axis) -> (face: Face)
        requires
            is_3d(axis),
        ensures
            face.normal_axis_of() == axis,
            face.sign_of() == FaceSign::Plus,
    {
        match axis {
            Axis::X => Face::PosX,
            Axis::Y => Face::PosY,
            _ => Face::PosZ,
        }
    }

    /// Returns a face with a negative normal along an axis of the cube.
    pub fn negative(axis: Axis) -> (face: Face)
        requires
            is_3d(axis),
        ensures
            face.normal_axis_of() == axis,
            face.sign_of() == FaceSign::Minus,
    {
        match axis {
            Axis::X => Face::NegX,
            Axis::Y => Face::NegY,
            _ => Face::NegZ,
        }
    }

    /// The sign of the nonzero component of the normal vector.
    pub open spec fn sign_of(self) -> FaceSign {
        match self {
            Face::PosX | Face::PosY | Face::PosZ => FaceSign::Plus,
            Face::NegX | Face::NegY | Face::NegZ => FaceSign::Minus,
        }
    }

    /// The normal axis.
    pub open spec fn normal_axis_of(self) -> Axis {
        match self {
            Face::PosX | Face::NegX => Axis::X,
            Face::PosY | Face::NegY => Axis::Y,
            Face::PosZ | Face::NegZ => Axis::Z,
        }
    }

    /// Returns the sign of the nonzero component of the normal vector.
    pub fn sign(self) -> (sign: FaceSign)
        ensures
            sign == self.sign_of(),
    {
        match self {
            Face::PosX | Face::PosY | Face::PosZ => FaceSign::Plus,
            Face::NegX | Face::NegY | Face::NegZ => FaceSign::Minus,
        }
    }

    /// Returns the normal axis.
    pub fn normal_axis(self) -> (axis: Axis)
        ensures
            axis == self.normal_axis_of(),
            is_3d(axis),
    {
        match self {
            Face::PosX | Face::NegX => Axis::X,
            Face::PosY | Face::NegY => Axis::Y,
            Face::PosZ | Face::NegZ => Axis::Z,
        }
    }

    /// Returns the two perpendicular axes, in the order in which, seen
    /// from outside the cube, the second lies a quarter turn
    /// counterclockwise from the first.
    pub fn plane_axes(self) -> (axes: [Axis; 2])
        ensures
            is_3d(axes@[0]),
            is_3d(axes@[1]),
            axes@[0] != axes@[1],
            axes@[0] != self.normal_axis_of(),
            axes@[1] != self.normal_axis_of(),
            (axes@[1].index_of() == (axes@[0].index_of() + 1) % 3) <==> self.sign_of()
                == FaceSign::Plus,
    {
        match self {
            Face::PosX => [Axis::Y, Axis::Z],
            Face::PosY => [Axis::Z, Axis::X],
            Face::PosZ => [Axis::X, Axis::Y],
            Face::NegX => [Axis::Z, Axis::Y],
            Face::NegY => [Axis::X, Axis::Z],
            Face::NegZ => [Axis::Y, Axis::X],
        }
    }

    /// Returns the normal vector, which has a single nonzero component
    /// that is either +1 or -1.
    pub fn normal(self) -> (n: [i8; 3])
        ensures
            forall|k: int|
                0 <= k < 3 ==> #[trigger] n@[k] == (if k != self.normal_axis_of().index_of() {
                    0i8
                } else if self.sign_of() == FaceSign::Plus {
                    1i8
                } else {
                    -1i8
                }),
    {
        match self {
            Face::PosX => [1, 0, 0],
            Face::PosY => [0, 1, 0],
            Face::PosZ => [0, 0, 1],
            Face::NegX => [-1, 0, 0],
            Face::NegY => [0, -1, 0],
            Face::NegZ => [0, 0, -1],
        }
    }

    /// The face on the other side of the cube.
    pub fn opposite(self) -> (face: Face)
        ensures
            face.normal_axis_of() == self.normal_axis_of(),
            face.sign_of() != self.sign_of(),
    {
        match self {
            Face::PosX => Face::NegX,
            Face::PosY => Face::NegY,
            Face::PosZ => Face::NegZ,
            Face::NegX => Face::PosX,
            Face::NegY => Face::PosY,
            Face::NegZ => Face::PosZ,
        }
    }

    /// Returns a cuboid flattened to this face of itself.
    pub fn of(self, cuboid: &BigRect<3>) -> (r: BigRect<3>)
        requires
            cuboid.wf(),
        ensures
            r.wf(),
            forall|k: int|
                0 <= k < 3 ==> #[trigger] r.min@[k] == (if k == self.normal_axis_of().index_of()
                    && self.sign_of() == FaceSign::Plus {
                    cuboid.max@[k]
                } else {
                    cuboid.min@[k]
                }),
            forall|k: int|
                0 <= k < 3 ==> #[trigger] r.max@[k] == (if k == self.normal_axis_of().index_of()
                    && self.sign_of() == FaceSign::Minus {
                    cuboid.min@[k]
                } else {
                    cuboid.max@[k]
                }),
    {
        let axis = self.normal_axis().index();
        let sign = self.sign();
        let mut low: Vec<BigNum> = Vec::new();
        let mut high: Vec<BigNum> = Vec::new();
        let mut k: usize = 0;
        while k < 3
            invariant
                cuboid.wf(),
                k <= 3,
                axis == self.normal_axis_of().index_of(),
                sign == self.sign_of(),
                low@.len() == k,
                high@.len() == k,
                forall|j: int|
                    0 <= j < k ==> (#[trigger] low@[j])@ == (if j == axis && sign
                        == FaceSign::Plus {
                        cuboid.max@[j]
                    } else {
                        cuboid.min@[j]
                    }),
                forall|j: int|
                    0 <= j < k ==> (#[trigger] high@[j])@ == (if j == axis && sign
                        == FaceSign::Minus {
                        cuboid.min@[j]
                    } else {
                        cuboid.max@[j]
                    }),
            decreases 3 - k,
        {
            let flat = k == axis;
            let lo = match sign {
                FaceSign::Plus => if flat {
                    cuboid.max.coords[k].copy()
                } else {
                    cuboid.min.coords[k].copy()
                },
                FaceSign::Minus => cuboid.min.coords[k].copy(),
            };
            let hi = match sign {
                FaceSign::Minus => if flat {
                    cuboid.min.coords[k].copy()
                } else {
                    cuboid.max.coords[k].copy()
                },
                FaceSign::Plus => cuboid.max.coords[k].copy(),
            };
            low.push(lo);
            high.push(hi);
            k += 1;
        }
        let r = BigRect { min: BigVec { coords: low }, max: BigVec { coords: high } };
        proof {
            assert forall|j: int| 0 <= j < 3 implies #[trigger] r.min@[j] <= r.max@[j] by {
                assert(cuboid.min@[j] <= cuboid.max@[j]);
            }
        }
        r
    }
}

} // verus!
