//! How the faces of a cube of directions fit together.

use crate::float::{Float32, ONE};
use crate::ibl::{direction_through, CubeFace};
use crate::math::Vec3;
use crate::reals::alike_vectors;
use vstd::prelude::*;

verus! {

/// The middle of a face lies along the axis that the face is named after.
pub proof fn law_faces_lie_along_their_axes()
    ensures
        ({
            let zero = Float32 { bits: 0 };
            let one = Float32 { bits: ONE };
            let less = one.opposite();
            let middle = |face: CubeFace| direction_through(face, zero, zero);
            &&& alike_vectors(middle(CubeFace::PositiveX), Vec3 { x: one, y: zero, z: zero })
            &&& alike_vectors(middle(CubeFace::NegativeX), Vec3 { x: less, y: zero, z: zero })
            &&& alike_vectors(middle(CubeFace::PositiveY), Vec3 { x: zero, y: one, z: zero })
            &&& alike_vectors(middle(CubeFace::NegativeY), Vec3 { x: zero, y: less, z: zero })
            &&& alike_vectors(middle(CubeFace::PositiveZ), Vec3 { x: zero, y: zero, z: one })
            &&& alike_vectors(middle(CubeFace::NegativeZ), Vec3 { x: zero, y: zero, z: less })
        }),
{
}

/// The four faces around the vertical axis meet at their sides: the right side of each is the left
/// side of the next, at every height.
pub proof fn law_side_faces_meet(height: Float32)
    ensures
        ({
            let right = Float32 { bits: ONE };
            let left = right.opposite();
            &&& direction_through(CubeFace::NegativeX, right, height) == direction_through(
                CubeFace::PositiveZ,
                left,
                height,
            )
            &&& direction_through(CubeFace::PositiveZ, right, height) == direction_through(
                CubeFace::PositiveX,
                left,
                height,
            )
            &&& direction_through(CubeFace::PositiveX, right, height) == direction_through(
                CubeFace::NegativeZ,
                left,
                height,
            )
            &&& direction_through(CubeFace::NegativeZ, right, height) == direction_through(
                CubeFace::NegativeX,
                left,
                height,
            )
        }),
{
    lemma_twice_opposite(Float32 { bits: ONE });
}

/// The upper face meets the four faces around it at their upper sides.
pub proof fn law_the_upper_face_meets_the_sides(place: Float32)
    ensures
        ({
            let high = Float32 { bits: ONE };
            let low = high.opposite();
            let other = place.opposite();
            &&& direction_through(CubeFace::PositiveY, place, high) == direction_through(
                CubeFace::PositiveZ,
                place,
                low,
            )
            &&& direction_through(CubeFace::PositiveY, place, low) == direction_through(
                CubeFace::NegativeZ,
                other,
                low,
            )
            &&& direction_through(CubeFace::PositiveY, high, place) == direction_through(
                CubeFace::PositiveX,
                other,
                low,
            )
            &&& direction_through(CubeFace::PositiveY, low, place) == direction_through(
                CubeFace::NegativeX,
                place,
                low,
            )
        }),
{
    lemma_twice_opposite(Float32 { bits: ONE });
    lemma_twice_opposite(place);
}

/// The lower face meets the four faces around it at their lower sides.
pub proof fn law_the_lower_face_meets_the_sides(place: Float32)
    ensures
        ({
            let high = Float32 { bits: ONE };
            let low = high.opposite();
            let other = place.opposite();
            &&& direction_through(CubeFace::NegativeY, place, low) == direction_through(
                CubeFace::PositiveZ,
                place,
                high,
            )
            &&& direction_through(CubeFace::NegativeY, place, high) == direction_through(
                CubeFace::NegativeZ,
                other,
                high,
            )
            &&& direction_through(CubeFace::NegativeY, high, place) == direction_through(
                CubeFace::PositiveX,
                place,
                high,
            )
            &&& direction_through(CubeFace::NegativeY, low, place) == direction_through(
                CubeFace::NegativeX,
                other,
                high,
            )
        }),
{
    lemma_twice_opposite(Float32 { bits: ONE });
    lemma_twice_opposite(place);
}

proof fn lemma_twice_opposite(value: Float32)
    ensures
        value.opposite().opposite() == value,
{
}

} // verus!
