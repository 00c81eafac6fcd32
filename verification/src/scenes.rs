//! The parts of the scenes that several programs share.

use crate::culling::{greatest, maximum};
use crate::float::Float32;
use crate::math::{Mat4, Vec3};
use crate::mesh::{Mesh, MeshVertex};
use vstd::prelude::*;

verus! {

/// The bits of 0.22: how far the sphere of the morph scene is inflated.
pub const INFLATION: u32 = 0x3e61_47ae;

/// The bits of 0.9: how far the upper half of that sphere is drawn up.
pub const SPIKE: u32 = 0x3f66_6666;

/// How far inflating a sphere moves each vertex.
pub open spec fn inflation_of(vertices: Seq<MeshVertex>) -> Seq<Vec3> {
    Seq::new(vertices.len(), |i: int| vertices[i].position * (Float32 { bits: INFLATION }))
}

/// How far drawing a sphere up to a spike moves each vertex: only what lies above the middle moves.
pub open spec fn spike_of(vertices: Seq<MeshVertex>) -> Seq<Vec3> {
    let zero = Float32 { bits: 0 };
    Seq::new(
        vertices.len(),
        |i: int|
            Vec3 {
                x: zero,
                y: greatest(vertices[i].position.y, zero) * (Float32 { bits: SPIKE }),
                z: zero,
            },
    )
}

/// The deltas of the two morph targets of a sphere: inflated, and drawn up to a spike.
pub fn morph_deltas(base: &Mesh) -> (result: (Vec<Vec3>, Vec<Vec3>))
    ensures
        result.0@ == inflation_of(base@.vertices),
        result.1@ == spike_of(base@.vertices),
{
    let vertices = base.vertices();
    let zero: Float32 = Float32 { bits: 0 };
    let mut inflate: Vec<Vec3> = Vec::new();
    let mut spike: Vec<Vec3> = Vec::new();
    let mut i: usize = 0;
    while i < vertices.len()
        invariant
            i <= vertices@.len(),
            zero == (Float32 { bits: 0 }),
            inflate@ =~= inflation_of(vertices@).take(i as int),
            spike@ =~= spike_of(vertices@).take(i as int),
        decreases vertices@.len() - i,
    {
        let position: Vec3 = vertices[i].position;
        inflate.push(position * Float32 { bits: INFLATION });
        spike.push(
            Vec3 {
                x: zero,
                y: maximum(position.y, zero) * Float32 { bits: SPIKE },
                z: zero,
            },
        );
        i += 1;
    }
    assert(inflate@ =~= inflation_of(vertices@));
    assert(spike@ =~= spike_of(vertices@));
    (inflate, spike)
}

/// The bits of 1.8: how far the cubes of the shadow scene stand from the middle.
pub const ASIDE: u32 = 0x3fe6_6666;

/// The bits of 0.8: how high they stand.
pub const LIFTED: u32 = 0x3f4c_cccd;

/// The bits of minus four: how far away the first one stands.
pub const FIRST_DISTANCE: u32 = 0xc080_0000;

/// The bits of eight: how far apart they stand.
pub const SPACING: u32 = 0x4100_0000;

/// Where a cube of the shadow scene stands: to the left and to the right in turn, farther and
/// farther away.
pub open spec fn cube_place(index: nat) -> Vec3 {
    let aside = Float32 { bits: ASIDE };
    Vec3 {
        x: if index % 2 == 0 {
            aside.opposite()
        } else {
            aside
        },
        y: Float32 { bits: LIFTED },
        z: (Float32 { bits: FIRST_DISTANCE }) - Float32::of_integer(false, index) * (Float32 {
            bits: SPACING,
        }),
    }
}

/// The model matrices of the cubes of the shadow scene, each turned by its rotation.
pub fn cube_models(turns: &[Mat4]) -> (result: Vec<Mat4>)
    ensures
        result@.len() == turns@.len(),
        forall|i: int|
            0 <= i < turns@.len() ==> #[trigger] result@[i] == Mat4::translation(cube_place(i as nat)) * turns@[i],
{
    let mut models: Vec<Mat4> = Vec::new();
    let mut i: usize = 0;
    while i < turns.len()
        invariant
            i <= turns@.len(),
            models@.len() == i,
            forall|j: int|
                0 <= j < i ==> #[trigger] models@[j] == Mat4::translation(cube_place(j as nat)) * turns@[j],
        decreases turns@.len() - i,
    {
        let aside: Float32 = Float32 { bits: ASIDE };
        let place: Vec3 = Vec3 {
            x: if i % 2 == 0 {
                aside.negate()
            } else {
                aside
            },
            y: Float32 { bits: LIFTED },
            z: Float32 { bits: FIRST_DISTANCE } - Float32::from_integer(false, i as u64) * Float32 {
                bits: SPACING,
            },
        };
        assert(place == cube_place(i as nat));
        models.push(Mat4::translate(place) * turns[i]);
        i += 1;
    }
    models
}

} // verus!
