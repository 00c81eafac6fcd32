//! Meshes of grids: planes and spheres.

use crate::demo::{grid, grid_triangles};
use crate::float::{Float32, HALF, ONE};
use crate::ibl_bake::{Angle, FULL_TURN};
use crate::math::{Mat4, Vec2, Vec3, Vec4};
use crate::mesh::{mesh_of, plain_vertex, Mesh, MeshVertex};
use vstd::prelude::*;

verus! {

/// The share of the way at a step.
pub open spec fn share_at(step: int, steps: nat) -> Float32 {
    Float32::of_integer(false, step as nat) / Float32::of_integer(false, steps)
}

fn find_share(step: usize, steps: usize) -> (result: Float32)
    ensures
        result == share_at(step as int, steps as nat),
{
    Float32::from_integer(false, step as u64) / Float32::from_integer(false, steps as u64)
}

/// The bits of half a turn, in radians.
pub const HALF_TURN: u32 = 0x4049_0fdb;

/// The angle of a ring of a sphere from the pole.
pub fn latitude_turn(ring: usize, rings: usize) -> (result: Float32)
    ensures
        result == share_at(ring as int, rings as nat) * (Float32 { bits: HALF_TURN }),
{
    find_share(ring, rings) * Float32 { bits: HALF_TURN }
}

/// The angle of a column of a sphere.
pub fn longitude_turn(segment: usize, segments: usize) -> (result: Float32)
    ensures
        result == share_at(segment as int, segments as nat) * (Float32 { bits: FULL_TURN }),
{
    find_share(segment, segments) * Float32 { bits: FULL_TURN }
}

/// Into how many cells a side is divided: one at least.
pub open spec fn cells(subdivisions: usize) -> usize {
    if subdivisions < 1 {
        1
    } else {
        subdivisions
    }
}

/// A vertex of a plane, at a column and row of its grid.
pub open spec fn plane_vertex(
    width: Float32,
    depth: Float32,
    count: nat,
    repeat: Float32,
    column: int,
    row: int,
) -> MeshVertex {
    let zero = Float32 { bits: 0 };
    let half = Float32 { bits: HALF };
    let u = share_at(column, count);
    let v = share_at(row, count);
    plain_vertex(
        Vec3 {
            x: (width * half).opposite() + u * width,
            y: zero,
            z: (depth * half).opposite() + v * depth,
        },
        Some(Vec2 { x: u * repeat, y: v * repeat }),
        Some(Vec3 { x: zero, y: Float32 { bits: ONE }, z: zero }),
        false,
    )
}

/// The vertices of a plane, row after row.
pub open spec fn plane_vertices(
    width: Float32,
    depth: Float32,
    count: nat,
    repeat: Float32,
) -> Seq<MeshVertex> {
    Seq::new(
        (count + 1) * (count + 1),
        |i: int|
            plane_vertex(
                width,
                depth,
                count,
                repeat,
                i % (count + 1) as int,
                i / (count + 1) as int,
            ),
    )
}

/// A level plane around the origin, divided into cells. The texture is repeated across it.
pub fn plane_xz(width: Float32, depth: Float32, subdivisions: usize, uv_repeat: Float32) -> (result:
    Mesh)
    requires
        (subdivisions + 1) * (subdivisions + 1) <= usize::MAX,
    ensures
        result@ == mesh_of(
            plane_vertices(width, depth, cells(subdivisions) as nat, uv_repeat),
            grid(cells(subdivisions) as nat, cells(subdivisions) as nat, true),
        ),
{
    let count: usize = if subdivisions < 1 {
        1
    } else {
        subdivisions
    };
    let zero: Float32 = Float32 { bits: 0 };
    let half: Float32 = Float32 { bits: HALF };
    let left: Float32 = (width * half).negate();
    let back: Float32 = (depth * half).negate();
    let up: Vec3 = Vec3 { x: zero, y: Float32 { bits: ONE }, z: zero };
    assert((count + 1) * (count + 1) <= usize::MAX) by (nonlinear_arith)
        requires
            count == subdivisions || count == 1,
            (subdivisions + 1) * (subdivisions + 1) <= usize::MAX,
    ;
    assert(count + 1 <= (count + 1) * (count + 1)) by (nonlinear_arith);
    let total: usize = (count + 1) * (count + 1);
    let ghost wanted = plane_vertices(width, depth, count as nat, uv_repeat);
    let mut vertices: Vec<MeshVertex> = Vec::new();
    let mut i: usize = 0;
    while i < total
        invariant
            i <= total,
            count + 1 <= usize::MAX,
            total == (count + 1) * (count + 1),
            left == (width * (Float32 { bits: HALF })).opposite(),
            back == (depth * (Float32 { bits: HALF })).opposite(),
            zero == (Float32 { bits: 0 }),
            up == (Vec3 { x: zero, y: Float32 { bits: ONE }, z: zero }),
            wanted == plane_vertices(width, depth, count as nat, uv_repeat),
            vertices@ =~= wanted.take(i as int),
        decreases total - i,
    {
        let u: Float32 = find_share(i % (count + 1), count);
        let v: Float32 = find_share(i / (count + 1), count);
        let vertex: MeshVertex = MeshVertex::new(
            Vec3 { x: left + u * width, y: zero, z: back + v * depth },
            Some(Vec2 { x: u * uv_repeat, y: v * uv_repeat }),
            Some(up),
        );
        assert(vertex == wanted[i as int]);
        vertices.push(vertex);
        i += 1;
    }
    assert(vertices@ =~= wanted);
    Mesh::new(vertices, grid_triangles(count, count, true))
}

/// A vertex of a sphere, at a segment and ring.
pub open spec fn sphere_vertex(
    radius: Float32,
    latitudes: Seq<Angle>,
    longitudes: Seq<Angle>,
    segment: int,
    ring: int,
) -> MeshVertex {
    let latitude = latitudes[ring];
    let longitude = longitudes[segment];
    let normal = Vec3 {
        x: latitude.sine * longitude.cosine,
        y: latitude.cosine,
        z: latitude.sine * longitude.sine,
    };
    plain_vertex(
        normal * radius,
        Some(
            Vec2 {
                x: share_at(segment, (longitudes.len() - 1) as nat),
                y: share_at(ring, (latitudes.len() - 1) as nat),
            },
        ),
        Some(normal),
        false,
    )
}

/// The vertices of a sphere, ring after ring. The last column lies where the first one does, so
/// that a texture goes round without a gap.
pub open spec fn sphere_vertices(
    radius: Float32,
    latitudes: Seq<Angle>,
    longitudes: Seq<Angle>,
) -> Seq<MeshVertex> {
    Seq::new(
        latitudes.len() * longitudes.len(),
        |i: int|
            sphere_vertex(
                radius,
                latitudes,
                longitudes,
                i % longitudes.len() as int,
                i / longitudes.len() as int,
            ),
    )
}

/// A sphere with normals and texture coordinates. `latitudes` holds the angle of each ring from
/// the pole, `longitudes` the angle of each column, both with their last one.
pub fn uv_sphere(radius: Float32, latitudes: &[Angle], longitudes: &[Angle]) -> (result: Mesh)
    requires
        latitudes@.len() >= 3,
        longitudes@.len() >= 4,
        latitudes@.len() * longitudes@.len() <= usize::MAX,
    ensures
        result@ == mesh_of(
            sphere_vertices(radius, latitudes@, longitudes@),
            grid((latitudes@.len() - 1) as nat, (longitudes@.len() - 1) as nat, false),
        ),
{
    let rows: usize = latitudes.len();
    let columns: usize = longitudes.len();
    let total: usize = rows * columns;
    let ghost wanted = sphere_vertices(radius, latitudes@, longitudes@);
    let mut vertices: Vec<MeshVertex> = Vec::new();
    let mut i: usize = 0;
    while i < total
        invariant
            i <= total,
            rows == latitudes@.len(),
            columns == longitudes@.len(),
            rows >= 3,
            columns >= 4,
            total == rows * columns,
            wanted == sphere_vertices(radius, latitudes@, longitudes@),
            vertices@ =~= wanted.take(i as int),
        decreases total - i,
    {
        let segment: usize = i % columns;
        let ring: usize = i / columns;
        assert(ring < rows) by (nonlinear_arith)
            requires
                ring == i / columns,
                i < rows * columns,
                columns >= 4,
        ;
        let latitude: Angle = latitudes[ring];
        let longitude: Angle = longitudes[segment];
        let normal: Vec3 = Vec3 {
            x: latitude.sine * longitude.cosine,
            y: latitude.cosine,
            z: latitude.sine * longitude.sine,
        };
        let vertex: MeshVertex = MeshVertex::new(
            normal * radius,
            Some(
                Vec2 { x: find_share(segment, columns - 1), y: find_share(ring, rows - 1) },
            ),
            Some(normal),
        );
        assert(vertex == wanted[i as int]);
        vertices.push(vertex);
        i += 1;
    }
    assert(vertices@ =~= wanted);
    assert((rows - 1 + 1) * (columns - 1 + 1) == rows * columns);
    Mesh::new(vertices, grid_triangles(rows - 1, columns - 1, false))
}

/// The corners of an upright quad.
pub open spec fn quad_corners() -> Seq<Vec3> {
    seq![
        Vec3 { x: Float32 { bits: 0xbf4c_cccd }, y: Float32 { bits: 0xbf33_3333 }, z: Float32 { bits: 0x0000_0000 } },
        Vec3 { x: Float32 { bits: 0x3f4c_cccd }, y: Float32 { bits: 0xbf33_3333 }, z: Float32 { bits: 0x0000_0000 } },
        Vec3 { x: Float32 { bits: 0x3f4c_cccd }, y: Float32 { bits: 0x3f33_3333 }, z: Float32 { bits: 0x0000_0000 } },
        Vec3 { x: Float32 { bits: 0xbf4c_cccd }, y: Float32 { bits: 0x3f33_3333 }, z: Float32 { bits: 0x0000_0000 } },
    ]
}

/// The centers that two quads turn around.
pub open spec fn quad_centers() -> Seq<Vec3> {
    seq![
        Vec3 { x: Float32 { bits: 0xbfa0_0000 }, y: Float32 { bits: 0x3f19_999a }, z: Float32 { bits: 0x3ee6_6666 } },
        Vec3 { x: Float32 { bits: 0x3fa0_0000 }, y: Float32 { bits: 0x3f59_999a }, z: Float32 { bits: 0xbe19_999a } },
    ]
}

/// A corner of a quad, turned and then moved to its center.
pub open spec fn orbiting_vertex(turn: Mat4, center: Vec3, corner: Vec3) -> MeshVertex {
    let place = turn.applied(
        Vec4 { x: corner.x, y: corner.y, z: corner.z, w: Float32 { bits: ONE } },
    );
    let zero = Float32 { bits: 0 };
    plain_vertex(
        Vec3 { x: place.x + center.x, y: place.y + center.y, z: place.z + center.z },
        None,
        Some(Vec3 { x: zero, y: zero, z: Float32 { bits: ONE } }),
        false,
    )
}

/// The bits of the angle that the first quad turns by in a second.
pub const QUAD_SPEED: u32 = 0x3f26_6666;

/// The bits of how much more the second quad turns by in a second.
pub const QUAD_SPEED_STEP: u32 = 0x3e4c_cccd;

/// The angle that a quad is turned by after some time: the second is faster, and ahead.
pub open spec fn quad_angle(elapsed: Float32, index: nat) -> Float32 {
    let place = Float32::of_integer(false, index);
    elapsed * ((Float32 { bits: QUAD_SPEED }) + place * (Float32 { bits: QUAD_SPEED_STEP })) + place
}

/// The angle that a quad is turned by after some time.
pub fn quad_turn(elapsed: Float32, index: usize) -> (result: Float32)
    ensures
        result == quad_angle(elapsed, index as nat),
{
    let place: Float32 = Float32::from_integer(false, index as u64);
    elapsed * (Float32 { bits: QUAD_SPEED } + place * Float32 { bits: QUAD_SPEED_STEP }) + place
}

/// Two quads, each turned around its center.
pub fn orbiting_quads(first: Mat4, second: Mat4) -> (result: Mesh)
    ensures
        result@ == mesh_of(
            Seq::new(
                8,
                |i: int|
                    orbiting_vertex(
                        if i < 4 {
                            first
                        } else {
                            second
                        },
                        quad_centers()[i / 4],
                        quad_corners()[i % 4],
                    ),
            ),
            seq![[0, 1, 2], [0, 2, 3], [4, 5, 6], [4, 6, 7]],
        ),
{
    let zero: Float32 = Float32 { bits: 0 };
    let one: Float32 = Float32 { bits: ONE };
    let corners: [Vec3; 4] = [
        Vec3 { x: Float32 { bits: 0xbf4c_cccd }, y: Float32 { bits: 0xbf33_3333 }, z: Float32 { bits: 0x0000_0000 } },
        Vec3 { x: Float32 { bits: 0x3f4c_cccd }, y: Float32 { bits: 0xbf33_3333 }, z: Float32 { bits: 0x0000_0000 } },
        Vec3 { x: Float32 { bits: 0x3f4c_cccd }, y: Float32 { bits: 0x3f33_3333 }, z: Float32 { bits: 0x0000_0000 } },
        Vec3 { x: Float32 { bits: 0xbf4c_cccd }, y: Float32 { bits: 0x3f33_3333 }, z: Float32 { bits: 0x0000_0000 } },
    ];
    let centers: [Vec3; 2] = [
        Vec3 { x: Float32 { bits: 0xbfa0_0000 }, y: Float32 { bits: 0x3f19_999a }, z: Float32 { bits: 0x3ee6_6666 } },
        Vec3 { x: Float32 { bits: 0x3fa0_0000 }, y: Float32 { bits: 0x3f59_999a }, z: Float32 { bits: 0xbe19_999a } },
    ];
    assert(corners@ =~= quad_corners());
    assert(centers@ =~= quad_centers());
    let mut vertices: Vec<MeshVertex> = Vec::new();
    let ghost wanted = Seq::new(
        8,
        |i: int|
            orbiting_vertex(
                if i < 4 {
                    first
                } else {
                    second
                },
                quad_centers()[i / 4],
                quad_corners()[i % 4],
            ),
    );
    let mut i: usize = 0;
    while i < 8
        invariant
            i <= 8,
            zero == (Float32 { bits: 0 }),
            one == (Float32 { bits: ONE }),
            corners@ == quad_corners(),
            centers@ == quad_centers(),
            wanted == Seq::new(
                8,
                |i: int|
                    orbiting_vertex(
                        if i < 4 {
                            first
                        } else {
                            second
                        },
                        quad_centers()[i / 4],
                        quad_corners()[i % 4],
                    ),
            ),
            vertices@ =~= wanted.take(i as int),
        decreases 8 - i,
    {
        let turn: Mat4 = if i < 4 {
            first
        } else {
            second
        };
        let corner: Vec3 = corners[i % 4];
        let center: Vec3 = centers[i / 4];
        let place: Vec4 = turn * Vec4 { x: corner.x, y: corner.y, z: corner.z, w: one };
        let vertex: MeshVertex = MeshVertex::new(
            Vec3 { x: place.x + center.x, y: place.y + center.y, z: place.z + center.z },
            None,
            Some(Vec3 { x: zero, y: zero, z: one }),
        );
        assert(vertex == wanted[i as int]);
        vertices.push(vertex);
        i += 1;
    }
    let triangles: Vec<[usize; 3]> = vec![[0, 1, 2], [0, 2, 3], [4, 5, 6], [4, 6, 7]];
    let ghost faces: Seq<[usize; 3]> = seq![[0, 1, 2], [0, 2, 3], [4, 5, 6], [4, 6, 7]];
    assert forall|t: int| 0 <= t < 4 implies #[trigger] triangles@[t] == faces[t] by {
        assert(triangles@[t]@ =~= faces[t]@);
        assert(triangles@[t] =~= faces[t]);
    }
    assert(triangles@ =~= faces);
    assert(vertices@ =~= wanted);
    Mesh::new(vertices, triangles)
}

} // verus!
