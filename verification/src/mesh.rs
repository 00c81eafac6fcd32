//! Triangle meshes: vertex streams, triangles and material groups.
//!
//! Normals that no source gave, tangents and the bounding box are derived. Every change to a
//! stream that they depend on derives them anew.

use crate::culling::{box_around, positions, Aabb};
use crate::derived::{
    generate_missing_normals, generate_tangents, nothing, with_normals, with_tangents,
};
use crate::math::{Vec2, Vec3, Vec4};
use vstd::prelude::*;
use vstd::string::*;

verus! {

/// One vertex of a mesh.
#[derive(Clone, Copy, PartialEq, Debug)]
pub struct MeshVertex {
    pub position: Vec3,
    pub texcoord: Option<Vec2>,
    pub normal: Option<Vec3>,
    /// Whether the normal is to be derived from the faces.
    pub normal_derived: bool,
    /// Tangent xyz plus the bitangent reconstruction sign in w.
    pub tangent: Option<Vec4>,
}

/// The vertex with these streams, before anything is derived.
pub open spec fn plain_vertex(
    position: Vec3,
    texcoord: Option<Vec2>,
    normal: Option<Vec3>,
    normal_derived: bool,
) -> MeshVertex {
    MeshVertex { position, texcoord, normal, normal_derived, tangent: None }
}

impl MeshVertex {
    pub fn new(position: Vec3, texcoord: Option<Vec2>, normal: Option<Vec3>) -> (result: MeshVertex)
        ensures
            result == plain_vertex(position, texcoord, normal, false),
    {
        MeshVertex { position, texcoord, normal, normal_derived: false, tangent: None }
    }

    pub fn with_normal_source(
        position: Vec3,
        texcoord: Option<Vec2>,
        normal: Option<Vec3>,
        normal_derived: bool,
    ) -> (result: MeshVertex)
        ensures
            result == plain_vertex(position, texcoord, normal, normal_derived),
    {
        MeshVertex { position, texcoord, normal, normal_derived, tangent: None }
    }

    pub fn position(&self) -> (result: Vec3)
        ensures
            result == self.position,
    {
        self.position
    }

    pub fn texcoord(&self) -> (result: Option<Vec2>)
        ensures
            result == self.texcoord,
    {
        self.texcoord
    }

    pub fn normal(&self) -> (result: Option<Vec3>)
        ensures
            result == self.normal,
    {
        self.normal
    }

    pub fn tangent(&self) -> (result: Option<Vec4>)
        ensures
            result == self.tangent,
    {
        self.tangent
    }
}

/// A run of triangles that one material covers.
#[derive(Debug, PartialEq, Eq)]
pub struct MaterialGroup {
    pub material_name: String,
    pub start: usize,
    pub end: usize,
}

/// A material group as mathematics.
#[verifier::ext_equal]
pub struct GroupModel {
    pub name: Seq<char>,
    pub start: usize,
    pub end: usize,
}

impl View for MaterialGroup {
    type V = GroupModel;

    open spec fn view(&self) -> GroupModel {
        GroupModel { name: self.material_name@, start: self.start, end: self.end }
    }
}

impl MaterialGroup {
    /// The group of the triangles from `start` up to `end`.
    pub fn new(material_name: &str, start: usize, end: usize) -> (result: MaterialGroup)
        ensures
            result@ == (GroupModel { name: material_name@, start, end }),
    {
        MaterialGroup { material_name: material_name.to_owned(), start, end }
    }

    pub fn material_name(&self) -> (result: &str)
        ensures
            result@ == self@.name,
    {
        self.material_name.as_str()
    }

    /// The first triangle of the group and the one after its last.
    pub fn triangle_range(&self) -> (result: (usize, usize))
        ensures
            result == (self@.start, self@.end),
    {
        (self.start, self.end)
    }
}

/// A triangle mesh.
#[derive(Debug, PartialEq)]
pub struct Mesh {
    pub vertices: Vec<MeshVertex>,
    pub triangles: Vec<[usize; 3]>,
    /// For each vertex the position stream entry that it came from.
    pub position_indices: Vec<usize>,
    pub material_groups: Vec<MaterialGroup>,
    pub bounds: Aabb,
}

/// A mesh as mathematics.
#[verifier::ext_equal]
pub struct MeshModel {
    pub vertices: Seq<MeshVertex>,
    pub triangles: Seq<[usize; 3]>,
    pub position_indices: Seq<usize>,
    pub groups: Seq<GroupModel>,
    pub bounds: Aabb,
}

/// The views of a list of groups.
pub open spec fn group_models(groups: Seq<MaterialGroup>) -> Seq<GroupModel> {
    Seq::new(groups.len(), |i: int| groups[i]@)
}

impl View for Mesh {
    type V = MeshModel;

    open spec fn view(&self) -> MeshModel {
        MeshModel {
            vertices: self.vertices@,
            triangles: self.triangles@,
            position_indices: self.position_indices@,
            groups: group_models(self.material_groups@),
            bounds: self.bounds,
        }
    }
}

/// The box around the vertices of a list.
pub open spec fn bounds_of(vertices: Seq<MeshVertex>) -> Aabb {
    box_around(positions(vertices), vertices.len() as int)
}

/// The mesh with its tangents and its box derived anew.
pub open spec fn with_new_tangents(mesh: MeshModel) -> MeshModel {
    MeshModel {
        vertices: with_tangents(mesh.vertices, mesh.triangles),
        bounds: bounds_of(mesh.vertices),
        ..mesh
    }
}

/// The mesh with everything derived anew.
pub open spec fn rebuilt(mesh: MeshModel) -> MeshModel {
    with_new_tangents(
        MeshModel {
            vertices: with_normals(mesh.vertices, mesh.triangles, mesh.position_indices),
            ..mesh
        },
    )
}

/// The vertex as a new mesh takes it: without a normal it has a derived one.
pub open spec fn taken_in(vertex: MeshVertex) -> MeshVertex {
    plain_vertex(vertex.position, vertex.texcoord, vertex.normal, vertex.normal is None)
}

/// The mesh of these vertices and triangles, without groups.
pub open spec fn mesh_of(vertices: Seq<MeshVertex>, triangles: Seq<[usize; 3]>) -> MeshModel {
    rebuilt(
        MeshModel {
            vertices: Seq::new(vertices.len(), |i: int| taken_in(vertices[i])),
            triangles,
            position_indices: Seq::new(vertices.len(), |i: int| i as usize),
            groups: Seq::empty(),
            bounds: Aabb { min: nothing(), max: nothing() },
        },
    )
}

impl Mesh {
    pub fn new(vertices: Vec<MeshVertex>, triangles: Vec<[usize; 3]>) -> (result: Mesh)
        ensures
            result@ == mesh_of(vertices@, triangles@),
    {
        let mut taken: Vec<MeshVertex> = Vec::new();
        let mut position_indices: Vec<usize> = Vec::new();
        let mut i: usize = 0;
        while i < vertices.len()
            invariant
                i <= vertices@.len(),
                taken@ =~= Seq::new(i as nat, |j: int| taken_in(vertices@[j])),
                position_indices@ =~= Seq::new(i as nat, |j: int| j as usize),
            decreases vertices@.len() - i,
        {
            let vertex: MeshVertex = vertices[i];
            taken.push(
                MeshVertex::with_normal_source(
                    vertex.position,
                    vertex.texcoord,
                    vertex.normal,
                    vertex.normal.is_none(),
                ),
            );
            position_indices.push(i);
            i += 1;
        }
        let mut mesh: Mesh = Mesh {
            vertices: taken,
            triangles,
            position_indices,
            material_groups: Vec::new(),
            bounds: Aabb::empty(),
        };
        assert(mesh@.groups =~= Seq::<GroupModel>::empty());
        mesh.rebuild_derived_attributes();
        mesh
    }

    /// Derives normals, tangents and the box anew.
    pub(crate) fn rebuild_derived_attributes(&mut self)
        ensures
            final(self)@ == rebuilt(old(self)@),
    {
        generate_missing_normals(&mut self.vertices, &self.triangles, &self.position_indices);
        self.generate_tangents();
    }

    /// Derives the tangents, and the box, anew from the positions, texture coordinates and
    /// normals.
    pub fn generate_tangents(&mut self)
        ensures
            final(self)@ == with_new_tangents(old(self)@),
    {
        let ghost given = self.vertices@;
        generate_tangents(&mut self.vertices, &self.triangles);
        self.bounds = Aabb::from_vertices(self.vertices.as_slice());
        assert(positions(self.vertices@) =~= positions(given));
    }

    /// The box around the mesh.
    pub fn bounds(&self) -> (result: Aabb)
        ensures
            result == self@.bounds,
    {
        self.bounds
    }

    pub fn indices(&self) -> (result: &[[usize; 3]])
        ensures
            result@ == self@.triangles,
    {
        self.triangles.as_slice()
    }

    pub fn vertices(&self) -> (result: &[MeshVertex])
        ensures
            result@ == self@.vertices,
    {
        self.vertices.as_slice()
    }

    pub fn material_groups(&self) -> (result: &[MaterialGroup])
        ensures
            group_models(result@) == self@.groups,
    {
        self.material_groups.as_slice()
    }

    pub fn vertex(&self, index: usize) -> (result: Option<&MeshVertex>)
        ensures
            match result {
                Some(vertex) => index < self@.vertices.len() && *vertex
                    == self@.vertices[index as int],
                None => index >= self@.vertices.len(),
            },
    {
        if index < self.vertices.len() {
            Some(&self.vertices[index])
        } else {
            None
        }
    }

    /// The mesh that holds the triangles from `start` up to `end`, and all vertices.
    pub fn submesh(&self, start: usize, end: usize) -> (result: Option<Mesh>)
        ensures
            match result {
                Some(mesh) => start <= end <= self@.triangles.len() && mesh@ == (MeshModel {
                    vertices: self@.vertices,
                    triangles: self@.triangles.subrange(start as int, end as int),
                    position_indices: self@.position_indices,
                    groups: Seq::empty(),
                    bounds: self@.bounds,
                }),
                None => start > end || end > self@.triangles.len(),
            },
    {
        if start > end || end > self.triangles.len() {
            return None;
        }
        let mut triangles: Vec<[usize; 3]> = Vec::new();
        let mut i: usize = start;
        while i < end
            invariant
                start <= i <= end <= self.triangles@.len(),
                triangles@ =~= self.triangles@.subrange(start as int, i as int),
            decreases end - i,
        {
            triangles.push(self.triangles[i]);
            i += 1;
        }
        let mesh: Mesh = Mesh {
            vertices: copy_vertices(&self.vertices),
            triangles,
            position_indices: copy_indices(&self.position_indices),
            material_groups: Vec::new(),
            bounds: self.bounds,
        };
        assert(mesh@.groups =~= Seq::<GroupModel>::empty());
        Some(mesh)
    }

    /// Moves a vertex. Says whether there is one.
    pub fn set_vertex_position(&mut self, index: usize, position: Vec3) -> (result: bool)
        ensures
            result == (index < old(self)@.vertices.len()),
            !result ==> final(self)@ == old(self)@,
            result ==> final(self)@ == rebuilt(
                MeshModel {
                    vertices: old(self)@.vertices.update(
                        index as int,
                        MeshVertex { position, ..old(self)@.vertices[index as int] },
                    ),
                    ..old(self)@
                },
            ),
    {
        if index >= self.vertices.len() {
            return false;
        }
        let mut vertex: MeshVertex = self.vertices[index];
        vertex.position = position;
        self.vertices.set(index, vertex);
        self.rebuild_derived_attributes();
        true
    }

    /// Sets the texture coordinate of a vertex. The tangents depend on it.
    /// Says whether there is one.
    pub fn set_vertex_texcoord(&mut self, index: usize, texcoord: Option<Vec2>) -> (result: bool)
        ensures
            result == (index < old(self)@.vertices.len()),
            !result ==> final(self)@ == old(self)@,
            result ==> final(self)@ == with_new_tangents(
                MeshModel {
                    vertices: old(self)@.vertices.update(
                        index as int,
                        MeshVertex { texcoord, ..old(self)@.vertices[index as int] },
                    ),
                    ..old(self)@
                },
            ),
    {
        if index >= self.vertices.len() {
            return false;
        }
        let mut vertex: MeshVertex = self.vertices[index];
        vertex.texcoord = texcoord;
        self.vertices.set(index, vertex);
        self.generate_tangents();
        true
    }

    /// Sets the normal of a vertex, or has it derived. Says whether there is one.
    pub fn set_vertex_normal(&mut self, index: usize, normal: Option<Vec3>) -> (result: bool)
        ensures
            result == (index < old(self)@.vertices.len()),
            !result ==> final(self)@ == old(self)@,
            result ==> final(self)@ == rebuilt(
                MeshModel {
                    vertices: old(self)@.vertices.update(
                        index as int,
                        MeshVertex {
                            normal,
                            normal_derived: normal is None,
                            ..old(self)@.vertices[index as int]
                        },
                    ),
                    ..old(self)@
                },
            ),
    {
        if index >= self.vertices.len() {
            return false;
        }
        let mut vertex: MeshVertex = self.vertices[index];
        vertex.normal = normal;
        vertex.normal_derived = normal.is_none();
        self.vertices.set(index, vertex);
        self.rebuild_derived_attributes();
        true
    }

    /// Replaces the triangles, which leaves no material group.
    pub fn set_indices(&mut self, triangles: Vec<[usize; 3]>)
        ensures
            final(self)@ == rebuilt(
                MeshModel { triangles: triangles@, groups: Seq::empty(), ..old(self)@ },
            ),
    {
        self.triangles = triangles;
        self.material_groups = Vec::new();
        assert(self@.groups =~= Seq::<GroupModel>::empty());
        self.rebuild_derived_attributes();
    }
}

/// A copy of a mesh.
pub fn copy_mesh(mesh: &Mesh) -> (result: Mesh)
    ensures
        result@ == mesh@,
{
    let mut triangles: Vec<[usize; 3]> = Vec::new();
    let mut t: usize = 0;
    while t < mesh.triangles.len()
        invariant
            t <= mesh.triangles@.len(),
            triangles@ =~= mesh.triangles@.take(t as int),
        decreases mesh.triangles@.len() - t,
    {
        triangles.push(mesh.triangles[t]);
        t += 1;
    }
    let mut groups: Vec<MaterialGroup> = Vec::new();
    let mut g: usize = 0;
    while g < mesh.material_groups.len()
        invariant
            g <= mesh.material_groups@.len(),
            group_models(groups@) =~= group_models(mesh.material_groups@).take(g as int),
        decreases mesh.material_groups@.len() - g,
    {
        let group: &MaterialGroup = &mesh.material_groups[g];
        let ghost before = groups@;
        groups.push(MaterialGroup::new(group.material_name.as_str(), group.start, group.end));
        assert(group_models(groups@) =~= group_models(before).push(groups@[g as int]@));
        g += 1;
    }
    let copy: Mesh = Mesh {
        vertices: copy_vertices(&mesh.vertices),
        triangles,
        position_indices: copy_indices(&mesh.position_indices),
        material_groups: groups,
        bounds: mesh.bounds,
    };
    assert(copy@ =~= mesh@);
    copy
}

/// A copy of a list of vertices.
pub fn copy_vertices(vertices: &Vec<MeshVertex>) -> (result: Vec<MeshVertex>)
    ensures
        result@ == vertices@,
{
    let mut copy: Vec<MeshVertex> = Vec::new();
    let mut i: usize = 0;
    while i < vertices.len()
        invariant
            i <= vertices@.len(),
            copy@ =~= vertices@.take(i as int),
        decreases vertices@.len() - i,
    {
        copy.push(vertices[i]);
        i += 1;
    }
    assert(vertices@.take(vertices@.len() as int) =~= vertices@);
    copy
}

/// A copy of a list of indices.
pub fn copy_indices(indices: &Vec<usize>) -> (result: Vec<usize>)
    ensures
        result@ == indices@,
{
    let mut copy: Vec<usize> = Vec::new();
    let mut i: usize = 0;
    while i < indices.len()
        invariant
            i <= indices@.len(),
            copy@ =~= indices@.take(i as int),
        decreases indices@.len() - i,
    {
        copy.push(indices[i]);
        i += 1;
    }
    assert(indices@.take(indices@.len() as int) =~= indices@);
    copy
}

} // verus!
