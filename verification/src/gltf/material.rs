//! Materials and what a draw takes from them.

use crate::fb::argb8888;
use crate::float::{Float32, ONE};
use crate::gltf::buffers::or_default;
use crate::gltf::collect::{collected, lemma_collected_all, lemma_collected_next};
use crate::gltf::error::{gives, yields, GltfError, Outcome};
use crate::gltf::fields::{
    array_or_empty, as_object, get_array_or_empty, get_optional_f32, get_optional_f32_array,
    get_optional_object, get_optional_string, get_text_or_empty, get_usize, members_of_optional,
    object_of, optional_object, optional_single, optional_singles, optional_text, required_usize,
    text_or_empty, Members,
};
use crate::gltf::node::{quadruple_from, vec4};
use crate::json::{member_models, models, Model, Value};
use crate::math::{Vec3, Vec4};
use crate::text::same_text;
use vstd::prelude::*;

verus! {

/// How alpha is used.
#[derive(Clone, Copy, PartialEq, Eq, Structural, Debug)]
pub enum GltfAlphaMode {
    Opaque,
    Blend,
    Mask,
}

/// A material of a document. Textures are named by the index of their image.
#[derive(Debug, PartialEq)]
pub struct GltfMaterial {
    pub name: String,
    pub base_color_factor: Vec4,
    pub metallic_factor: Float32,
    pub roughness_factor: Float32,
    /// The image whose colors are taken as sRGB.
    pub albedo_texture: Option<usize>,
    /// The image whose colors are taken as linear.
    pub normal_map_texture: Option<usize>,
    pub alpha_mode: GltfAlphaMode,
    pub alpha_cutoff: Float32,
}

/// A material as mathematics.
#[verifier::ext_equal]
pub struct MaterialModel {
    pub name: Seq<char>,
    pub base_color_factor: Vec4,
    pub metallic_factor: Float32,
    pub roughness_factor: Float32,
    pub albedo_texture: Option<usize>,
    pub normal_map_texture: Option<usize>,
    pub alpha_mode: GltfAlphaMode,
    pub alpha_cutoff: Float32,
}

impl View for GltfMaterial {
    type V = MaterialModel;

    open spec fn view(&self) -> MaterialModel {
        MaterialModel {
            name: self.name@,
            base_color_factor: self.base_color_factor,
            metallic_factor: self.metallic_factor,
            roughness_factor: self.roughness_factor,
            albedo_texture: self.albedo_texture,
            normal_map_texture: self.normal_map_texture,
            alpha_mode: self.alpha_mode,
            alpha_cutoff: self.alpha_cutoff,
        }
    }
}

/// The views of a list of materials.
pub open spec fn material_models(materials: Seq<GltfMaterial>) -> Seq<MaterialModel> {
    Seq::new(materials.len(), |i: int| materials[i]@)
}

/// The image of a texture.
pub open spec fn texture_from(value: Model) -> Outcome<usize> {
    match object_of(value, "texture"@) {
        Err(message) => Err(message),
        Ok(o) => required_usize(o, "source"@),
    }
}

/// The image of each texture.
pub open spec fn textures_from(o: Members) -> Outcome<Seq<usize>> {
    match array_or_empty(o, "textures"@) {
        Err(message) => Err(message),
        Ok(items) => collected(items, |i: int, value: Model| texture_from(value)),
    }
}

fn parse_texture(value: &Value) -> (result: Result<usize, GltfError>)
    ensures
        gives(result, texture_from(value@)),
{
    let o: &[(String, Value)] = as_object(value, "texture")?;
    get_usize(o, "source")
}

/// Reads the image of each texture.
pub fn parse_textures(object: &[(String, Value)]) -> (result: Result<Vec<usize>, GltfError>)
    ensures
        yields(result, textures_from(member_models(object@)), |textures: Vec<usize>| textures@),
{
    let items: &[Value] = get_array_or_empty(object, "textures")?;
    let ghost all = models(items@);
    let ghost read = |i: int, value: Model| texture_from(value);
    let mut textures: Vec<usize> = Vec::new();
    let mut i: usize = 0;
    proof {
        lemma_collected_all(all, read);
    }
    while i < items.len()
        invariant
            i <= items@.len(),
            all == models(items@),
            read == (|i: int, value: Model| texture_from(value)),
            textures_from(member_models(object@)) == collected(all, read),
            collected(all.take(i as int), read) == Ok::<Seq<usize>, Seq<char>>(textures@),
        decreases items@.len() - i,
    {
        proof {
            lemma_collected_next(all, read, i as int);
        }
        match parse_texture(&items[i]) {
            Ok(texture) => {
                textures.push(texture);
            },
            Err(error) => {
                return Err(error);
            },
        }
        i += 1;
    }
    proof {
        lemma_collected_all(all, read);
    }
    Ok(textures)
}

/// The image that a texture reference leads to.
pub open spec fn referenced_image(o: Members, textures: Seq<usize>, images: nat) -> Outcome<usize> {
    match required_usize(o, "index"@) {
        Err(message) => Err(message),
        Ok(index) => if index >= textures.len() {
            Err("texture index is out of range"@)
        } else if textures[index as int] >= images {
            Err("image index is out of range"@)
        } else {
            Ok(textures[index as int])
        },
    }
}

/// The image that an optional texture reference leads to.
pub open spec fn optional_image(
    o: Members,
    key: Seq<char>,
    textures: Seq<usize>,
    images: nat,
) -> Outcome<Option<usize>> {
    match optional_object(o, key) {
        Err(message) => Err(message),
        Ok(None) => Ok(None),
        Ok(Some(reference)) => match referenced_image(reference, textures, images) {
            Err(message) => Err(message),
            Ok(image) => Ok(Some(image)),
        },
    }
}

fn texture_from_ref(o: &[(String, Value)], textures: &[usize], images: usize) -> (result: Result<
    usize,
    GltfError,
>)
    ensures
        gives(result, referenced_image(member_models(o@), textures@, images as nat)),
{
    let index: usize = get_usize(o, "index")?;
    if index >= textures.len() {
        return Err(GltfError::new("texture index is out of range"));
    }
    if textures[index] >= images {
        return Err(GltfError::new("image index is out of range"));
    }
    Ok(textures[index])
}

fn get_optional_image(
    o: &[(String, Value)],
    key: &str,
    textures: &[usize],
    images: usize,
) -> (result: Result<Option<usize>, GltfError>)
    ensures
        gives(result, optional_image(member_models(o@), key@, textures@, images as nat)),
{
    match get_optional_object(o, key)? {
        None => Ok(None),
        Some(reference) => Ok(Some(texture_from_ref(reference, textures, images)?)),
    }
}

/// Four ones.
pub open spec fn four_ones() -> Seq<Float32> {
    seq![
        Float32 { bits: ONE },
        Float32 { bits: ONE },
        Float32 { bits: ONE },
        Float32 { bits: ONE },
    ]
}

/// The base color of a material, white where it gives none.
pub open spec fn base_color(pbr: Option<Members>) -> Outcome<Vec4> {
    let found = match pbr {
        None => Ok(None),
        Some(o) => optional_singles(o, "baseColorFactor"@),
    };
    match found {
        Err(message) => Err(message),
        Ok(values) => match quadruple_from(
            or_default(values, four_ones()),
            "baseColorFactor"@,
        ) {
            Err(message) => Err(message),
            Ok(v) => Ok(Vec4 { x: v[0], y: v[1], z: v[2], w: v[3] }),
        },
    }
}

/// A factor of a material, one where it gives none.
pub open spec fn factor(pbr: Option<Members>, key: Seq<char>) -> Outcome<Float32> {
    match pbr {
        None => Ok(Float32 { bits: ONE }),
        Some(o) => match optional_single(o, key) {
            Err(message) => Err(message),
            Ok(value) => Ok(or_default(value, Float32 { bits: ONE })),
        },
    }
}

/// The alpha mode of a material, opaque where it names none.
pub open spec fn alpha_mode_of(o: Members) -> Outcome<GltfAlphaMode> {
    match optional_text(o, "alphaMode"@) {
        Err(message) => Err(message),
        Ok(None) => Ok(GltfAlphaMode::Opaque),
        Ok(Some(name)) => if name == "OPAQUE"@ {
            Ok(GltfAlphaMode::Opaque)
        } else if name == "BLEND"@ {
            Ok(GltfAlphaMode::Blend)
        } else if name == "MASK"@ {
            Ok(GltfAlphaMode::Mask)
        } else {
            Err("unsupported alphaMode "@ + name)
        },
    }
}

/// The albedo image of a material.
pub open spec fn albedo_image(pbr: Option<Members>, textures: Seq<usize>, images: nat) -> Outcome<
    Option<usize>,
> {
    match pbr {
        None => Ok(None),
        Some(o) => optional_image(o, "baseColorTexture"@, textures, images),
    }
}

/// The bits of one half.
pub const HALF: u32 = 0x3f00_0000;

/// A material. The alpha mode MASK is refused, as fragments cannot be discarded.
pub open spec fn material_from(value: Model, textures: Seq<usize>, images: nat) -> Outcome<
    MaterialModel,
> {
    match object_of(value, "material"@) {
        Err(message) => Err(message),
        Ok(o) => match optional_object(o, "pbrMetallicRoughness"@) {
            Err(message) => Err(message),
            Ok(pbr) => match base_color(pbr) {
                Err(message) => Err(message),
                Ok(base_color_factor) => match factor(pbr, "metallicFactor"@) {
                    Err(message) => Err(message),
                    Ok(metallic_factor) => match factor(pbr, "roughnessFactor"@) {
                        Err(message) => Err(message),
                        Ok(roughness_factor) => match alpha_mode_of(o) {
                            Err(message) => Err(message),
                            Ok(alpha_mode) => match optional_single(o, "alphaCutoff"@) {
                                Err(message) => Err(message),
                                Ok(cutoff) => if alpha_mode == GltfAlphaMode::Mask {
                                    Err(
                                        "alphaMode MASK unsupported: fragment discard is not implemented"@,
                                    )
                                } else {
                                    match albedo_image(pbr, textures, images) {
                                        Err(message) => Err(message),
                                        Ok(albedo_texture) => match optional_image(
                                            o,
                                            "normalTexture"@,
                                            textures,
                                            images,
                                        ) {
                                            Err(message) => Err(message),
                                            Ok(normal_map_texture) => match text_or_empty(
                                                o,
                                                "name"@,
                                            ) {
                                                Err(message) => Err(message),
                                                Ok(name) => Ok(
                                                    MaterialModel {
                                                        name,
                                                        base_color_factor,
                                                        metallic_factor,
                                                        roughness_factor,
                                                        albedo_texture,
                                                        normal_map_texture,
                                                        alpha_mode,
                                                        alpha_cutoff: or_default(
                                                            cutoff,
                                                            Float32 { bits: HALF },
                                                        ),
                                                    },
                                                ),
                                            },
                                        },
                                    }
                                },
                            },
                        },
                    },
                },
            },
        },
    }
}

pub open spec fn materials_from(o: Members, textures: Seq<usize>, images: nat) -> Outcome<
    Seq<MaterialModel>,
> {
    match array_or_empty(o, "materials"@) {
        Err(message) => Err(message),
        Ok(items) => collected(
            items,
            |i: int, value: Model| material_from(value, textures, images),
        ),
    }
}

fn get_base_color(pbr: Option<&[(String, Value)]>) -> (result: Result<Vec4, GltfError>)
    ensures
        yields(result, base_color(members_of_optional(pbr)), |color: Vec4| color),
{
    let one: Float32 = Float32 { bits: ONE };
    let found: Option<Vec<Float32>> = match pbr {
        None => None,
        Some(o) => get_optional_f32_array(o, "baseColorFactor")?,
    };
    match found {
        None => Ok(Vec4 { x: one, y: one, z: one, w: one }),
        Some(values) => {
            let v: [Float32; 4] = vec4(&values, "baseColorFactor")?;
            Ok(Vec4 { x: v[0], y: v[1], z: v[2], w: v[3] })
        },
    }
}

fn get_factor(pbr: Option<&[(String, Value)]>, key: &str) -> (result: Result<Float32, GltfError>)
    ensures
        gives(result, factor(members_of_optional(pbr), key@)),
{
    match pbr {
        None => Ok(Float32 { bits: ONE }),
        Some(o) => Ok(get_optional_f32(o, key)?.unwrap_or(Float32 { bits: ONE })),
    }
}

fn get_alpha_mode(o: &[(String, Value)]) -> (result: Result<GltfAlphaMode, GltfError>)
    ensures
        gives(result, alpha_mode_of(member_models(o@))),
{
    match get_optional_string(o, "alphaMode")? {
        None => Ok(GltfAlphaMode::Opaque),
        Some(name) => {
            if same_text(name, "OPAQUE") {
                Ok(GltfAlphaMode::Opaque)
            } else if same_text(name, "BLEND") {
                Ok(GltfAlphaMode::Blend)
            } else if same_text(name, "MASK") {
                Ok(GltfAlphaMode::Mask)
            } else {
                Err(GltfError::about("unsupported alphaMode ", name))
            }
        },
    }
}

fn parse_material(value: &Value, textures: &[usize], images: usize) -> (result: Result<
    GltfMaterial,
    GltfError,
>)
    ensures
        yields(
            result,
            material_from(value@, textures@, images as nat),
            |material: GltfMaterial| material@,
        ),
{
    let o: &[(String, Value)] = as_object(value, "material")?;
    let pbr: Option<&[(String, Value)]> = get_optional_object(o, "pbrMetallicRoughness")?;
    let base_color_factor: Vec4 = get_base_color(pbr)?;
    let metallic_factor: Float32 = get_factor(pbr, "metallicFactor")?;
    let roughness_factor: Float32 = get_factor(pbr, "roughnessFactor")?;
    let alpha_mode: GltfAlphaMode = get_alpha_mode(o)?;
    let cutoff: Option<Float32> = get_optional_f32(o, "alphaCutoff")?;
    if alpha_mode == GltfAlphaMode::Mask {
        return Err(
            GltfError::new("alphaMode MASK unsupported: fragment discard is not implemented"),
        );
    }
    let albedo_texture: Option<usize> = match pbr {
        None => None,
        Some(p) => get_optional_image(p, "baseColorTexture", textures, images)?,
    };
    let normal_map_texture: Option<usize> = get_optional_image(
        o,
        "normalTexture",
        textures,
        images,
    )?;
    let name: String = get_text_or_empty(o, "name")?;
    Ok(
        GltfMaterial {
            name,
            base_color_factor,
            metallic_factor,
            roughness_factor,
            albedo_texture,
            normal_map_texture,
            alpha_mode,
            alpha_cutoff: cutoff.unwrap_or(Float32 { bits: HALF }),
        },
    )
}

/// Reads the materials of a document with `images` images.
pub fn parse_materials(object: &[(String, Value)], textures: &[usize], images: usize) -> (result:
    Result<Vec<GltfMaterial>, GltfError>)
    ensures
        yields(
            result,
            materials_from(member_models(object@), textures@, images as nat),
            |materials: Vec<GltfMaterial>| material_models(materials@),
        ),
{
    let items: &[Value] = get_array_or_empty(object, "materials")?;
    let ghost all = models(items@);
    let ghost known = textures@;
    let ghost read = |i: int, value: Model| material_from(value, known, images as nat);
    let mut materials: Vec<GltfMaterial> = Vec::new();
    let mut i: usize = 0;
    proof {
        lemma_collected_all(all, read);
        assert(material_models(materials@) =~= Seq::empty());
    }
    while i < items.len()
        invariant
            i <= items@.len(),
            all == models(items@),
            known == textures@,
            read == (|i: int, value: Model| material_from(value, known, images as nat)),
            materials_from(member_models(object@), known, images as nat) == collected(all, read),
            collected(all.take(i as int), read) == Ok::<Seq<MaterialModel>, Seq<char>>(
                material_models(materials@),
            ),
        decreases items@.len() - i,
    {
        proof {
            lemma_collected_next(all, read, i as int);
        }
        match parse_material(&items[i], textures, images) {
            Ok(material) => {
                let ghost before = material_models(materials@);
                let ghost found = material@;
                materials.push(material);
                assert(material_models(materials@) =~= before.push(found));
            },
            Err(error) => {
                return Err(error);
            },
        }
        i += 1;
    }
    proof {
        lemma_collected_all(all, read);
    }
    Ok(materials)
}

/// What the shading of a draw takes from its material.
#[derive(Clone, Copy, PartialEq, Debug)]
pub struct GltfMaterialParameters {
    pub base_color: Vec3,
    pub metallic: Float32,
    pub roughness: Float32,
    pub alpha: Float32,
}

/// The parameters of a draw without a material.
pub open spec fn default_parameters() -> GltfMaterialParameters {
    let one = Float32 { bits: ONE };
    GltfMaterialParameters {
        base_color: Vec3 { x: one, y: one, z: one },
        metallic: one,
        roughness: one,
        alpha: one,
    }
}

/// The factors of a material as they are. An opaque material has full alpha.
pub open spec fn parameters_of(material: MaterialModel) -> GltfMaterialParameters {
    let color = material.base_color_factor;
    GltfMaterialParameters {
        base_color: Vec3 { x: color.x, y: color.y, z: color.z },
        metallic: material.metallic_factor,
        roughness: material.roughness_factor,
        alpha: if material.alpha_mode == GltfAlphaMode::Opaque {
            Float32 { bits: ONE }
        } else {
            color.w.clamped_to_unit()
        },
    }
}

impl GltfMaterial {
    /// What the shading takes from the material.
    pub fn render_parameters(&self) -> (result: GltfMaterialParameters)
        ensures
            result == parameters_of(self@),
    {
        let color: Vec4 = self.base_color_factor;
        GltfMaterialParameters {
            base_color: Vec3 { x: color.x, y: color.y, z: color.z },
            metallic: self.metallic_factor,
            roughness: self.roughness_factor,
            alpha: if self.alpha_mode == GltfAlphaMode::Opaque {
                Float32 { bits: ONE }
            } else {
                color.w.clamp_to_unit()
            },
        }
    }
}

/// The textures that a draw samples.
#[derive(Clone, Copy, PartialEq, Eq, Structural, Debug)]
pub enum DrawTextures {
    Plain,
    Textured { albedo: usize },
    NormalMapped { albedo: usize, normal_map: usize },
}

/// How one draw is shaded.
#[derive(Clone, Copy, PartialEq, Debug)]
pub struct DrawPlan {
    pub parameters: GltfMaterialParameters,
    pub textures: DrawTextures,
    pub alpha_mode: GltfAlphaMode,
}

/// How a draw with this material is shaded. A normal map counts only beside an albedo texture.
pub open spec fn plan_of(material: Option<usize>, materials: Seq<MaterialModel>) -> Outcome<
    DrawPlan,
> {
    match material {
        None => Ok(
            DrawPlan {
                parameters: default_parameters(),
                textures: DrawTextures::Plain,
                alpha_mode: GltfAlphaMode::Opaque,
            },
        ),
        Some(index) => if index >= materials.len() {
            Err("draw material index is out of range"@)
        } else {
            let found = materials[index as int];
            Ok(
                DrawPlan {
                    parameters: parameters_of(found),
                    textures: match (found.albedo_texture, found.normal_map_texture) {
                        (Some(albedo), Some(normal_map)) => DrawTextures::NormalMapped {
                            albedo,
                            normal_map,
                        },
                        (Some(albedo), None) => DrawTextures::Textured { albedo },
                        (None, _) => DrawTextures::Plain,
                    },
                    alpha_mode: found.alpha_mode,
                },
            )
        },
    }
}

/// Decides how a draw is shaded.
pub fn plan_draw(material: Option<usize>, materials: &[GltfMaterial]) -> (result: Result<
    DrawPlan,
    GltfError,
>)
    ensures
        gives(result, plan_of(material, material_models(materials@))),
{
    let one: Float32 = Float32 { bits: ONE };
    match material {
        None => Ok(
            DrawPlan {
                parameters: GltfMaterialParameters {
                    base_color: Vec3 { x: one, y: one, z: one },
                    metallic: one,
                    roughness: one,
                    alpha: one,
                },
                textures: DrawTextures::Plain,
                alpha_mode: GltfAlphaMode::Opaque,
            },
        ),
        Some(index) => {
            if index >= materials.len() {
                return Err(GltfError::new("draw material index is out of range"));
            }
            let found: &GltfMaterial = &materials[index];
            let textures: DrawTextures = match (found.albedo_texture, found.normal_map_texture) {
                (Some(albedo), Some(normal_map)) => DrawTextures::NormalMapped {
                    albedo,
                    normal_map,
                },
                (Some(albedo), None) => DrawTextures::Textured { albedo },
                (None, _) => DrawTextures::Plain,
            };
            Ok(
                DrawPlan {
                    parameters: found.render_parameters(),
                    textures,
                    alpha_mode: found.alpha_mode,
                },
            )
        },
    }
}

/// The pixel with full alpha.
pub fn force_opaque_alpha(pixel: u32) -> (result: u32)
    ensures
        result == 0xff00_0000 + pixel % 0x100_0000,
{
    let color: u32 = pixel % 0x100_0000;
    let red: u8 = (color / 0x1_0000) as u8;
    let rest: u32 = color % 0x1_0000;
    let green: u8 = (rest / 0x100) as u8;
    let blue: u8 = (rest % 0x100) as u8;
    argb8888(255, red, green, blue)
}

/// The bits of four hundredths.
pub const DIELECTRIC: u32 = 0x3d23_d70a;

/// The bits of ninety-six hundredths.
pub const METALLIC_RANGE: u32 = 0x3f75_c28f;

/// The bits of a hundred and twenty-eight.
pub const SHININESS_RANGE: u32 = 0x4300_0000;

/// A material for surfaces that have a diffuse color, a specular color, a shininess and an
/// opacity.
#[derive(Clone, Copy, PartialEq, Debug)]
pub struct BlinnPhongParameters {
    pub diffuse: Vec3,
    pub specular: Vec3,
    pub shininess: Float32,
    pub alpha: Float32,
}

/// A material as diffuse and specular color. The diffuse color is what the metal leaves of the
/// base color, the specular color goes from four hundredths to white, and the shininess from a
/// hundred and twenty-nine for smooth surfaces to one for rough ones.
pub open spec fn blinn_phong_of(material: MaterialModel) -> BlinnPhongParameters {
    let one = Float32 { bits: ONE };
    let color = material.base_color_factor;
    let metallic = material.metallic_factor.clamped_to_unit();
    let roughness = material.roughness_factor.clamped_to_unit();
    let specular = (Float32 { bits: DIELECTRIC }) + (Float32 { bits: METALLIC_RANGE }) * metallic;
    BlinnPhongParameters {
        diffuse: (Vec3 { x: color.x, y: color.y, z: color.z }) * (one - metallic),
        specular: Vec3 { x: specular, y: specular, z: specular },
        shininess: one + (one - roughness) * (Float32 { bits: SHININESS_RANGE }),
        alpha: color.w.clamped_to_unit(),
    }
}

impl GltfMaterial {
    /// The material as diffuse and specular color.
    pub fn blinn_phong_parameters(&self) -> (result: BlinnPhongParameters)
        ensures
            result == blinn_phong_of(self@),
    {
        let one: Float32 = Float32 { bits: ONE };
        let color: Vec4 = self.base_color_factor;
        let metallic: Float32 = self.metallic_factor.clamp_to_unit();
        let roughness: Float32 = self.roughness_factor.clamp_to_unit();
        let specular: Float32 = Float32 { bits: DIELECTRIC } + Float32 { bits: METALLIC_RANGE }
            * metallic;
        BlinnPhongParameters {
            diffuse: Vec3 { x: color.x, y: color.y, z: color.z } * (one - metallic),
            specular: Vec3 { x: specular, y: specular, z: specular },
            shininess: one + (one - roughness) * Float32 { bits: SHININESS_RANGE },
            alpha: color.w.clamp_to_unit(),
        }
    }
}

impl DrawPlan {
    /// Whether what is drawn hides everything behind it, as far as the alpha mode decides that.
    pub fn is_opaque(&self) -> (result: Option<bool>)
        ensures
            result == match self.alpha_mode {
                GltfAlphaMode::Opaque => Some(true),
                GltfAlphaMode::Blend => Some(false),
                GltfAlphaMode::Mask => None,
            },
    {
        match self.alpha_mode {
            GltfAlphaMode::Opaque => Some(true),
            GltfAlphaMode::Blend => Some(false),
            GltfAlphaMode::Mask => None,
        }
    }

    /// The pixel of a draw from the pixel that its textures gave: without opacity of its own where
    /// the draw is opaque.
    pub fn finish_pixel(&self, pixel: u32) -> (result: u32)
        ensures
            result == if self.alpha_mode == GltfAlphaMode::Opaque && !(self.textures is Plain) {
                (0xff00_0000 + pixel % 0x100_0000) as u32
            } else {
                pixel
            },
    {
        if self.alpha_mode != GltfAlphaMode::Opaque {
            return pixel;
        }
        match self.textures {
            DrawTextures::Plain => pixel,
            _ => force_opaque_alpha(pixel),
        }
    }
}

/// The bits of the ambient light in each channel, a tenth.
pub const AMBIENT_LIGHT: u32 = 0x3dcc_cccd;

/// The light that a draw is shaded by: ambient light, one directional light, and a point light
/// whose attenuation is constant, linear and quadratic.
#[derive(Clone, Copy, Debug, PartialEq)]
pub struct DrawLighting {
    pub ambient: Vec3,
    pub direction: Vec3,
    pub color: Vec3,
    pub point_position: Vec3,
    pub point_color: Vec3,
    pub attenuation: Vec3,
    pub diffuse: Vec3,
    pub specular: Vec3,
    pub shininess: Float32,
    pub alpha: Float32,
}

/// The direction that the light of every draw comes along, before it is normalized.
pub open spec fn light_slope() -> Vec3 {
    Vec3 {
        x: Float32 { bits: 0xbecc_cccd },
        y: Float32 { bits: 0xbf4c_cccd },
        z: Float32 { bits: 0xbf19_999a },
    }
}

/// The light that every draw is shaded by: it comes from above, and the point light is dark. Only
/// the opacity follows the material.
pub open spec fn lighting_of(parameters: GltfMaterialParameters) -> DrawLighting {
    let nothing = Vec3 { x: Float32 { bits: 0 }, y: Float32 { bits: 0 }, z: Float32 { bits: 0 } };
    let ambient = Float32 { bits: AMBIENT_LIGHT };
    DrawLighting {
        ambient: Vec3 { x: ambient, y: ambient, z: ambient },
        direction: light_slope().unit(),
        color: Vec3 {
            x: Float32 { bits: ONE },
            y: Float32 { bits: 0x3f73_3333 },
            z: Float32 { bits: 0x3f66_6666 },
        },
        point_position: nothing,
        point_color: nothing,
        attenuation: Vec3 { x: Float32 { bits: ONE }, ..nothing },
        diffuse: nothing,
        specular: nothing,
        shininess: Float32 { bits: 0 },
        alpha: parameters.alpha,
    }
}

/// The light that a draw with these parameters is shaded by.
pub fn draw_lighting(parameters: GltfMaterialParameters) -> (result: DrawLighting)
    ensures
        result == lighting_of(parameters),
{
    let zero: Float32 = Float32 { bits: 0 };
    let one: Float32 = Float32 { bits: ONE };
    let ambient: Float32 = Float32 { bits: AMBIENT_LIGHT };
    let nothing: Vec3 = Vec3 { x: zero, y: zero, z: zero };
    let slope: Vec3 = Vec3 {
        x: Float32 { bits: 0xbecc_cccd },
        y: Float32 { bits: 0xbf4c_cccd },
        z: Float32 { bits: 0xbf19_999a },
    };
    DrawLighting {
        ambient: Vec3 { x: ambient, y: ambient, z: ambient },
        direction: slope.normalize(),
        color: Vec3 {
            x: one,
            y: Float32 { bits: 0x3f73_3333 },
            z: Float32 { bits: 0x3f66_6666 },
        },
        point_position: nothing,
        point_color: nothing,
        attenuation: Vec3 { x: one, y: zero, z: zero },
        diffuse: nothing,
        specular: nothing,
        shininess: zero,
        alpha: parameters.alpha,
    }
}

/// How draws with these materials are shaded, if those before `index` are shaded as `found`.
pub open spec fn plans_from(
    wanted: Seq<Option<usize>>,
    materials: Seq<MaterialModel>,
    index: int,
    found: Seq<DrawPlan>,
) -> Outcome<Seq<DrawPlan>>
    decreases wanted.len() - index,
{
    if !(0 <= index < wanted.len()) {
        Ok(found)
    } else {
        match plan_of(wanted[index], materials) {
            Ok(plan) => plans_from(wanted, materials, index + 1, found.push(plan)),
            Err(message) => Err(message),
        }
    }
}

/// Decides how draws are shaded: the first that names no material decides the error.
pub fn plan_draws(wanted: &[Option<usize>], materials: &[GltfMaterial]) -> (result: Result<
    Vec<DrawPlan>,
    GltfError,
>)
    ensures
        yields(
            result,
            plans_from(wanted@, material_models(materials@), 0, Seq::empty()),
            |plans: Vec<DrawPlan>| plans@,
        ),
{
    let ghost start = plans_from(wanted@, material_models(materials@), 0, Seq::empty());
    let mut plans: Vec<DrawPlan> = Vec::new();
    let mut i: usize = 0;
    assert(plans@ =~= Seq::empty());
    while i < wanted.len()
        invariant
            i <= wanted@.len(),
            start == plans_from(wanted@, material_models(materials@), 0, Seq::empty()),
            start == plans_from(wanted@, material_models(materials@), i as int, plans@),
        decreases wanted@.len() - i,
    {
        match plan_draw(wanted[i], materials) {
            Ok(plan) => {
                plans.push(plan);
            },
            Err(error) => {
                return Err(error);
            },
        }
        i += 1;
    }
    Ok(plans)
}

} // verus!
