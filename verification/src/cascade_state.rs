//! What is known of a cascaded shadow before its maps are sampled: the ends of the cascades, the
//! projection of the light for each of them, and where and with which bias a point is looked up.

use crate::cascade_fit::{
    fit_cascade_light_projection_with_casters, fitted_light, slice_corners,
};
use crate::csm::{
    allowed_count, band_widths, cascade_blend_widths, cascade_index, cascade_of,
    cascade_sample_pair, desired_splits, effective_cascade_count, finite_point, have_room,
    law_splits_are_distinct, pair_from, point_in_range,
    practical_split_depths, split_at, supported_count, CascadeShadowConfig, SamplePair,
    MAX_CASCADES, TENTH,
};
use crate::culling::{greatest, maximum};
use crate::float::{Float32, HALF, ONE, TWO};
use crate::math::{mapped, transform_point, Mat4, Vec2, Vec3, Vec4};
use crate::mesh::Mesh;
use crate::qem::THOUSANDTH;
use vstd::prelude::*;
use vstd::string::*;

verus! {

/// How long the linear part of a row of a matrix is.
pub open spec fn row_scale(matrix: Mat4, row: int) -> Float32 {
    let x = matrix@[row];
    let y = matrix@[row + 4];
    let z = matrix@[row + 8];
    (x * x + y * y + z * z).root()
}

/// How long the linear part of a row of a matrix is.
pub fn matrix_row_scale(matrix: Mat4, row: usize) -> (result: Float32)
    requires
        row < 4,
    ensures
        result == row_scale(matrix, row as int),
{
    let x: Float32 = matrix.data[row];
    let y: Float32 = matrix.data[row + 4];
    let z: Float32 = matrix.data[row + 8];
    (x * x + y * y + z * z).sqrt()
}

/// How far the projected range reaches along a row.
pub open spec fn row_extent(matrix: Mat4, row: int) -> Float32 {
    (Float32 { bits: TWO }) / greatest(row_scale(matrix, row), Float32 { bits: THOUSANDTH })
}

fn find_row_extent(matrix: Mat4, row: usize) -> (result: Float32)
    requires
        row < 4,
    ensures
        result == row_extent(matrix, row as int),
{
    Float32 { bits: TWO } / maximum(matrix_row_scale(matrix, row), Float32 { bits: THOUSANDTH })
}

/// The size of a shadow map in texels.
#[derive(Clone, Copy, Debug, PartialEq, Eq, Structural)]
pub struct MapSize {
    pub width: usize,
    pub height: usize,
}

/// A length in texels, at least one.
pub open spec fn texels_along(size: usize) -> Float32 {
    Float32::of_integer(
        false,
        if size < 1 {
            1
        } else {
            size as nat
        },
    )
}

fn count_texels(size: usize) -> (result: Float32)
    ensures
        result == texels_along(size),
{
    Float32::from_integer(
        false,
        if size < 1 {
            1
        } else {
            size as u64
        },
    )
}

/// How large a texel of a map is in the world, along the axis on which it is larger.
pub open spec fn texel_extent(matrix: Mat4, size: MapSize) -> Float32 {
    greatest(
        row_extent(matrix, 0) / texels_along(size.width),
        row_extent(matrix, 1) / texels_along(size.height),
    )
}

/// How large a texel of a map is in the world.
pub fn world_texel_size(matrix: Mat4, size: MapSize) -> (result: Float32)
    ensures
        result == texel_extent(matrix, size),
{
    maximum(
        find_row_extent(matrix, 0) / count_texels(size.width),
        find_row_extent(matrix, 1) / count_texels(size.height),
    )
}

/// How deep the projected range is in the world.
pub fn depth_range(matrix: Mat4) -> (result: Float32)
    ensures
        result == row_extent(matrix, 2),
{
    find_row_extent(matrix, 2)
}

/// The view of a camera, its near and its far plane.
#[derive(Clone, Copy, Debug, PartialEq)]
pub struct CascadeCamera {
    pub view_projection: Mat4,
    pub near: Float32,
    pub far: Float32,
}

impl CascadeCamera {
    /// How many cascades a configuration has for this camera.
    pub open spec fn cascades(self, config: CascadeShadowConfig) -> nat {
        supported_count(self.near, self.far, allowed_count(config.cascade_count) as nat)
    }

    /// Whether the planes leave room for the cascades that a configuration has for this camera.
    pub open spec fn has_room(self, config: CascadeShadowConfig) -> bool {
        have_room(self.near, self.far, self.cascades(config))
    }

    /// Whether these powers belong to the ends of the cascades: one for each end but the last,
    /// and each of use.
    pub open spec fn has_powers(self, config: CascadeShadowConfig, powers: Seq<Float32>) -> bool {
        &&& powers.len() + 1 == self.cascades(config)
        &&& forall|i: int|
            0 <= i < powers.len() ==> !(#[trigger] desired_splits(
                self.near,
                self.far,
                config.lambda,
                powers,
            )[i]).not_a_number()
    }

    /// The ends of the cascades.
    pub open spec fn ends(self, config: CascadeShadowConfig, powers: Seq<Float32>) -> Seq<Float32> {
        Seq::new(
            (powers.len() + 1) as nat,
            |i: int|
                split_at(
                    self.near,
                    self.far,
                    desired_splits(self.near, self.far, config.lambda, powers),
                    i,
                ),
        )
    }

    /// The projection of the light for a cascade.
    pub open spec fn light_for(
        self,
        ends: Seq<Float32>,
        index: int,
        light_direction: Vec3,
        size: usize,
        casters: Seq<Vec3>,
    ) -> Mat4 {
        fitted_light(
            slice_corners(
                self.view_projection,
                self.near,
                self.far,
                if index == 0 {
                    self.near
                } else {
                    ends[index - 1]
                },
                ends[index],
            ),
            light_direction,
            size,
            casters,
        )
    }
}

/// The ends, the projections and the biases of a cascaded shadow.
#[derive(Debug)]
pub struct CascadeShadowState {
    pub split_depths: Vec<Float32>,
    pub blend_widths: Vec<Float32>,
    pub light_view_projections: Vec<Mat4>,
    pub world_texels: Vec<Float32>,
    pub depth_ranges: Vec<Float32>,
    pub constant_bias: Float32,
    pub slope_bias: Float32,
}

/// Where a shadow map is sampled: at a place, against a depth, with a bias.
#[derive(Clone, Copy, Debug, PartialEq)]
pub struct ShadowSample {
    pub uv: Vec2,
    pub depth: Float32,
    pub bias: Float32,
}

/// The samples that are mixed for a point: none of a cascade whose light does not see the point,
/// which is lit there.
#[derive(Clone, Copy, Debug, PartialEq)]
pub struct CascadeLookup {
    pub pair: SamplePair,
    pub lower: Option<ShadowSample>,
    pub upper: Option<ShadowSample>,
}

fn first_values<const N: usize>(values: &[Float32; N], count: usize) -> (result: Vec<Float32>)
    requires
        count <= N,
    ensures
        result@ == values@.take(count as int),
{
    let mut found: Vec<Float32> = Vec::new();
    let mut i: usize = 0;
    while i < count
        invariant
            i <= count <= N,
            found@ =~= values@.take(i as int),
        decreases count - i,
    {
        found.push(values[i]);
        i += 1;
    }
    found
}

impl CascadeShadowState {
    /// Whether every cascade has its end, projection, texel and range, and every end but the last
    /// its band.
    pub open spec fn valid(&self) -> bool {
        &&& self.split_depths@.len() >= 1
        &&& self.blend_widths@.len() == self.split_depths@.len() - 1
        &&& self.light_view_projections@.len() == self.split_depths@.len()
        &&& self.world_texels@.len() == self.split_depths@.len()
        &&& self.depth_ranges@.len() == self.split_depths@.len()
    }

    /// Whether this is the state for a camera, a light, the sizes of the maps and casters.
    pub open spec fn made_for(
        &self,
        camera: CascadeCamera,
        light_direction: Vec3,
        sizes: Seq<MapSize>,
        config: CascadeShadowConfig,
        powers: Seq<Float32>,
        casters: Seq<Vec3>,
    ) -> bool {
        let ends = camera.ends(config, powers);
        let lights = Seq::new(
            ends.len(),
            |i: int| camera.light_for(ends, i, light_direction, sizes[i].width, casters),
        );
        &&& self.split_depths@ == ends
        &&& self.blend_widths@ == band_widths(camera.near, ends)
        &&& self.light_view_projections@ == lights
        &&& self.world_texels@ == Seq::new(
            ends.len(),
            |i: int| texel_extent(lights[i], sizes[i]),
        )
        &&& self.depth_ranges@ == Seq::new(ends.len(), |i: int| row_extent(lights[i], 2))
        &&& self.constant_bias == (Float32 { bits: ONE })
        &&& self.slope_bias == (Float32 { bits: TWO })
    }

    /// The state for a camera and a light, with one map for each cascade that is wanted. `powers`
    /// holds for each end but the last the ratio of the planes to the power of the end's share.
    /// The projections are fitted in depth around the casters too.
    pub fn with_casters(
        camera: CascadeCamera,
        light_direction: Vec3,
        sizes: &[MapSize],
        config: CascadeShadowConfig,
        powers: &[Float32],
        casters: &[Vec3],
    ) -> (result: Result<CascadeShadowState, String>)
        requires
            camera.has_room(config),
            camera.has_powers(config, powers@),
        ensures
            result is Ok <==> 2 <= config.cascade_count <= 4 && sizes@.len()
                == config.cascade_count,
            match result {
                Ok(state) => state.valid() && state.made_for(
                    camera,
                    light_direction,
                    sizes@,
                    config,
                    powers@,
                    casters@,
                ),
                Err(message) => message@ == "cascade config count must match 2 to 4 shadow maps"@,
            },
    {
        if let Err(message) = config.check_map_count(sizes.len()) {
            return Err(message);
        }
        let count: usize = effective_cascade_count(camera.near, camera.far, config.cascade_count);
        let all_splits: [Float32; MAX_CASCADES] = practical_split_depths(
            camera.near,
            camera.far,
            config.cascade_count,
            config.lambda,
            powers,
        );
        let ghost ends = camera.ends(config, powers@);
        let ghost desired = desired_splits(camera.near, camera.far, config.lambda, powers@);
        let all_widths: [Float32; 3] = cascade_blend_widths(camera.near, &all_splits, count);
        let splits: Vec<Float32> = first_values(&all_splits, count);
        let widths: Vec<Float32> = first_values(&all_widths, count - 1);
        assert(splits@ =~= ends);
        assert(widths@ =~= band_widths(camera.near, ends));
        let mut lights: Vec<Mat4> = Vec::new();
        let mut texels: Vec<Float32> = Vec::new();
        let mut ranges: Vec<Float32> = Vec::new();
        let mut i: usize = 0;
        while i < count
            invariant
                i <= count <= sizes@.len(),
                count == powers@.len() + 1,
                splits@ == ends,
                ends == camera.ends(config, powers@),
                ends.len() == count,
                have_room(camera.near, camera.far, count as nat),
                desired == desired_splits(camera.near, camera.far, config.lambda, powers@),
                desired.len() == powers@.len(),
                forall|k: int| 0 <= k < desired.len() ==> !(#[trigger] desired[k]).not_a_number(),
                lights@ =~= Seq::new(
                    i as nat,
                    |k: int|
                        camera.light_for(ends, k, light_direction, sizes@[k].width, casters@),
                ),
                texels@ =~= Seq::new(i as nat, |k: int| texel_extent(lights@[k], sizes@[k])),
                ranges@ =~= Seq::new(i as nat, |k: int| row_extent(lights@[k], 2)),
            decreases count - i,
        {
            let slice_near: Float32 = if i == 0 {
                camera.near
            } else {
                splits[i - 1]
            };
            proof {
                if i > 0 {
                    law_splits_are_distinct(camera.near, camera.far, desired, i - 1, i as int);
                    lemma_ends_are_numbers(camera, desired, i - 1);
                }
            }
            let light: Mat4 = fit_cascade_light_projection_with_casters(
                camera.view_projection,
                camera.near,
                camera.far,
                light_direction,
                slice_near,
                splits[i],
                sizes[i].width,
                casters,
            );
            lights.push(light);
            texels.push(world_texel_size(light, sizes[i]));
            ranges.push(depth_range(light));
            i += 1;
        }
        let state: CascadeShadowState = CascadeShadowState {
            split_depths: splits,
            blend_widths: widths,
            light_view_projections: lights,
            world_texels: texels,
            depth_ranges: ranges,
            constant_bias: Float32 { bits: ONE },
            slope_bias: Float32 { bits: TWO },
        };
        Ok(state)
    }

    /// The state for a camera and a light whose cascades all have square maps of one size, and as
    /// many of them as the planes leave room for. Its projections are those that the maps are to be
    /// drawn with.
    pub fn with_map_size(
        camera: CascadeCamera,
        light_direction: Vec3,
        config: CascadeShadowConfig,
        map_size: usize,
        powers: &[Float32],
        casters: &[Vec3],
    ) -> (result: Result<CascadeShadowState, String>)
        requires
            camera.has_room(config),
            camera.has_powers(config, powers@),
        ensures
            result is Ok <==> map_size > 0,
            match result {
                Ok(state) => state.valid() && state.split_depths@.len() == camera.cascades(config)
                    && state.made_for(
                    camera,
                    light_direction,
                    Seq::new(
                        camera.cascades(config),
                        |i: int| MapSize { width: map_size, height: map_size },
                    ),
                    config,
                    powers@,
                    casters@,
                ),
                Err(message) => message@ == "cascade shadow-map size must be non-zero"@,
            },
    {
        if map_size == 0 {
            return Err("cascade shadow-map size must be non-zero".to_owned());
        }
        let count: usize = effective_cascade_count(camera.near, camera.far, config.cascade_count);
        let mut effective: CascadeShadowConfig = config;
        effective.set_cascade_count(count);
        proof {
            lemma_supported_count_is_supported(
                camera.near,
                camera.far,
                allowed_count(config.cascade_count) as nat,
            );
            assert(effective.cascade_count == count);
            assert(camera.cascades(effective) == camera.cascades(config));
            assert(camera.ends(effective, powers@) =~= camera.ends(config, powers@));
        }
        let mut sizes: Vec<MapSize> = Vec::new();
        let mut i: usize = 0;
        while i < count
            invariant
                i <= count,
                sizes@ =~= Seq::new(
                    i as nat,
                    |k: int| MapSize { width: map_size, height: map_size },
                ),
            decreases count - i,
        {
            sizes.push(MapSize { width: map_size, height: map_size });
            i += 1;
        }
        CascadeShadowState::with_casters(
            camera,
            light_direction,
            sizes.as_slice(),
            effective,
            powers,
            casters,
        )
    }

    pub fn cascade_count(&self) -> (result: usize)
        ensures
            result == self.split_depths@.len(),
    {
        self.split_depths.len()
    }

    /// The cascade that a depth falls into.
    pub fn select_cascade(&self, view_depth: Float32) -> (result: usize)
        ensures
            result == cascade_of(view_depth, self.split_depths@),
    {
        cascade_index(view_depth, self.split_depths.as_slice())
    }

    pub fn bias(&self) -> (result: (Float32, Float32))
        ensures
            result == (self.constant_bias, self.slope_bias),
    {
        (self.constant_bias, self.slope_bias)
    }

    /// The bias for a surface: more where the light falls flat, and as much deeper as a texel of
    /// the cascade is wide.
    pub open spec fn bias_for(&self, index: int, normal: Vec3, light_direction: Vec3) -> Float32 {
        let zero = Float32 { bits: 0 };
        let facing = normal.unit().dot_product(light_direction.unit()).clamped_to_unit();
        let offset = self.world_texels@[index] * (self.constant_bias + self.slope_bias * ((Float32 {
            bits: ONE,
        }) - facing));
        (offset * (Float32 { bits: TWO }) / greatest(
            self.depth_ranges@[index],
            Float32 { bits: THOUSANDTH },
        )).clamped(zero, Float32 { bits: TENTH })
    }

    /// Where the map of a cascade is sampled for a point, if its light sees the point.
    pub open spec fn sample_of(
        &self,
        index: int,
        position: Vec3,
        normal: Vec3,
        light_direction: Vec3,
    ) -> Option<ShadowSample> {
        let one = Float32 { bits: ONE };
        let half = Float32 { bits: HALF };
        let clip = self.light_view_projections@[index].applied(
            Vec4 { x: position.x, y: position.y, z: position.z, w: one },
        );
        if clip.w.at_most(Float32 { bits: 0 }) || !clip.w.finite() {
            None
        } else {
            Some(
                ShadowSample {
                    uv: Vec2 {
                        x: (clip.x / clip.w + one) * half,
                        y: (one - clip.y / clip.w) * half,
                    },
                    depth: clip.z / clip.w,
                    bias: self.bias_for(index, normal, light_direction),
                },
            )
        }
    }

    /// Where the map of a cascade is sampled for a point, if its light sees the point.
    pub fn sample_cascade(
        &self,
        index: usize,
        world_position: Vec3,
        normal: Vec3,
        light_direction: Vec3,
    ) -> (result: Option<ShadowSample>)
        requires
            self.valid(),
            index < self.split_depths@.len(),
        ensures
            result == self.sample_of(index as int, world_position, normal, light_direction),
    {
        let zero: Float32 = Float32 { bits: 0 };
        let one: Float32 = Float32 { bits: ONE };
        let half: Float32 = Float32 { bits: HALF };
        let clip: Vec4 = self.light_view_projections[index] * Vec4 {
            x: world_position.x,
            y: world_position.y,
            z: world_position.z,
            w: one,
        };
        if clip.w.is_at_most(zero) || !clip.w.is_finite() {
            return None;
        }
        let facing: Float32 = normal.normalize().dot(light_direction.normalize()).clamp_to_unit();
        let offset: Float32 = self.world_texels[index] * (self.constant_bias + self.slope_bias * (one
            - facing));
        let deep: Float32 = maximum(self.depth_ranges[index], Float32 { bits: THOUSANDTH });
        let bias: Float32 = (offset * Float32 { bits: TWO } / deep).clamp_between(
            zero,
            Float32 { bits: TENTH },
        );
        Some(
            ShadowSample {
                uv: Vec2 {
                    x: (clip.x / clip.w + one) * half,
                    y: (one - clip.y / clip.w) * half,
                },
                depth: clip.z / clip.w,
                bias,
            },
        )
    }

    /// The samples that are mixed for a point at a depth from the camera; none where the depth is
    /// not finite, and the point is lit.
    pub fn lookup(
        &self,
        world_position: Vec3,
        view_depth: Float32,
        normal: Vec3,
        light_direction: Vec3,
    ) -> (result: Option<CascadeLookup>)
        requires
            self.valid(),
        ensures
            result is None <==> !view_depth.finite(),
            match result {
                None => true,
                Some(found) => {
                    let pair = pair_from(view_depth, self.split_depths@, self.blend_widths@, 0);
                    &&& found.pair == pair
                    &&& found.lower == self.sample_of(
                        pair.lower as int,
                        world_position,
                        normal,
                        light_direction,
                    )
                    &&& found.upper == self.sample_of(
                        pair.upper as int,
                        world_position,
                        normal,
                        light_direction,
                    )
                },
            },
    {
        if !view_depth.is_finite() {
            return None;
        }
        let pair: SamplePair = cascade_sample_pair(
            view_depth,
            self.split_depths.as_slice(),
            self.blend_widths.as_slice(),
        );
        Some(
            CascadeLookup {
                pair,
                lower: self.sample_cascade(pair.lower, world_position, normal, light_direction),
                upper: self.sample_cascade(pair.upper, world_position, normal, light_direction),
            },
        )
    }
}

/// How lit a point is, if the samples of its cascades say so much.
pub open spec fn mixed(pair: SamplePair, lower: Float32, upper: Float32) -> Float32 {
    if pair.lower == pair.upper {
        lower
    } else {
        lower * ((Float32 { bits: ONE }) - pair.weight) + upper * pair.weight
    }
}

/// How lit a point is, if the samples of its cascades say so much.
pub fn mix_visibility(pair: SamplePair, lower: Float32, upper: Float32) -> (result: Float32)
    ensures
        result == mixed(pair, lower, upper),
{
    if pair.lower == pair.upper {
        return lower;
    }
    lower * (Float32 { bits: ONE } - pair.weight) + upper * pair.weight
}

/// Whether a cascade shows a point as lit by `value`: fully where its light does not see the point,
/// and else as its map says.
pub open spec fn shows<S: Fn(usize, ShadowSample) -> Float32>(
    maps: S,
    cascade: usize,
    sample: Option<ShadowSample>,
    value: Float32,
) -> bool {
    match sample {
        None => value == (Float32 { bits: ONE }),
        Some(place) => call_ensures(maps, (cascade, place), value),
    }
}

fn ask<S: Fn(usize, ShadowSample) -> Float32>(
    maps: &S,
    cascade: usize,
    sample: Option<ShadowSample>,
) -> (result: Float32)
    requires
        forall|index: usize, place: ShadowSample| #[trigger] call_requires(*maps, (index, place)),
    ensures
        shows(*maps, cascade, sample, result),
{
    match sample {
        None => Float32 { bits: ONE },
        Some(place) => maps(cascade, place),
    }
}

impl CascadeShadowState {
    pub fn split_depths(&self) -> (result: &[Float32])
        ensures
            result@ == self.split_depths@,
    {
        self.split_depths.as_slice()
    }

    pub fn light_view_projections(&self) -> (result: &[Mat4])
        ensures
            result@ == self.light_view_projections@,
    {
        self.light_view_projections.as_slice()
    }

    pub fn blend_widths(&self) -> (result: &[Float32])
        ensures
            result@ == self.blend_widths@,
    {
        self.blend_widths.as_slice()
    }

    /// How lit a point is, where `maps` says how lit it is at a place of the map of a cascade. A
    /// point at a depth that is not finite is lit.
    pub fn visibility<S: Fn(usize, ShadowSample) -> Float32>(
        &self,
        maps: &S,
        world_position: Vec3,
        view_depth: Float32,
        normal: Vec3,
        light_direction: Vec3,
    ) -> (result: Float32)
        requires
            self.valid(),
            forall|index: usize, place: ShadowSample| #[trigger]
                call_requires(*maps, (index, place)),
        ensures
            !view_depth.finite() ==> result == (Float32 { bits: ONE }),
            view_depth.finite() ==> ({
                let pair = pair_from(view_depth, self.split_depths@, self.blend_widths@, 0);
                let first = self.sample_of(
                    pair.lower as int,
                    world_position,
                    normal,
                    light_direction,
                );
                let second = self.sample_of(
                    pair.upper as int,
                    world_position,
                    normal,
                    light_direction,
                );
                exists|lower: Float32, upper: Float32|
                    #![trigger mixed(pair, lower, upper)]
                    {
                        &&& shows(*maps, pair.lower, first, lower)
                        &&& pair.lower == pair.upper || shows(*maps, pair.upper, second, upper)
                        &&& result == mixed(pair, lower, upper)
                    }
            }),
    {
        match self.lookup(world_position, view_depth, normal, light_direction) {
            None => Float32 { bits: ONE },
            Some(found) => {
                let lower: Float32 = ask(maps, found.pair.lower, found.lower);
                if found.pair.lower == found.pair.upper {
                    assert(mixed(found.pair, lower, lower) == lower);
                    return lower;
                }
                let upper: Float32 = ask(maps, found.pair.upper, found.upper);
                mix_visibility(found.pair, lower, upper)
            },
        }
    }
}

proof fn lemma_ends_are_numbers(camera: CascadeCamera, desired: Seq<Float32>, index: int)
    requires
        0 <= index < desired.len(),
        have_room(camera.near, camera.far, desired.len() + 1),
        forall|i: int| 0 <= i < desired.len() ==> !(#[trigger] desired[i]).not_a_number(),
    ensures
        !split_at(camera.near, camera.far, desired, index).not_a_number(),
{
    crate::csm::lemma_split(camera.near, camera.far, desired, index);
}

/// The usable points of the first meshes, each moved by its model matrix.
pub open spec fn caster_points_of(meshes: Seq<Mesh>, models: Seq<Mat4>, count: int) -> Seq<Vec3>
    decreases count,
{
    if count <= 0 {
        Seq::empty()
    } else {
        caster_points_of(meshes, models, count - 1) + usable_points(
            meshes[count - 1],
            models[count - 1],
            meshes[count - 1]@.vertices.len() as int,
        )
    }
}

/// The usable points among the first vertices of a mesh, moved by a matrix.
pub open spec fn usable_points(mesh: Mesh, model: Mat4, count: int) -> Seq<Vec3>
    decreases count,
{
    if count <= 0 {
        Seq::empty()
    } else {
        let before = usable_points(mesh, model, count - 1);
        match point_in_range(mapped(model, mesh@.vertices[count - 1].position)) {
            Some(point) => before.push(point),
            None => before,
        }
    }
}

/// The points that cast shadows: those of the meshes, each moved by its model matrix.
pub fn caster_points(meshes: &[Mesh], models: &[Mat4]) -> (result: Vec<Vec3>)
    requires
        meshes@.len() == models@.len(),
    ensures
        result@ == caster_points_of(meshes@, models@, meshes@.len() as int),
{
    let mut points: Vec<Vec3> = Vec::new();
    let mut m: usize = 0;
    while m < meshes.len()
        invariant
            m <= meshes@.len(),
            meshes@.len() == models@.len(),
            points@ == caster_points_of(meshes@, models@, m as int),
        decreases meshes@.len() - m,
    {
        let vertices = meshes[m].vertices();
        let mut v: usize = 0;
        while v < vertices.len()
            invariant
                v <= vertices@.len(),
                m < meshes@.len(),
                meshes@.len() == models@.len(),
                vertices@ == meshes@[m as int]@.vertices,
                points@ == caster_points_of(meshes@, models@, m as int) + usable_points(
                    meshes@[m as int],
                    models@[m as int],
                    v as int,
                ),
            decreases vertices@.len() - v,
        {
            let ghost before = points@;
            if let Some(point) = finite_point(transform_point(models[m], vertices[v].position)) {
                points.push(point);
            }
            assert(points@ =~= caster_points_of(meshes@, models@, m as int) + usable_points(
                meshes@[m as int],
                models@[m as int],
                v + 1,
            ));
            v += 1;
        }
        m += 1;
    }
    points
}

proof fn lemma_supported_count_is_supported(near: Float32, far: Float32, requested: nat)
    ensures
        supported_count(near, far, supported_count(near, far, requested)) == supported_count(
            near,
            far,
            requested,
        ),
    decreases requested,
{
    if requested >= 3 {
        lemma_supported_count_is_supported(near, far, (requested - 1) as nat);
    }
}

} // verus!
