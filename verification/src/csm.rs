//! The cascades of a directional shadow: how many there are, where they end, and which of them a
//! depth falls into.

use crate::culling::{greatest, least, maximum, minimum};
use crate::float::{Float32, HALF, INFINITY, ONE};
use crate::math::Vec3;
use vstd::prelude::*;
use vstd::string::*;

verus! {

/// At most how many cascades a light has.
pub const MAX_CASCADES: usize = 4;

/// The largest coordinate of geometry, ten thousand.
pub const MAX_GEOMETRY_COORDINATE: u32 = 0x461c_4000;

/// How many cascades are wanted, and how the two split schemes are mixed.
#[derive(Clone, Copy, Debug, PartialEq)]
pub struct CascadeShadowConfig {
    pub cascade_count: usize,
    pub lambda: Float32,
}

/// A number of cascades, moved to the nearest one that is allowed.
pub open spec fn allowed_count(count: usize) -> usize {
    if count < 2 {
        2
    } else if count > 4 {
        4
    } else {
        count
    }
}

/// A mix, moved to the nearest one between none and all; a half where it is not finite.
pub open spec fn allowed_lambda(lambda: Float32) -> Float32 {
    if lambda.finite() {
        lambda.clamped_to_unit()
    } else {
        Float32 { bits: HALF }
    }
}

impl Default for CascadeShadowConfig {
    fn default() -> (result: CascadeShadowConfig)
        ensures
            result == (CascadeShadowConfig { cascade_count: 3, lambda: Float32 { bits: HALF } }),
    {
        CascadeShadowConfig { cascade_count: 3, lambda: Float32 { bits: HALF } }
    }
}

fn clamp_count(count: usize) -> (result: usize)
    ensures
        result == allowed_count(count),
{
    if count < 2 {
        2
    } else if count > MAX_CASCADES {
        MAX_CASCADES
    } else {
        count
    }
}

impl CascadeShadowConfig {
    pub fn new(cascade_count: usize, lambda: Float32) -> (result: CascadeShadowConfig)
        ensures
            result == (CascadeShadowConfig {
                cascade_count: allowed_count(cascade_count),
                lambda: allowed_lambda(lambda),
            }),
    {
        let mut config: CascadeShadowConfig = CascadeShadowConfig::default();
        config.set_cascade_count(cascade_count);
        config.set_lambda(lambda);
        config
    }

    pub fn cascade_count(self) -> (result: usize)
        ensures
            result == self.cascade_count,
    {
        self.cascade_count
    }

    pub fn lambda(self) -> (result: Float32)
        ensures
            result == self.lambda,
    {
        self.lambda
    }

    pub fn set_cascade_count(&mut self, cascade_count: usize)
        ensures
            *final(self) == (CascadeShadowConfig {
                cascade_count: allowed_count(cascade_count),
                ..*old(self)
            }),
    {
        self.cascade_count = clamp_count(cascade_count);
    }

    pub fn set_lambda(&mut self, lambda: Float32)
        ensures
            *final(self) == (CascadeShadowConfig { lambda: allowed_lambda(lambda), ..*old(self) }),
    {
        self.lambda = if lambda.is_finite() {
            lambda.clamp_to_unit()
        } else {
            Float32 { bits: HALF }
        };
    }

    /// Whether this many shadow maps fit the configuration.
    pub fn check_map_count(self, maps: usize) -> (result: Result<(), String>)
        ensures
            match result {
                Ok(_) => 2 <= self.cascade_count <= 4 && maps == self.cascade_count,
                Err(message) => !(2 <= self.cascade_count <= 4 && maps == self.cascade_count)
                    && message@ == "cascade config count must match 2 to 4 shadow maps"@,
            },
    {
        if self.cascade_count < 2 || self.cascade_count > MAX_CASCADES || maps
            != self.cascade_count {
            return Err("cascade config count must match 2 to 4 shadow maps".to_owned());
        }
        Ok(())
    }
}

/// The value that follows after some steps.
pub open spec fn stepped(value: Float32, steps: nat) -> Float32
    decreases steps,
{
    if steps == 0 {
        value
    } else {
        stepped(value, (steps - 1) as nat).successor()
    }
}

/// The value that comes some steps before.
pub open spec fn stepped_back(value: Float32, steps: nat) -> Float32
    decreases steps,
{
    if steps == 0 {
        value
    } else {
        stepped_back(value, (steps - 1) as nat).predecessor()
    }
}

/// How many cascades, from three up to `requested`, have distinct ends; two where not even three
/// have. One step is left beyond the last end.
pub open spec fn supported_count(near: Float32, far: Float32, requested: nat) -> nat
    decreases requested,
{
    if requested < 3 {
        2
    } else if stepped(near, requested).at_most(far) {
        requested
    } else {
        supported_count(near, far, (requested - 1) as nat)
    }
}

fn step(value: Float32, steps: usize) -> (result: Float32)
    ensures
        result == stepped(value, steps as nat),
{
    let mut reached: Float32 = value;
    let mut i: usize = 0;
    while i < steps
        invariant
            i <= steps,
            reached == stepped(value, i as nat),
        decreases steps - i,
    {
        reached = reached.next_up();
        i += 1;
    }
    reached
}

fn step_back(value: Float32, steps: usize) -> (result: Float32)
    ensures
        result == stepped_back(value, steps as nat),
{
    let mut reached: Float32 = value;
    let mut i: usize = 0;
    while i < steps
        invariant
            i <= steps,
            reached == stepped_back(value, i as nat),
        decreases steps - i,
    {
        reached = reached.next_down();
        i += 1;
    }
    reached
}

/// The largest number of cascades, up to the one requested, whose ends are distinct. Planes that
/// are close to each other leave room for few depths between them.
pub fn effective_cascade_count(near: Float32, far: Float32, requested: usize) -> (result: usize)
    ensures
        result == supported_count(near, far, allowed_count(requested) as nat),
        2 <= result <= allowed_count(requested),
{
    let wanted: usize = clamp_count(requested);
    let mut candidate: usize = wanted;
    while candidate >= 3
        invariant
            candidate <= wanted,
            candidate >= 2,
            wanted == allowed_count(requested),
            supported_count(near, far, wanted as nat) == supported_count(
                near,
                far,
                candidate as nat,
            ),
        decreases candidate,
    {
        if step(near, candidate).is_at_most(far) {
            return candidate;
        }
        candidate -= 1;
    }
    2
}

/// The end of the cascade at an index, if `desired` says where the ends would be without regard
/// to each other: after the end before it, before the end after it, and the last at the far
/// plane.
pub open spec fn split_at(near: Float32, far: Float32, desired: Seq<Float32>, index: int) -> Float32
    decreases index + 1,
{
    if index < 0 {
        near
    } else if index >= desired.len() {
        far
    } else {
        desired[index].clamped(
            split_at(near, far, desired, index - 1).successor(),
            stepped_back(far, (desired.len() - index) as nat),
        )
    }
}

/// Whether the planes leave room for this many distinct ends.
pub open spec fn have_room(near: Float32, far: Float32, count: nat) -> bool {
    &&& near.finite()
    &&& far.finite()
    &&& 0 < near.rank()
    &&& near.rank() + count <= far.rank()
}

proof fn lemma_step_back(value: Float32, steps: nat)
    requires
        value.finite(),
        value.rank() > steps,
    ensures
        stepped_back(value, steps).finite(),
        stepped_back(value, steps).rank() == value.rank() - steps,
    decreases steps,
{
    if steps > 0 {
        lemma_step_back(value, (steps - 1) as nat);
    }
}

/// The ends of the cascades. `desired` holds where each end but the last would be without regard
/// to the others. Every end lies after the one before it, and the last one is the far plane.
pub fn place_splits(near: Float32, far: Float32, desired: &[Float32]) -> (result: Vec<Float32>)
    requires
        desired@.len() < MAX_CASCADES,
        have_room(near, far, desired@.len() + 1),
        forall|i: int| 0 <= i < desired@.len() - 1 ==> !(#[trigger] desired@[i]).not_a_number(),
    ensures
        result@ == Seq::new(
            (desired@.len() + 1) as nat,
            |i: int| split_at(near, far, desired@, i),
        ),
{
    let count: usize = desired.len();
    let mut splits: Vec<Float32> = Vec::new();
    let mut previous: Float32 = near;
    let mut i: usize = 0;
    while i < count
        invariant
            i <= count,
            count == desired@.len(),
            previous == split_at(near, far, desired@, i - 1),
            splits@ =~= Seq::new(i as nat, |j: int| split_at(near, far, desired@, j)),
        decreases count - i,
    {
        let split: Float32 = desired[i].clamp_between(previous.next_up(), step_back(far, count - i));
        splits.push(split);
        previous = split;
        i += 1;
    }
    splits.push(far);
    splits
}

/// The share of the way to the far plane at which an even split would put an end.
pub open spec fn split_share(index: int, count: nat) -> Float32 {
    Float32::of_integer(false, (index + 1) as nat) / Float32::of_integer(false, count)
}

/// Where the end at an index would be without regard to the others: a mix of the place that keeps
/// the ratio of the ends equal and of the place that keeps their distance equal. `power` is the
/// ratio of the planes to the power of the share.
pub open spec fn desired_split(
    near: Float32,
    far: Float32,
    lambda: Float32,
    power: Float32,
    share: Float32,
) -> Float32 {
    lambda * (near * power) + ((Float32 { bits: ONE }) - lambda) * (near + (far - near) * share)
}

/// Where the ends would be without regard to each other.
pub open spec fn desired_splits(
    near: Float32,
    far: Float32,
    lambda: Float32,
    powers: Seq<Float32>,
) -> Seq<Float32> {
    Seq::new(
        powers.len(),
        |i: int|
            desired_split(
                near,
                far,
                allowed_lambda(lambda),
                powers[i],
                split_share(i, powers.len() + 1),
            ),
    )
}

/// The share of the way to the far plane for the end at an index.
pub fn split_fraction(index: usize, count: usize) -> (result: Float32)
    requires
        index < count,
    ensures
        result == split_share(index as int, count as nat),
{
    Float32::from_integer(false, index as u64 + 1) / Float32::from_integer(false, count as u64)
}

/// The ends of as many cascades as there can be: those in use, and the far plane for the rest.
pub open spec fn practical_splits(
    near: Float32,
    far: Float32,
    lambda: Float32,
    powers: Seq<Float32>,
) -> Seq<Float32> {
    Seq::new(
        MAX_CASCADES as nat,
        |i: int| split_at(near, far, desired_splits(near, far, lambda, powers), i),
    )
}

/// The ends of the cascades, mixed from an even split and one with equal ratios. Beyond the
/// cascades in use every end is the far plane. `powers` holds for each end in use but the last the
/// ratio of the planes to the power of the end's share.
pub fn practical_split_depths(
    near: Float32,
    far: Float32,
    count: usize,
    lambda: Float32,
    powers: &[Float32],
) -> (result: [Float32; MAX_CASCADES])
    requires
        powers@.len() + 1 == supported_count(near, far, allowed_count(count) as nat),
        have_room(near, far, powers@.len() + 1),
        forall|i: int|
            0 <= i < powers@.len() - 1 ==> !(#[trigger] desired_splits(
                near,
                far,
                lambda,
                powers@,
            )[i]).not_a_number(),
    ensures
        result@ == practical_splits(near, far, lambda, powers@),
{
    let used: usize = effective_cascade_count(near, far, count);
    let share: Float32 = if lambda.is_finite() {
        lambda.clamp_to_unit()
    } else {
        Float32 { bits: HALF }
    };
    let rest: Float32 = Float32 { bits: ONE } - share;
    let mut desired: Vec<Float32> = Vec::new();
    let mut i: usize = 0;
    while i < used - 1
        invariant
            2 <= used <= MAX_CASCADES,
            i <= used - 1,
            used - 1 == powers@.len(),
            share == allowed_lambda(lambda),
            rest == (Float32 { bits: ONE }) - share,
            desired@ =~= desired_splits(near, far, lambda, powers@).take(i as int),
        decreases used - i,
    {
        let fraction: Float32 = split_fraction(i, used);
        desired.push(share * (near * powers[i]) + rest * (near + (far - near) * fraction));
        i += 1;
    }
    assert(desired@ =~= desired_splits(near, far, lambda, powers@));
    let ends: Vec<Float32> = place_splits(near, far, desired.as_slice());
    let mut splits: [Float32; MAX_CASCADES] = [far, far, far, far];
    let ghost wanted = practical_splits(near, far, lambda, powers@);
    let mut k: usize = 0;
    while k < used
        invariant
            k <= used <= MAX_CASCADES,
            used == desired@.len() + 1,
            desired@ == desired_splits(near, far, lambda, powers@),
            wanted == practical_splits(near, far, lambda, powers@),
            ends@ == Seq::new(used as nat, |i: int| split_at(near, far, desired@, i)),
            forall|i: int| 0 <= i < k ==> #[trigger] splits@[i] == wanted[i],
            forall|i: int| k <= i < MAX_CASCADES ==> #[trigger] splits@[i] == far,
        decreases used - k,
    {
        splits[k] = ends[k];
        k += 1;
    }
    assert(splits@ =~= wanted);
    splits
}

pub proof fn lemma_split(near: Float32, far: Float32, desired: Seq<Float32>, index: int)
    requires
        -1 <= index < desired.len(),
        have_room(near, far, desired.len() + 1),
        forall|i: int| 0 <= i < desired.len() ==> !(#[trigger] desired[i]).not_a_number(),
    ensures
        split_at(near, far, desired, index).finite(),
        near.rank() + index + 1 <= split_at(near, far, desired, index).rank(),
        split_at(near, far, desired, index).rank() <= far.rank() - (desired.len() - index) || index
            == -1,
        index >= 0 ==> split_at(near, far, desired, index - 1).rank() < split_at(
            near,
            far,
            desired,
            index,
        ).rank(),
    decreases index + 1,
{
    if index >= 0 {
        lemma_split(near, far, desired, index - 1);
        let before = split_at(near, far, desired, index - 1);
        assert(!desired[index].not_a_number());
        lemma_step_back(far, (desired.len() - index) as nat);
        let low = before.successor();
        let high = stepped_back(far, (desired.len() - index) as nat);
        assert(low.rank() == before.rank() + 1);
        assert(low.rank() <= high.rank());
    }
}

/// Whatever ends are desired, the ends that take effect grow from one cascade to the next, start
/// beyond the near plane and stop at the far plane.
pub proof fn law_splits_are_distinct(
    near: Float32,
    far: Float32,
    desired: Seq<Float32>,
    left: int,
    right: int,
)
    requires
        have_room(near, far, desired.len() + 1),
        forall|i: int| 0 <= i < desired.len() ==> !(#[trigger] desired[i]).not_a_number(),
        0 <= left < right <= desired.len(),
    ensures
        near.rank() < split_at(near, far, desired, left).rank(),
        split_at(near, far, desired, left).rank() < split_at(near, far, desired, right).rank(),
        split_at(near, far, desired, desired.len() as int) == far,
    decreases right - left,
{
    lemma_split(near, far, desired, left);
    if right == desired.len() {
        lemma_split(near, far, desired, right - 1);
    } else {
        lemma_split(near, far, desired, right);
    }
    if left + 1 < right {
        law_splits_are_distinct(near, far, desired, left, right - 1);
    }
}

proof fn lemma_steps_grow(value: Float32, steps: nat)
    requires
        value.finite(),
        0 < value.rank(),
    ensures
        stepped(value, steps).finite(),
        stepped(value, steps).rank() >= value.rank() + steps || stepped(value, steps).rank()
            == INFINITY - 1,
        stepped(value, steps).rank() > 0,
    decreases steps,
{
    if steps > 0 {
        lemma_steps_grow(value, (steps - 1) as nat);
    }
}

/// As many cascades as are found to be supported have room for distinct ends, wherever two have
/// and the far plane is not the largest value there is.
pub proof fn law_supported_cascades_have_room(near: Float32, far: Float32, requested: nat)
    requires
        have_room(near, far, 2),
        far.rank() < INFINITY - 1,
    ensures
        have_room(near, far, supported_count(near, far, requested)),
    decreases requested,
{
    if requested >= 3 {
        if stepped(near, requested).at_most(far) {
            lemma_steps_grow(near, requested);
        } else {
            law_supported_cascades_have_room(near, far, (requested - 1) as nat);
        }
    }
}

/// The first end from `index` on that a depth does not lie beyond.
pub open spec fn first_end(depth: Float32, splits: Seq<Float32>, index: int) -> int
    decreases splits.len() - index,
{
    if 0 <= index < splits.len() && !depth.at_most(splits[index]) {
        first_end(depth, splits, index + 1)
    } else {
        index
    }
}

/// The cascade that a depth falls into: the first whose end it does not lie beyond, or the last.
pub open spec fn cascade_of(depth: Float32, splits: Seq<Float32>) -> int {
    if splits.len() == 0 {
        0
    } else if first_end(depth, splits, 0) < splits.len() {
        first_end(depth, splits, 0)
    } else {
        splits.len() - 1
    }
}

/// The cascade that a depth falls into.
pub fn cascade_index(view_depth: Float32, split_depths: &[Float32]) -> (result: usize)
    ensures
        result == cascade_of(view_depth, split_depths@),
        split_depths@.len() > 0 ==> result < split_depths@.len(),
{
    if split_depths.len() == 0 {
        return 0;
    }
    let mut i: usize = 0;
    while i < split_depths.len()
        invariant
            i <= split_depths@.len(),
            split_depths@.len() > 0,
            first_end(view_depth, split_depths@, 0) == first_end(
                view_depth,
                split_depths@,
                i as int,
            ),
        decreases split_depths@.len() - i,
    {
        if view_depth.is_at_most(split_depths[i]) {
            return i;
        }
        i += 1;
    }
    split_depths.len() - 1
}

proof fn lemma_first_end(depth: Float32, splits: Seq<Float32>, index: int)
    requires
        0 <= index <= splits.len(),
    ensures
        index <= first_end(depth, splits, index) <= splits.len(),
        first_end(depth, splits, index) < splits.len() ==> depth.at_most(
            splits[first_end(depth, splits, index)],
        ),
        forall|i: int|
            index <= i < first_end(depth, splits, index) ==> !depth.at_most(#[trigger] splits[i]),
    decreases splits.len() - index,
{
    if index < splits.len() && !depth.at_most(splits[index]) {
        lemma_first_end(depth, splits, index + 1);
    }
}

/// A greater depth never falls into an earlier cascade.
pub proof fn law_deeper_points_fall_into_later_cascades(
    near: Float32,
    far: Float32,
    splits: Seq<Float32>,
)
    requires
        !near.not_a_number(),
        !far.not_a_number(),
        near.rank() <= far.rank(),
    ensures
        cascade_of(near, splits) <= cascade_of(far, splits),
{
    lemma_first_end(near, splits, 0);
    lemma_first_end(far, splits, 0);
    let early = first_end(near, splits, 0);
    let late = first_end(far, splits, 0);
    if late < early && late < splits.len() {
        assert(!near.at_most(splits[late]));
    }
}

/// The bits of a tenth.
pub const TENTH: u32 = 0x3dcc_cccd;

/// The bits of the distance from one to the next larger value.
pub const UNIT_STEP: u32 = 0x3400_0000;

/// How wide the band before an end is in which two cascades are blended: a tenth of the smaller of
/// the two gaps beside the end, but wide enough to hold distinct depths.
pub open spec fn band_width(before: Float32, end: Float32, after: Float32) -> Float32 {
    let zero = Float32 { bits: 0 };
    let gap = greatest(least(end - before, after - end), zero);
    if zero.less(gap) {
        least(
            greatest(
                gap * (Float32 { bits: TENTH }),
                (Float32 { bits: UNIT_STEP }) * greatest(
                    end.absolute(),
                    Float32 { bits: ONE },
                ),
            ),
            gap,
        )
    } else {
        zero
    }
}

/// How wide the bands before all ends but the last are.
pub open spec fn band_widths(near: Float32, splits: Seq<Float32>) -> Seq<Float32> {
    Seq::new(
        (splits.len() - 1) as nat,
        |i: int|
            band_width(
                if i == 0 {
                    near
                } else {
                    splits[i - 1]
                },
                splits[i],
                splits[i + 1],
            ),
    )
}

/// How wide the bands before all ends in use but the last are, and nothing for the rest.
pub open spec fn padded_widths(near: Float32, splits: Seq<Float32>, count: nat) -> Seq<Float32> {
    Seq::new(
        (MAX_CASCADES - 1) as nat,
        |i: int|
            if i + 1 < count {
                band_widths(near, splits)[i]
            } else {
                Float32 { bits: 0 }
            },
    )
}

/// How wide the bands before all ends in use but the last are, and nothing for the rest.
pub fn cascade_blend_widths(near: Float32, splits: &[Float32; MAX_CASCADES], count: usize) -> (result:
    [Float32; 3])
    requires
        count <= MAX_CASCADES,
    ensures
        result@ == padded_widths(near, splits@, count as nat),
{
    let zero: Float32 = Float32 { bits: 0 };
    let one: Float32 = Float32 { bits: ONE };
    let mut widths: [Float32; 3] = [zero, zero, zero];
    let ghost wanted = padded_widths(near, splits@, count as nat);
    let mut i: usize = 0;
    while i + 1 < count
        invariant
            count <= MAX_CASCADES,
            i <= 3,
            i == 0 || i + 1 <= count,
            zero == (Float32 { bits: 0 }),
            one == (Float32 { bits: ONE }),
            wanted == padded_widths(near, splits@, count as nat),
            forall|k: int| 0 <= k < i ==> #[trigger] widths@[k] == wanted[k],
            forall|k: int| i <= k < 3 ==> #[trigger] widths@[k] == zero,
        decreases count - i,
    {
        let before: Float32 = if i == 0 {
            near
        } else {
            splits[i - 1]
        };
        let gap: Float32 = maximum(minimum(splits[i] - before, splits[i + 1] - splits[i]), zero);
        let width: Float32 = if zero.is_less(gap) {
            let step: Float32 = Float32 { bits: UNIT_STEP } * maximum(splits[i].abs(), one);
            minimum(maximum(gap * Float32 { bits: TENTH }, step), gap)
        } else {
            zero
        };
        assert(width == wanted[i as int]);
        widths[i] = width;
        i += 1;
    }
    assert(widths@ =~= wanted);
    widths
}

/// The cascades that are sampled for a depth, and how much of the second is seen.
#[derive(Clone, Copy, Debug, PartialEq)]
pub struct SamplePair {
    pub lower: usize,
    pub upper: usize,
    pub weight: Float32,
}

/// Whether a depth lies in the band before an end.
pub open spec fn in_band(depth: Float32, end: Float32, width: Float32) -> bool {
    (Float32 { bits: 0 }).less(width) && (end - width).at_most(depth) && depth.at_most(end)
}

/// How far a depth has come through the band before an end, exactly nothing where the band starts
/// and exactly all where it ends.
pub open spec fn band_weight(depth: Float32, end: Float32, width: Float32) -> Float32 {
    let start = end - width;
    if depth.at_most(start) {
        Float32 { bits: 0 }
    } else if end.at_most(depth) {
        Float32 { bits: ONE }
    } else {
        ((depth - start) / width).clamped_to_unit()
    }
}

/// The cascades for a depth, if the bands from `index` on are examined.
pub open spec fn pair_from(
    depth: Float32,
    splits: Seq<Float32>,
    widths: Seq<Float32>,
    index: int,
) -> SamplePair
    decreases splits.len() - index,
{
    if !(0 <= index < splits.len() - 1) {
        SamplePair {
            lower: cascade_of(depth, splits) as usize,
            upper: cascade_of(depth, splits) as usize,
            weight: Float32 { bits: 0 },
        }
    } else if in_band(depth, splits[index], widths[index]) {
        SamplePair {
            lower: index as usize,
            upper: (index + 1) as usize,
            weight: band_weight(depth, splits[index], widths[index]),
        }
    } else {
        pair_from(depth, splits, widths, index + 1)
    }
}

/// The cascades that are sampled for a depth: two where it lies in the band before an end, one
/// elsewhere.
pub fn cascade_sample_pair(
    view_depth: Float32,
    splits: &[Float32],
    widths: &[Float32],
) -> (result: SamplePair)
    requires
        splits@.len() >= 1,
        widths@.len() == splits@.len() - 1,
    ensures
        result == pair_from(view_depth, splits@, widths@, 0),
        result.lower < splits@.len() && result.upper < splits@.len(),
{
    let zero: Float32 = Float32 { bits: 0 };
    let mut i: usize = 0;
    while i < splits.len() - 1
        invariant
            splits@.len() >= 1,
            i <= splits@.len() - 1,
            zero == (Float32 { bits: 0 }),
            widths@.len() == splits@.len() - 1,
            pair_from(view_depth, splits@, widths@, 0) == pair_from(
                view_depth,
                splits@,
                widths@,
                i as int,
            ),
        decreases splits@.len() - i,
    {
        let start: Float32 = splits[i] - widths[i];
        if zero.is_less(widths[i]) && start.is_at_most(view_depth) && view_depth.is_at_most(
            splits[i],
        ) {
            let weight: Float32 = if view_depth.is_at_most(start) {
                zero
            } else if splits[i].is_at_most(view_depth) {
                Float32 { bits: ONE }
            } else {
                ((view_depth - start) / widths[i]).clamp_to_unit()
            };
            return SamplePair { lower: i, upper: i + 1, weight };
        }
        i += 1;
    }
    let selected: usize = cascade_index(view_depth, splits);
    SamplePair { lower: selected, upper: selected, weight: zero }
}

/// At each end of a band the weight is exact: the first cascade alone where the band starts, the
/// second alone where it ends.
pub proof fn law_blending_is_exact_at_the_ends(
    splits: Seq<Float32>,
    widths: Seq<Float32>,
    index: int,
)
    requires
        0 <= index < splits.len() - 1,
        splits.len() <= usize::MAX,
        widths.len() == splits.len() - 1,
        (Float32 { bits: 0 }).less(widths[index]),
        (splits[index] - widths[index]).less(splits[index]),
        forall|i: int|
            0 <= i < index ==> (#[trigger] splits[i]).less(splits[index] - widths[index]),
    ensures
        pair_from(splits[index] - widths[index], splits, widths, 0) == (SamplePair {
            lower: index as usize,
            upper: (index + 1) as usize,
            weight: Float32 { bits: 0 },
        }),
        pair_from(splits[index], splits, widths, 0) == (SamplePair {
            lower: index as usize,
            upper: (index + 1) as usize,
            weight: Float32 { bits: ONE },
        }),
{
    lemma_skips_earlier_bands(splits[index] - widths[index], splits, widths, 0, index);
    lemma_skips_earlier_bands(splits[index], splits, widths, 0, index);
}

proof fn lemma_skips_earlier_bands(
    depth: Float32,
    splits: Seq<Float32>,
    widths: Seq<Float32>,
    from: int,
    index: int,
)
    requires
        0 <= from <= index < splits.len() - 1,
        forall|i: int| from <= i < index ==> (#[trigger] splits[i]).less(depth),
    ensures
        pair_from(depth, splits, widths, from) == pair_from(depth, splits, widths, index),
    decreases index - from,
{
    if from < index {
        assert(splits[from].less(depth));
        lemma_skips_earlier_bands(depth, splits, widths, from + 1, index);
    }
}

/// A coordinate, moved into the range of geometry.
pub open spec fn geometry_coordinate(value: Float32) -> Float32 {
    let limit = Float32 { bits: MAX_GEOMETRY_COORDINATE };
    value.clamped(limit.opposite(), limit)
}

/// A point, moved into the range of geometry, if its coordinates are finite.
pub open spec fn point_in_range(point: Vec3) -> Option<Vec3> {
    if point.finite() {
        Some(
            Vec3 {
                x: geometry_coordinate(point.x),
                y: geometry_coordinate(point.y),
                z: geometry_coordinate(point.z),
            },
        )
    } else {
        None
    }
}

/// A point, moved into the range of geometry, if its coordinates are finite.
pub fn finite_point(point: Vec3) -> (result: Option<Vec3>)
    ensures
        result == point_in_range(point),
{
    if point.x.is_finite() && point.y.is_finite() && point.z.is_finite() {
        let high: Float32 = Float32 { bits: MAX_GEOMETRY_COORDINATE };
        let low: Float32 = high.negate();
        Some(
            Vec3 {
                x: point.x.clamp_between(low, high),
                y: point.y.clamp_between(low, high),
                z: point.z.clamp_between(low, high),
            },
        )
    } else {
        None
    }
}

/// The bits of a hundredth.
pub const SMALLEST_VIEW: u32 = 0x3c23_d70a;

/// The bits of a half turn less a hundredth.
pub const LARGEST_VIEW: u32 = 0x4048_6c04;

/// The bits of an eighth of a turn.
pub const DEFAULT_VIEW: u32 = 0x3f49_0fdb;

/// A field of view, moved into the range that can be projected; an eighth of a turn where it is
/// not finite.
pub fn sanitize_field_of_view(fov_y: Float32) -> (result: Float32)
    ensures
        result == (if fov_y.finite() {
            fov_y.clamped(Float32 { bits: SMALLEST_VIEW }, Float32 { bits: LARGEST_VIEW })
        } else {
            Float32 { bits: DEFAULT_VIEW }
        }),
{
    if fov_y.is_finite() {
        fov_y.clamp_between(Float32 { bits: SMALLEST_VIEW }, Float32 { bits: LARGEST_VIEW })
    } else {
        Float32 { bits: DEFAULT_VIEW }
    }
}

/// An aspect ratio; one where it is not finite and positive.
pub fn sanitize_aspect(aspect: Float32) -> (result: Float32)
    ensures
        result == (if aspect.finite() && aspect.rank() > 0 {
            aspect
        } else {
            Float32 { bits: ONE }
        }),
{
    if aspect.is_finite() && (Float32 { bits: 0 }).is_less(aspect) {
        aspect
    } else {
        Float32 { bits: ONE }
    }
}

/// The bits of nineteen twentieths.
pub const STEEP: u32 = 0x3f73_3333;

/// Which way is up for a light: along z where the light falls almost along y.
pub open spec fn upward(direction: Vec3) -> Vec3 {
    if (Float32 { bits: STEEP }).less(direction.y.absolute()) {
        Vec3 { x: Float32 { bits: 0 }, y: Float32 { bits: 0 }, z: Float32 { bits: ONE } }
    } else {
        Vec3 { x: Float32 { bits: 0 }, y: Float32 { bits: ONE }, z: Float32 { bits: 0 } }
    }
}

/// Which way is up for a light.
pub fn safe_up(direction: Vec3) -> (result: Vec3)
    ensures
        result == upward(direction),
{
    let zero: Float32 = Float32 { bits: 0 };
    let one: Float32 = Float32 { bits: ONE };
    if (Float32 { bits: STEEP }).is_less(direction.y.abs()) {
        Vec3 { x: zero, y: zero, z: one }
    } else {
        Vec3 { x: zero, y: one, z: zero }
    }
}

} // verus!
