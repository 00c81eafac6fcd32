//! Particles that are simulated in fixed steps.
//!
//! How particles vary comes from a hash of the index at which they were spawned, so that every
//! run gives the same particles.

use crate::float::{
    law_integers_round_to_finite_values, law_quotients_of_integers_are_finite, Float32, HALF, ONE,
    TWO,
};
use crate::math::{lemma_matrix, matrix_of, Mat4, Vec2, Vec3, Vec4};
use crate::mesh::{mesh_of, plain_vertex, Mesh, MeshVertex};
use vstd::prelude::*;

verus! {

/// The bits of a sixtieth of a second, the length of a step.
pub const PARTICLE_DT: u32 = 0x3c88_8889;

/// What particles are spawned with.
#[derive(Clone, Copy, Debug, PartialEq)]
pub struct ParticleEmitter {
    position: Vec3,
    emission_rate: usize,
    lifetime_steps: usize,
    initial_velocity: Vec3,
    velocity_variation: Vec3,
    gravity: Vec3,
    drag: Float32,
}

/// What particles are spawned with, as mathematics.
pub struct EmitterModel {
    pub position: Vec3,
    pub emission_rate: usize,
    pub lifetime_steps: usize,
    pub initial_velocity: Vec3,
    pub velocity_variation: Vec3,
    pub gravity: Vec3,
    pub drag: Float32,
}

impl View for ParticleEmitter {
    type V = EmitterModel;

    closed spec fn view(&self) -> EmitterModel {
        EmitterModel {
            position: self.position,
            emission_rate: self.emission_rate,
            lifetime_steps: self.lifetime_steps,
            initial_velocity: self.initial_velocity,
            velocity_variation: self.velocity_variation,
            gravity: self.gravity,
            drag: self.drag,
        }
    }
}

impl EmitterModel {
    /// Whether particles live for a step at least.
    pub open spec fn valid(self) -> bool {
        self.lifetime_steps >= 1
    }
}

impl ParticleEmitter {
    #[verifier::type_invariant]
    spec fn lasts(self) -> bool {
        self.lifetime_steps >= 1
    }
}

/// The origin.
pub open spec fn zero() -> Vec3 {
    Vec3 { x: Float32 { bits: 0 }, y: Float32 { bits: 0 }, z: Float32 { bits: 0 } }
}

/// A point or vector; the origin where a coordinate is not finite.
pub open spec fn finite_or_zero(value: Vec3) -> Vec3 {
    if value.x.finite() && value.y.finite() && value.z.finite() {
        value
    } else {
        zero()
    }
}

/// How many steps a particle lives: one at least.
pub open spec fn allowed_lifetime(steps: usize) -> usize {
    if steps < 1 {
        1
    } else {
        steps
    }
}

/// The share of the velocity that is lost in a step, between none and all; none where it is not
/// finite.
pub open spec fn allowed_drag(drag: Float32) -> Float32 {
    if drag.finite() {
        drag.clamped_to_unit()
    } else {
        Float32 { bits: 0 }
    }
}

fn make_finite(value: Vec3) -> (result: Vec3)
    ensures
        result == finite_or_zero(value),
{
    if value.x.is_finite() && value.y.is_finite() && value.z.is_finite() {
        value
    } else {
        let zero: Float32 = Float32 { bits: 0 };
        Vec3 { x: zero, y: zero, z: zero }
    }
}

/// What particles are spawned with, as it is made.
pub open spec fn new_emitter(
    position: Vec3,
    emission_rate: usize,
    lifetime_steps: usize,
    initial_velocity: Vec3,
) -> EmitterModel {
    EmitterModel {
        position: finite_or_zero(position),
        emission_rate,
        lifetime_steps: allowed_lifetime(lifetime_steps),
        initial_velocity: finite_or_zero(initial_velocity),
        velocity_variation: zero(),
        gravity: zero(),
        drag: Float32 { bits: 0 },
    }
}

impl ParticleEmitter {
    pub fn new(
        position: Vec3,
        emission_rate: usize,
        lifetime_steps: usize,
        initial_velocity: Vec3,
    ) -> (result: ParticleEmitter)
        ensures
            result@ == new_emitter(position, emission_rate, lifetime_steps, initial_velocity),
            result@.valid(),
    {
        let zero: Float32 = Float32 { bits: 0 };
        let nothing: Vec3 = Vec3 { x: zero, y: zero, z: zero };
        ParticleEmitter {
            position: make_finite(position),
            emission_rate,
            lifetime_steps: if lifetime_steps < 1 {
                1
            } else {
                lifetime_steps
            },
            initial_velocity: make_finite(initial_velocity),
            velocity_variation: nothing,
            gravity: nothing,
            drag: zero,
        }
    }

    pub fn position(&self) -> (result: Vec3)
        ensures
            result == self@.position,
    {
        self.position
    }

    pub fn emission_rate(&self) -> (result: usize)
        ensures
            result == self@.emission_rate,
    {
        self.emission_rate
    }

    pub fn lifetime_steps(&self) -> (result: usize)
        ensures
            result == self@.lifetime_steps,
            result >= 1,
    {
        proof {
            use_type_invariant(self);
        }
        self.lifetime_steps
    }

    pub fn initial_velocity(&self) -> (result: Vec3)
        ensures
            result == self@.initial_velocity,
    {
        self.initial_velocity
    }

    pub fn velocity_variation(&self) -> (result: Vec3)
        ensures
            result == self@.velocity_variation,
    {
        self.velocity_variation
    }

    pub fn gravity(&self) -> (result: Vec3)
        ensures
            result == self@.gravity,
    {
        self.gravity
    }

    pub fn drag(&self) -> (result: Float32)
        ensures
            result == self@.drag,
    {
        self.drag
    }

    pub fn set_position(&mut self, position: Vec3)
        ensures
            final(self)@ == (EmitterModel { position: finite_or_zero(position), ..old(self)@ }),
    {
        proof {
            use_type_invariant(&*self);
        }
        self.position = make_finite(position);
    }

    pub fn set_emission_rate(&mut self, emission_rate: usize)
        ensures
            final(self)@ == (EmitterModel { emission_rate, ..old(self)@ }),
    {
        proof {
            use_type_invariant(&*self);
        }
        self.emission_rate = emission_rate;
    }

    pub fn set_lifetime_steps(&mut self, lifetime_steps: usize)
        ensures
            final(self)@ == (EmitterModel {
                lifetime_steps: allowed_lifetime(lifetime_steps),
                ..old(self)@
            }),
    {
        self.lifetime_steps = if lifetime_steps < 1 {
            1
        } else {
            lifetime_steps
        };
    }

    pub fn set_initial_velocity(&mut self, velocity: Vec3)
        ensures
            final(self)@ == (EmitterModel {
                initial_velocity: finite_or_zero(velocity),
                ..old(self)@
            }),
    {
        proof {
            use_type_invariant(&*self);
        }
        self.initial_velocity = make_finite(velocity);
    }

    pub fn set_velocity_variation(&mut self, variation: Vec3)
        ensures
            final(self)@ == (EmitterModel {
                velocity_variation: finite_or_zero(variation),
                ..old(self)@
            }),
    {
        proof {
            use_type_invariant(&*self);
        }
        self.velocity_variation = make_finite(variation);
    }

    pub fn set_gravity(&mut self, gravity: Vec3)
        ensures
            final(self)@ == (EmitterModel { gravity: finite_or_zero(gravity), ..old(self)@ }),
    {
        proof {
            use_type_invariant(&*self);
        }
        self.gravity = make_finite(gravity);
    }

    /// Sets the share of the velocity that is lost in a step, after gravity.
    pub fn set_drag(&mut self, drag: Float32)
        ensures
            final(self)@ == (EmitterModel { drag: allowed_drag(drag), ..old(self)@ }),
    {
        proof {
            use_type_invariant(&*self);
        }
        self.drag = if drag.is_finite() {
            drag.clamp_to_unit()
        } else {
            Float32 { bits: 0 }
        };
    }
}

impl Default for ParticleEmitter {
    fn default() -> (result: ParticleEmitter)
        ensures
            result@ == new_emitter(zero(), 0, 60, zero()),
    {
        let zero: Float32 = Float32 { bits: 0 };
        let nothing: Vec3 = Vec3 { x: zero, y: zero, z: zero };
        ParticleEmitter::new(nothing, 0, 60, nothing)
    }
}

/// One particle.
#[derive(Clone, Copy, Debug, PartialEq)]
pub struct Particle {
    pub position: Vec3,
    pub velocity: Vec3,
    pub age_steps: usize,
    pub lifetime_steps: usize,
    pub spawn_index: u64,
}

/// How visible a particle is: it fades evenly over its life.
pub open spec fn alpha_of(age_steps: usize, lifetime_steps: usize) -> Float32 {
    if lifetime_steps == 0 {
        Float32 { bits: 0 }
    } else {
        Float32::of_integer(false, age_steps as nat).ratio(
            Float32::of_integer(false, lifetime_steps as nat),
        ).complement()
    }
}

/// How visible a particle is: it fades evenly over its life.
pub fn particle_alpha(age_steps: usize, lifetime_steps: usize) -> (result: Float32)
    ensures
        result == alpha_of(age_steps, lifetime_steps),
{
    if lifetime_steps == 0 {
        return Float32 { bits: 0 };
    }
    proof {
        law_integers_round_to_finite_values(age_steps as u64);
        law_integers_round_to_finite_values(lifetime_steps as u64);
        law_quotients_of_integers_are_finite(age_steps as u64, lifetime_steps as u64);
    }
    let age: Float32 = Float32::from_integer(false, age_steps as u64);
    let lifetime: Float32 = Float32::from_integer(false, lifetime_steps as u64);
    age.divide(lifetime).one_minus()
}

impl Particle {
    pub fn alpha(&self) -> (result: Float32)
        ensures
            result == alpha_of(self.age_steps, self.lifetime_steps),
    {
        particle_alpha(self.age_steps, self.lifetime_steps)
    }
}

/// Where a particle is after a step: it moves before it is accelerated.
pub open spec fn next_position(particle: Particle) -> Vec3 {
    particle.position + particle.velocity * (Float32 { bits: PARTICLE_DT })
}

/// How fast a particle is after a step: gravity acts first, and drag takes its share of the sum.
pub open spec fn next_velocity(particle: Particle, emitter: EmitterModel) -> Vec3 {
    (particle.velocity + emitter.gravity * (Float32 { bits: PARTICLE_DT })) * ((Float32 {
        bits: ONE,
    }) - emitter.drag)
}

/// A slot after a step: the particle has moved and is one step older, or it is gone.
pub open spec fn aged(slot: Option<Particle>, emitter: EmitterModel) -> Option<Particle> {
    match slot {
        None => None,
        Some(particle) => if particle.age_steps + 1 >= emitter.lifetime_steps {
            None
        } else {
            Some(
                Particle {
                    position: next_position(particle),
                    velocity: next_velocity(particle, emitter),
                    age_steps: (particle.age_steps + 1) as usize,
                    ..particle
                },
            )
        },
    }
}

/// The first empty slot from `index` on.
pub open spec fn first_free(slots: Seq<Option<Particle>>, index: int) -> int
    decreases slots.len() - index,
{
    if 0 <= index < slots.len() && slots[index] is Some {
        first_free(slots, index + 1)
    } else {
        index
    }
}

/// A hash of a number.
pub open spec fn mixed(value: u32) -> u32 {
    let first = value ^ (value >> 16);
    let second = first.wrapping_mul(0x7feb_352d);
    let third = second ^ (second >> 15);
    let fourth = third.wrapping_mul(0x846c_a68b);
    fourth ^ (fourth >> 16)
}

/// The hash of a spawn index for one of the axes.
pub open spec fn spawn_hash(index: u64, lane: u32) -> u32 {
    mixed(((index % 0x1_0000_0000) as u32).wrapping_add(lane.wrapping_mul(0x9e37_79b9)))
}

/// A value between minus one and one for a spawn index and an axis.
pub open spec fn spawn_sway(index: u64, lane: u32) -> Float32 {
    Float32::of_integer(false, (spawn_hash(index, lane) >> 8) as nat).quotient(0xff_ffff) * (
    Float32 { bits: TWO }) - (Float32 { bits: ONE })
}

/// A value between minus one and one for a spawn index and an axis: how the particle varies along
/// it.
pub fn signed_hash(index: u64, lane: u32) -> (result: Float32)
    ensures
        result == spawn_sway(index, lane),
{
    let start: u32 = ((index % 0x1_0000_0000) as u32).wrapping_add(lane.wrapping_mul(0x9e37_79b9));
    let first: u32 = start ^ (start >> 16);
    let second: u32 = first.wrapping_mul(0x7feb_352d);
    let third: u32 = second ^ (second >> 15);
    let fourth: u32 = third.wrapping_mul(0x846c_a68b);
    let value: u32 = fourth ^ (fourth >> 16);
    let unit: Float32 = Float32::from_integer(false, (value >> 8) as u64).divide_by(0xff_ffff);
    unit * Float32 { bits: TWO } - Float32 { bits: ONE }
}

/// How fast a particle is as it is spawned.
pub open spec fn spawn_speed(emitter: EmitterModel, spawn_index: u64) -> Vec3 {
    let base = emitter.initial_velocity;
    let variation = emitter.velocity_variation;
    Vec3 {
        x: base.x + variation.x * spawn_sway(spawn_index, 0),
        y: base.y + variation.y * spawn_sway(spawn_index, 1),
        z: base.z + variation.z * spawn_sway(spawn_index, 2),
    }
}

/// A particle as it is spawned.
pub open spec fn newborn(emitter: EmitterModel, spawn_index: u64) -> Particle {
    Particle {
        position: emitter.position,
        velocity: spawn_speed(emitter, spawn_index),
        age_steps: 0,
        lifetime_steps: emitter.lifetime_steps,
        spawn_index,
    }
}

/// The slots, and the next spawn index, once particles are spawned: `left` more of them, as long
/// as there is an empty slot, each into the first one.
pub open spec fn spawned(
    emitter: EmitterModel,
    slots: Seq<Option<Particle>>,
    spawn_index: u64,
    left: nat,
) -> (Seq<Option<Particle>>, u64)
    decreases left,
{
    let free = first_free(slots, 0);
    if left == 0 || free >= slots.len() {
        (slots, spawn_index)
    } else {
        spawned(
            emitter,
            slots.update(free, Some(newborn(emitter, spawn_index))),
            spawn_index.wrapping_add(1),
            (left - 1) as nat,
        )
    }
}

/// Particles and the slots that they live in.
#[derive(Debug)]
pub struct ParticleSystem {
    emitter: ParticleEmitter,
    slots: Vec<Option<Particle>>,
    step_index: u64,
    next_spawn_index: u64,
}

/// Particles and their slots, as mathematics.
#[verifier::ext_equal]
pub struct SystemModel {
    pub emitter: EmitterModel,
    pub slots: Seq<Option<Particle>>,
    pub step_index: u64,
    pub next_spawn_index: u64,
}

impl View for ParticleSystem {
    type V = SystemModel;

    closed spec fn view(&self) -> SystemModel {
        SystemModel {
            emitter: self.emitter@,
            slots: self.slots@,
            step_index: self.step_index,
            next_spawn_index: self.next_spawn_index,
        }
    }
}

/// Whether every particle is younger than some number of steps.
pub open spec fn all_young(slots: Seq<Option<Particle>>, lifetime_steps: usize) -> bool {
    forall|i: int|
        0 <= i < slots.len() ==> ((#[trigger] slots[i]) matches Some(particle)
            ==> particle.age_steps < lifetime_steps)
}

impl SystemModel {
    /// Whether particles live for a step at least, and none is as old as can be counted.
    pub open spec fn sound(self) -> bool {
        &&& self.emitter.valid()
        &&& forall|i: int|
            0 <= i < self.slots.len() ==> ((#[trigger] self.slots[i]) matches Some(particle)
                ==> particle.age_steps < usize::MAX)
    }

    /// Whether every particle is younger than the emitter lets particles become.
    pub open spec fn young(self) -> bool {
        all_young(self.slots, self.emitter.lifetime_steps)
    }

    /// The slots once every particle has moved.
    pub open spec fn moved(self) -> Seq<Option<Particle>> {
        Seq::new(self.slots.len(), |i: int| aged(self.slots[i], self.emitter))
    }

    /// The system after a step.
    pub open spec fn stepped(self) -> SystemModel {
        let (slots, next_spawn_index) = spawned(
            self.emitter,
            self.moved(),
            self.next_spawn_index,
            self.emitter.emission_rate as nat,
        );
        SystemModel {
            emitter: self.emitter,
            slots,
            step_index: self.step_index.wrapping_add(1),
            next_spawn_index,
        }
    }

    /// The system after some steps.
    pub open spec fn stepped_often(self, steps: nat) -> SystemModel
        decreases steps,
    {
        if steps == 0 {
            self
        } else {
            self.stepped_often((steps - 1) as nat).stepped()
        }
    }
}

/// How many slots hold a particle.
pub open spec fn live(slots: Seq<Option<Particle>>) -> nat
    decreases slots.len(),
{
    if slots.len() == 0 {
        0
    } else {
        live(slots.drop_last()) + if slots.last() is Some {
            1nat
        } else {
            0nat
        }
    }
}

/// The slots that hold a particle, with the particle.
pub open spec fn live_slots(slots: Seq<Option<Particle>>) -> Seq<(usize, Particle)>
    decreases slots.len(),
{
    if slots.len() == 0 {
        Seq::empty()
    } else {
        let before = live_slots(slots.drop_last());
        match slots.last() {
            Some(particle) => before.push(((slots.len() - 1) as usize, particle)),
            None => before,
        }
    }
}

proof fn lemma_live_update(slots: Seq<Option<Particle>>, at: int, particle: Particle)
    requires
        0 <= at < slots.len(),
        slots[at] is None,
    ensures
        live(slots.update(at, Some(particle))) == live(slots) + 1,
    decreases slots.len(),
{
    let after = slots.update(at, Some(particle));
    if at == slots.len() - 1 {
        assert(after.drop_last() =~= slots.drop_last());
    } else {
        assert(after.drop_last() =~= slots.drop_last().update(at, Some(particle)));
        lemma_live_update(slots.drop_last(), at, particle);
    }
}

proof fn lemma_live_within(slots: Seq<Option<Particle>>)
    ensures
        live(slots) <= slots.len(),
    decreases slots.len(),
{
    if slots.len() > 0 {
        lemma_live_within(slots.drop_last());
    }
}

proof fn lemma_first_free(slots: Seq<Option<Particle>>, index: int)
    requires
        0 <= index <= slots.len(),
    ensures
        index <= first_free(slots, index) <= slots.len(),
        first_free(slots, index) < slots.len() ==> slots[first_free(slots, index)] is None,
        forall|i: int| index <= i < first_free(slots, index) ==> (#[trigger] slots[i]) is Some,
    decreases slots.len() - index,
{
    if index < slots.len() && slots[index] is Some {
        lemma_first_free(slots, index + 1);
    }
}

proof fn lemma_spawned_are_young(
    emitter: EmitterModel,
    slots: Seq<Option<Particle>>,
    spawn_index: u64,
    left: nat,
)
    requires
        emitter.valid(),
        all_young(slots, emitter.lifetime_steps),
    ensures
        all_young(spawned(emitter, slots, spawn_index, left).0, emitter.lifetime_steps),
    decreases left,
{
    let free = first_free(slots, 0);
    if left > 0 && free < slots.len() {
        lemma_first_free(slots, 0);
        lemma_spawned_are_young(
            emitter,
            slots.update(free, Some(newborn(emitter, spawn_index))),
            spawn_index.wrapping_add(1),
            (left - 1) as nat,
        );
    }
}

/// After a step every live particle is younger than the emitter lets particles become: whoever
/// reached that age is gone.
pub proof fn law_particles_are_young_after_a_step(system: SystemModel)
    requires
        system.emitter.valid(),
    ensures
        system.stepped().young(),
{
    lemma_spawned_are_young(
        system.emitter,
        system.moved(),
        system.next_spawn_index,
        system.emitter.emission_rate as nat,
    );
}

/// A particle keeps its slot and grows one step older for as long as it is young enough, and
/// leaves its slot at the step in which it no longer is.
pub proof fn law_particles_live_out_their_time(system: SystemModel, slot: int)
    requires
        0 <= slot < system.slots.len(),
        system.slots[slot] is Some,
        system.slots[slot]->0.age_steps < usize::MAX,
    ensures
        system.slots[slot]->0.age_steps + 1 < system.emitter.lifetime_steps ==> ({
            &&& system.stepped().slots[slot] is Some
            &&& system.stepped().slots[slot]->0.age_steps == system.slots[slot]->0.age_steps + 1
            &&& system.stepped().slots[slot]->0.spawn_index == system.slots[slot]->0.spawn_index
        }),
        system.slots[slot]->0.age_steps + 1 >= system.emitter.lifetime_steps
            ==> system.moved()[slot] is None,
{
    lemma_spawning_keeps_particles(
        system.emitter,
        system.moved(),
        system.next_spawn_index,
        system.emitter.emission_rate as nat,
        slot,
    );
}

proof fn lemma_spawning_keeps_particles(
    emitter: EmitterModel,
    slots: Seq<Option<Particle>>,
    spawn_index: u64,
    left: nat,
    slot: int,
)
    requires
        0 <= slot < slots.len(),
    ensures
        spawned(emitter, slots, spawn_index, left).0.len() == slots.len(),
        slots[slot] is Some ==> spawned(emitter, slots, spawn_index, left).0[slot] == slots[slot],
    decreases left,
{
    let free = first_free(slots, 0);
    if left > 0 && free < slots.len() {
        lemma_first_free(slots, 0);
        lemma_spawning_keeps_particles(
            emitter,
            slots.update(free, Some(newborn(emitter, spawn_index))),
            spawn_index.wrapping_add(1),
            (left - 1) as nat,
            slot,
        );
    }
}

fn find_free(slots: &Vec<Option<Particle>>) -> (result: usize)
    ensures
        result == first_free(slots@, 0),
        result <= slots@.len(),
{
    let mut i: usize = 0;
    while i < slots.len() && slots[i].is_some()
        invariant
            i <= slots@.len(),
            first_free(slots@, 0) == first_free(slots@, i as int),
        decreases slots@.len() - i,
    {
        i += 1;
    }
    i
}

fn empty_slots(capacity: usize) -> (result: Vec<Option<Particle>>)
    ensures
        result@ == Seq::new(capacity as nat, |i: int| None::<Particle>),
{
    let mut slots: Vec<Option<Particle>> = Vec::new();
    let mut i: usize = 0;
    while i < capacity
        invariant
            i <= capacity,
            slots@ =~= Seq::new(i as nat, |j: int| None::<Particle>),
        decreases capacity - i,
    {
        slots.push(None);
        i += 1;
    }
    slots
}

impl ParticleSystem {
    pub fn new(emitter: ParticleEmitter, capacity: usize) -> (result: ParticleSystem)
        ensures
            result@.sound(),
            result@ == (SystemModel {
                emitter: emitter@,
                slots: Seq::new(capacity as nat, |i: int| None),
                step_index: 0,
                next_spawn_index: 0,
            }),
    {
        proof {
            use_type_invariant(&emitter);
        }
        ParticleSystem {
            emitter,
            slots: empty_slots(capacity),
            step_index: 0,
            next_spawn_index: 0,
        }
    }

    pub fn from_emitter(emitter: ParticleEmitter, capacity: usize) -> (result: ParticleSystem)
        ensures
            result@.sound(),
            result@ == (SystemModel {
                emitter: emitter@,
                slots: Seq::new(capacity as nat, |i: int| None),
                step_index: 0,
                next_spawn_index: 0,
            }),
    {
        ParticleSystem::new(emitter, capacity)
    }

    pub fn emitter(&self) -> (result: ParticleEmitter)
        ensures
            result@ == self@.emitter,
    {
        self.emitter
    }

    pub fn set_emitter(&mut self, emitter: ParticleEmitter)
        ensures
            final(self)@ == (SystemModel { emitter: emitter@, ..old(self)@ }),
            old(self)@.sound() ==> final(self)@.sound(),
    {
        proof {
            use_type_invariant(&emitter);
        }
        self.emitter = emitter;
    }

    pub fn capacity(&self) -> (result: usize)
        ensures
            result == self@.slots.len(),
    {
        self.slots.len()
    }

    pub fn step_index(&self) -> (result: u64)
        ensures
            result == self@.step_index,
    {
        self.step_index
    }

    /// The index of the next particle that is spawned.
    pub fn next_spawn_index(&self) -> (result: u64)
        ensures
            result == self@.next_spawn_index,
    {
        self.next_spawn_index
    }

    pub fn slots(&self) -> (result: &[Option<Particle>])
        ensures
            result@ == self@.slots,
    {
        self.slots.as_slice()
    }

    pub fn live_count(&self) -> (result: usize)
        ensures
            result == live(self@.slots),
    {
        let mut count: usize = 0;
        let mut i: usize = 0;
        assert(self.slots@.take(0) =~= Seq::empty());
        while i < self.slots.len()
            invariant
                i <= self.slots@.len(),
                count <= i,
                count == live(self.slots@.take(i as int)),
            decreases self.slots@.len() - i,
        {
            assert(self.slots@.take(i + 1).drop_last() =~= self.slots@.take(i as int));
            if self.slots[i].is_some() {
                count += 1;
            }
            i += 1;
        }
        assert(self.slots@.take(self.slots@.len() as int) =~= self.slots@);
        count
    }

    pub fn particle(&self, slot: usize) -> (result: Option<Particle>)
        ensures
            result == (if slot < self@.slots.len() {
                self@.slots[slot as int]
            } else {
                None
            }),
    {
        if slot < self.slots.len() {
            self.slots[slot]
        } else {
            None
        }
    }

    /// The live particles with their slots.
    pub fn live_particles(&self) -> (result: Vec<(usize, Particle)>)
        ensures
            result@ == live_slots(self@.slots),
    {
        let mut found: Vec<(usize, Particle)> = Vec::new();
        let mut i: usize = 0;
        assert(self.slots@.take(0) =~= Seq::empty());
        while i < self.slots.len()
            invariant
                i <= self.slots@.len(),
                found@ == live_slots(self.slots@.take(i as int)),
            decreases self.slots@.len() - i,
        {
            assert(self.slots@.take(i + 1).drop_last() =~= self.slots@.take(i as int));
            match self.slots[i] {
                Some(particle) => found.push((i, particle)),
                None => {},
            }
            i += 1;
        }
        assert(self.slots@.take(self.slots@.len() as int) =~= self.slots@);
        found
    }

    pub fn reset(&mut self)
        ensures
            final(self)@ == (SystemModel {
                emitter: old(self)@.emitter,
                slots: Seq::new(old(self)@.slots.len(), |i: int| None),
                step_index: 0,
                next_spawn_index: 0,
            }),
            final(self)@.sound(),
    {
        proof {
            use_type_invariant(&self.emitter);
        }
        self.slots = empty_slots(self.slots.len());
        self.step_index = 0;
        self.next_spawn_index = 0;
    }

    /// Moves and ages every particle.
    fn move_all(&mut self)
        requires
            old(self)@.sound(),
        ensures
            final(self)@.sound(),
            final(self)@ == (SystemModel { slots: old(self)@.moved(), ..old(self)@ }),
    {
        let duration: Float32 = Float32 { bits: PARTICLE_DT };
        let lifetime: usize = self.emitter.lifetime_steps;
        let gravity: Vec3 = self.emitter.gravity;
        let kept: Float32 = Float32 { bits: ONE } - self.emitter.drag;
        let ghost before = self@;
        let mut i: usize = 0;
        while i < self.slots.len()
            invariant
                i <= self.slots@.len(),
                before == old(self)@,
                before.sound(),
                duration == (Float32 { bits: PARTICLE_DT }),
                lifetime == before.emitter.lifetime_steps,
                gravity == before.emitter.gravity,
                kept == (Float32 { bits: ONE }) - before.emitter.drag,
                self.slots@.len() == before.slots.len(),
                self.emitter == old(self).emitter,
                self.step_index == old(self).step_index,
                self.next_spawn_index == old(self).next_spawn_index,
                forall|j: int|
                    0 <= j < i ==> #[trigger] self.slots@[j] == aged(
                        before.slots[j],
                        before.emitter,
                    ),
                forall|j: int|
                    i <= j < before.slots.len() ==> #[trigger] self.slots@[j] == before.slots[j],
            decreases self.slots@.len() - i,
        {
            match self.slots[i] {
                None => {},
                Some(particle) => {
                    assert(before.slots[i as int] == Some(particle));
                    let age: usize = particle.age_steps + 1;
                    let next: Option<Particle> = if age >= lifetime {
                        None
                    } else {
                        Some(
                            Particle {
                                position: particle.position + particle.velocity * duration,
                                velocity: (particle.velocity + gravity * duration) * kept,
                                age_steps: age,
                                lifetime_steps: particle.lifetime_steps,
                                spawn_index: particle.spawn_index,
                            },
                        )
                    };
                    self.slots.set(i, next);
                },
            }
            i += 1;
        }
        assert(self.slots@ =~= before.moved());
        assert forall|j: int| 0 <= j < self@.slots.len() implies ((
        #[trigger] self@.slots[j]) matches Some(particle) ==> particle.age_steps < usize::MAX) by {
            assert(self@.slots[j] == before.moved()[j]);
        }
    }

    fn spawn_velocity(&self, spawn_index: u64) -> (result: Vec3)
        ensures
            result == spawn_speed(self@.emitter, spawn_index),
    {
        let base: Vec3 = self.emitter.initial_velocity;
        let variation: Vec3 = self.emitter.velocity_variation;
        Vec3 {
            x: base.x + variation.x * signed_hash(spawn_index, 0),
            y: base.y + variation.y * signed_hash(spawn_index, 1),
            z: base.z + variation.z * signed_hash(spawn_index, 2),
        }
    }

    /// Advances by one step.
    pub fn step(&mut self)
        requires
            old(self)@.sound(),
        ensures
            final(self)@.sound(),
            final(self)@.young(),
            final(self)@ == old(self)@.stepped(),
    {
        proof {
            law_particles_are_young_after_a_step(self@);
        }
        self.move_all();
        let ghost before = self@;
        let rate: usize = self.emitter.emission_rate;
        let mut done: usize = 0;
        while done < rate
            invariant_except_break
                done <= rate,
                before == (SystemModel { slots: old(self)@.moved(), ..old(self)@ }),
                rate == before.emitter.emission_rate,
                self@.sound(),
                self.emitter == old(self).emitter,
                self.step_index == old(self).step_index,
                spawned(before.emitter, before.slots, before.next_spawn_index, rate as nat)
                    == spawned(
                    before.emitter,
                    self@.slots,
                    self@.next_spawn_index,
                    (rate - done) as nat,
                ),
            ensures
                self@.sound(),
                self.emitter == old(self).emitter,
                self.step_index == old(self).step_index,
                spawned(before.emitter, before.slots, before.next_spawn_index, rate as nat) == (
                    self@.slots,
                    self@.next_spawn_index,
                ),
            decreases rate - done,
        {
            let slot: usize = find_free(&self.slots);
            if slot >= self.slots.len() {
                break;
            }
            let spawn_index: u64 = self.next_spawn_index;
            let velocity: Vec3 = self.spawn_velocity(spawn_index);
            self.next_spawn_index = self.next_spawn_index.wrapping_add(1);
            let particle: Particle = Particle {
                position: self.emitter.position,
                velocity,
                age_steps: 0,
                lifetime_steps: self.emitter.lifetime_steps,
                spawn_index,
            };
            let ghost slots = self@.slots;
            assert(particle == newborn(before.emitter, spawn_index));
            self.slots.set(slot, Some(particle));
            assert(self@.slots =~= slots.update(slot as int, Some(particle)));
            done += 1;
        }
        self.step_index = self.step_index.wrapping_add(1);
    }

    /// Advances by some steps.
    pub fn step_n(&mut self, steps: usize)
        requires
            old(self)@.sound(),
        ensures
            final(self)@.sound(),
            steps > 0 ==> final(self)@.young(),
            final(self)@ == old(self)@.stepped_often(steps as nat),
    {
        let mut done: usize = 0;
        while done < steps
            invariant
                done <= steps,
                self@.sound(),
                done > 0 ==> self@.young(),
                self@ == old(self)@.stepped_often(done as nat),
            decreases steps - done,
        {
            self.step();
            done += 1;
        }
    }
}

/// The bytes of a number, the lowest first.
pub open spec fn low_bytes(value: nat, count: nat) -> Seq<u8>
    decreases count,
{
    if count == 0 {
        Seq::empty()
    } else {
        seq![(value % 256) as u8] + low_bytes(value / 256, (count - 1) as nat)
    }
}

/// The bytes of a vector.
pub open spec fn vector_bytes(value: Vec3) -> Seq<u8> {
    low_bytes(value.x.bits as nat, 4) + low_bytes(value.y.bits as nat, 4) + low_bytes(
        value.z.bits as nat,
        4,
    )
}

/// The bytes of a slot: a mark, and the particle where there is one.
pub open spec fn slot_bytes(slot: Option<Particle>) -> Seq<u8> {
    match slot {
        None => seq![0u8],
        Some(particle) => seq![1u8] + vector_bytes(particle.position) + vector_bytes(
            particle.velocity,
        ) + low_bytes(particle.age_steps as nat, 8) + low_bytes(particle.lifetime_steps as nat, 8)
            + low_bytes(particle.spawn_index as nat, 8),
    }
}

/// The bytes of slots.
pub open spec fn slots_bytes(slots: Seq<Option<Particle>>) -> Seq<u8>
    decreases slots.len(),
{
    if slots.len() == 0 {
        Seq::empty()
    } else {
        slots_bytes(slots.drop_last()) + slot_bytes(slots.last())
    }
}

impl SystemModel {
    /// The bytes of the counters and all slots.
    pub open spec fn bytes(self) -> Seq<u8> {
        low_bytes(self.step_index as nat, 8) + low_bytes(self.next_spawn_index as nat, 8)
            + low_bytes(self.slots.len(), 8) + slots_bytes(self.slots)
    }
}

fn push_number(bytes: &mut Vec<u8>, value: u64, count: usize)
    ensures
        final(bytes)@ == old(bytes)@ + low_bytes(value as nat, count as nat),
    decreases count,
{
    let ghost start = bytes@;
    if count == 0 {
        assert(bytes@ =~= start + low_bytes(value as nat, 0));
        return ;
    }
    bytes.push((value % 256) as u8);
    push_number(bytes, value / 256, count - 1);
    proof {
        let rest = low_bytes((value / 256) as nat, (count - 1) as nat);
        let first = seq![(value % 256) as u8];
        assert(start.push((value % 256) as u8) + rest =~= start + (first + rest));
    }
}

fn push_vector(bytes: &mut Vec<u8>, value: Vec3)
    ensures
        final(bytes)@ == old(bytes)@ + vector_bytes(value),
{
    let ghost start = bytes@;
    push_number(bytes, value.x.bits as u64, 4);
    push_number(bytes, value.y.bits as u64, 4);
    push_number(bytes, value.z.bits as u64, 4);
    assert(bytes@ =~= start + vector_bytes(value));
}

fn push_slot(bytes: &mut Vec<u8>, slot: Option<Particle>)
    ensures
        final(bytes)@ == old(bytes)@ + slot_bytes(slot),
{
    let ghost start = bytes@;
    match slot {
        None => {
            bytes.push(0);
        },
        Some(particle) => {
            bytes.push(1);
            push_vector(bytes, particle.position);
            push_vector(bytes, particle.velocity);
            push_number(bytes, particle.age_steps as u64, 8);
            push_number(bytes, particle.lifetime_steps as u64, 8);
            push_number(bytes, particle.spawn_index, 8);
        },
    }
    assert(bytes@ =~= start + slot_bytes(slot));
}

impl ParticleSystem {
    /// The bytes of the counters and all slots, each number with its lowest byte first.
    pub fn state_bytes(&self) -> (result: Vec<u8>)
        ensures
            result@ == self@.bytes(),
    {
        let mut bytes: Vec<u8> = Vec::new();
        push_number(&mut bytes, self.step_index, 8);
        push_number(&mut bytes, self.next_spawn_index, 8);
        push_number(&mut bytes, self.slots.len() as u64, 8);
        let ghost head = bytes@;
        assert(head =~= low_bytes(self@.step_index as nat, 8) + low_bytes(
            self@.next_spawn_index as nat,
            8,
        ) + low_bytes(self@.slots.len(), 8));
        let mut i: usize = 0;
        assert(self.slots@.take(0) =~= Seq::empty());
        assert(head + Seq::empty() =~= head);
        while i < self.slots.len()
            invariant
                i <= self.slots@.len(),
                bytes@ == head + slots_bytes(self.slots@.take(i as int)),
            decreases self.slots@.len() - i,
        {
            let ghost before = slots_bytes(self.slots@.take(i as int));
            push_slot(&mut bytes, self.slots[i]);
            proof {
                assert(self.slots@.take(i + 1).drop_last() =~= self.slots@.take(i as int));
                let added = slot_bytes(self.slots@[i as int]);
                assert((head + before) + added =~= head + (before + added));
            }
            i += 1;
        }
        assert(self.slots@.take(self.slots@.len() as int) =~= self.slots@);
        bytes
    }
}

/// A channel of a tint: between none and all, and all where it is not finite.
pub open spec fn tint_channel(value: Float32) -> Float32 {
    if value.finite() {
        value.clamped_to_unit()
    } else {
        Float32 { bits: ONE }
    }
}

fn make_tint_channel(value: Float32) -> (result: Float32)
    ensures
        result == tint_channel(value),
{
    if value.is_finite() {
        value.clamp_to_unit()
    } else {
        Float32 { bits: ONE }
    }
}

/// A tint whose channels can be used.
pub open spec fn usable_tint(tint: Vec4) -> Vec4 {
    Vec4 {
        x: tint_channel(tint.x),
        y: tint_channel(tint.y),
        z: tint_channel(tint.z),
        w: tint_channel(tint.w),
    }
}

/// A tint whose channels can be used.
pub fn sanitize_tint(tint: Vec4) -> (result: Vec4)
    ensures
        result == usable_tint(tint),
{
    Vec4 {
        x: make_tint_channel(tint.x),
        y: make_tint_channel(tint.y),
        z: make_tint_channel(tint.z),
        w: make_tint_channel(tint.w),
    }
}

/// The size of a particle: not negative, and none where it is not finite.
pub open spec fn usable_size(size: Float32) -> Float32 {
    if size.finite() && size.rank() > 0 {
        size
    } else {
        Float32 { bits: 0 }
    }
}

/// The size of a particle: not negative, and none where it is not finite.
pub fn sanitize_size(size: Float32) -> (result: Float32)
    ensures
        result == usable_size(size),
{
    if size.is_finite() && (Float32 { bits: 0 }).is_less(size) {
        size
    } else {
        Float32 { bits: 0 }
    }
}

/// The elements of the matrix that turns the square of a particle toward the viewer: the axes of
/// the view, scaled by the size, and the position.
pub open spec fn billboard_elements(view: Mat4, position: Vec3, size: Float32) -> Seq<Float32> {
    let scale = usable_size(size);
    let zero = Float32 { bits: 0 };
    seq![
        view@[0] * scale,
        view@[4] * scale,
        view@[8] * scale,
        zero,
        view@[1] * scale,
        view@[5] * scale,
        view@[9] * scale,
        zero,
        view@[2].opposite() * scale,
        view@[6].opposite() * scale,
        view@[10].opposite() * scale,
        zero,
        position.x,
        position.y,
        position.z,
        Float32 { bits: ONE },
    ]
}

/// The matrix that turns the square of a particle toward the viewer.
pub fn billboard_model(view: Mat4, position: Vec3, size: Float32) -> (result: Mat4)
    ensures
        result == matrix_of(billboard_elements(view, position, size)),
        result@ == billboard_elements(view, position, size),
{
    let scale: Float32 = sanitize_size(size);
    let zero: Float32 = Float32 { bits: 0 };
    let elements: [Float32; 16] = [
        view.data[0] * scale,
        view.data[4] * scale,
        view.data[8] * scale,
        zero,
        view.data[1] * scale,
        view.data[5] * scale,
        view.data[9] * scale,
        zero,
        view.data[2].negate() * scale,
        view.data[6].negate() * scale,
        view.data[10].negate() * scale,
        zero,
        position.x,
        position.y,
        position.z,
        Float32 { bits: ONE },
    ];
    let result: Mat4 = Mat4 { data: elements };
    proof {
        assert(elements@ =~= billboard_elements(view, position, size));
        lemma_matrix(result, billboard_elements(view, position, size));
    }
    result
}

/// How a particle is drawn: the matrix of its square, and its tint.
#[derive(Clone, Copy, Debug, PartialEq)]
pub struct ParticleInstance {
    pub model: Mat4,
    pub tint: Vec4,
}

/// How a particle is drawn. The fade acts on the opacity of the tint, once.
pub open spec fn instance_of(
    view: Mat4,
    particle: Particle,
    size: Float32,
    tint: Vec4,
) -> ParticleInstance {
    ParticleInstance {
        model: matrix_of(billboard_elements(view, particle.position, usable_size(size))),
        tint: Vec4 {
            w: usable_tint(tint).w * alpha_of(particle.age_steps, particle.lifetime_steps),
            ..usable_tint(tint)
        },
    }
}

impl ParticleSystem {
    /// How the live particles are drawn, slot by slot, in a view.
    pub fn billboard_instances(&self, view: Mat4, size: Float32, tint: Vec4) -> (result: Vec<
        ParticleInstance,
    >)
        ensures
            result@ == Seq::new(
                live_slots(self@.slots).len(),
                |i: int| instance_of(view, live_slots(self@.slots)[i].1, size, tint),
            ),
    {
        let ghost size_given = size;
        let ghost tint_given = tint;
        let size: Float32 = sanitize_size(size);
        let tint: Vec4 = sanitize_tint(tint);
        let particles: Vec<(usize, Particle)> = self.live_particles();
        let mut instances: Vec<ParticleInstance> = Vec::new();
        let ghost wanted = Seq::new(
            live_slots(self@.slots).len(),
            |i: int| instance_of(view, live_slots(self@.slots)[i].1, size_given, tint_given),
        );
        let mut i: usize = 0;
        while i < particles.len()
            invariant
                i <= particles@.len(),
                particles@ == live_slots(self@.slots),
                size == usable_size(size_given),
                tint == usable_tint(tint_given),
                wanted == Seq::new(
                    particles@.len(),
                    |k: int| instance_of(view, particles@[k].1, size_given, tint_given),
                ),
                instances@ =~= wanted.take(i as int),
            decreases particles@.len() - i,
        {
            let particle: Particle = particles[i].1;
            let instance: ParticleInstance = ParticleInstance {
                model: billboard_model(view, particle.position, size),
                tint: Vec4 { x: tint.x, y: tint.y, z: tint.z, w: tint.w * particle.alpha() },
            };
            assert(instance == wanted[i as int]);
            instances.push(instance);
            i += 1;
        }
        assert(instances@ =~= wanted);
        instances
    }
}

/// A corner of the square that particles are drawn with.
pub open spec fn quad_vertex(corner: int) -> MeshVertex {
    let low = Float32 { bits: HALF }.opposite();
    let high = Float32 { bits: HALF };
    let zero = Float32 { bits: 0 };
    let one = Float32 { bits: ONE };
    let right = corner == 1 || corner == 2;
    let above = corner >= 2;
    plain_vertex(
        Vec3 {
            x: if right {
                high
            } else {
                low
            },
            y: if above {
                high
            } else {
                low
            },
            z: zero,
        },
        Some(
            Vec2 {
                x: if right {
                    one
                } else {
                    zero
                },
                y: if above {
                    zero
                } else {
                    one
                },
            },
        ),
        None,
        false,
    )
}

fn make_quad_vertex(corner: usize) -> (result: MeshVertex)
    requires
        corner < 4,
    ensures
        result == quad_vertex(corner as int),
{
    let high: Float32 = Float32 { bits: HALF };
    let low: Float32 = high.negate();
    let zero: Float32 = Float32 { bits: 0 };
    let one: Float32 = Float32 { bits: ONE };
    let right: bool = corner == 1 || corner == 2;
    let above: bool = corner >= 2;
    let x: Float32 = if right {
        high
    } else {
        low
    };
    let y: Float32 = if above {
        high
    } else {
        low
    };
    let u: Float32 = if right {
        one
    } else {
        zero
    };
    let v: Float32 = if above {
        zero
    } else {
        one
    };
    MeshVertex::new(Vec3 { x, y, z: zero }, Some(Vec2 { x: u, y: v }), None)
}

/// The square that particles are drawn with.
pub fn billboard_quad() -> (result: Mesh)
    ensures
        result@ == mesh_of(
            Seq::new(4, |i: int| quad_vertex(i)),
            seq![[0usize, 1, 2], [0usize, 2, 3]],
        ),
{
    let mut vertices: Vec<MeshVertex> = Vec::new();
    vertices.push(make_quad_vertex(0));
    vertices.push(make_quad_vertex(1));
    vertices.push(make_quad_vertex(2));
    vertices.push(make_quad_vertex(3));
    let mut triangles: Vec<[usize; 3]> = Vec::new();
    triangles.push([0, 1, 2]);
    triangles.push([0, 2, 3]);
    assert(vertices@ =~= Seq::new(4, |i: int| quad_vertex(i)));
    assert(triangles@ =~= seq![[0usize, 1, 2], [0usize, 2, 3]]);
    Mesh::new(vertices, triangles)
}

proof fn lemma_low_bytes_differ(left: nat, right: nat, count: nat)
    requires
        left < vstd::arithmetic::power::pow(256, count),
        right < vstd::arithmetic::power::pow(256, count),
        low_bytes(left, count) == low_bytes(right, count),
    ensures
        left == right,
    decreases count,
{
    reveal(vstd::arithmetic::power::pow);
    if count > 0 {
        let small = (count - 1) as nat;
        let limit = vstd::arithmetic::power::pow(256, small);
        assert(vstd::arithmetic::power::pow(256, count) == 256 * limit);
        assert(low_bytes(left, count)[0] == (left % 256) as u8);
        assert(low_bytes(right, count)[0] == (right % 256) as u8);
        assert(low_bytes(left, count).skip(1) =~= low_bytes(left / 256, small));
        assert(low_bytes(right, count).skip(1) =~= low_bytes(right / 256, small));
        assert(left / 256 < limit && right / 256 < limit);
        lemma_low_bytes_differ(left / 256, right / 256, small);
        assert(left % 256 == right % 256);
    } else {
        assert(vstd::arithmetic::power::pow(256, 0) == 1);
    }
}

proof fn lemma_low_bytes_length(value: nat, count: nat)
    ensures
        low_bytes(value, count).len() == count,
    decreases count,
{
    if count > 0 {
        lemma_low_bytes_length(value / 256, (count - 1) as nat);
    }
}

proof fn lemma_limits()
    ensures
        vstd::arithmetic::power::pow(256, 4) == 0x1_0000_0000,
        vstd::arithmetic::power::pow(256, 8) == 0x1_0000_0000_0000_0000,
{
    reveal(vstd::arithmetic::power::pow);
    assert(vstd::arithmetic::power::pow(256, 0) == 1);
    assert(vstd::arithmetic::power::pow(256, 1) == 256);
    assert(vstd::arithmetic::power::pow(256, 2) == 0x1_0000);
    assert(vstd::arithmetic::power::pow(256, 3) == 0x100_0000);
    assert(vstd::arithmetic::power::pow(256, 4) == 0x1_0000_0000);
    assert(vstd::arithmetic::power::pow(256, 5) == 0x100_0000_0000);
    assert(vstd::arithmetic::power::pow(256, 6) == 0x1_0000_0000_0000);
    assert(vstd::arithmetic::power::pow(256, 7) == 0x100_0000_0000_0000);
}

proof fn lemma_same_halves(left: Seq<u8>, left_rest: Seq<u8>, right: Seq<u8>, right_rest: Seq<u8>)
    requires
        left.len() == right.len(),
        left + left_rest == right + right_rest,
    ensures
        left == right,
        left_rest == right_rest,
{
    let all = left + left_rest;
    assert(all.len() == (right + right_rest).len());
    assert(left =~= all.take(left.len() as int));
    assert(right =~= all.take(left.len() as int));
    assert(left_rest =~= all.skip(left.len() as int));
    assert(right_rest =~= all.skip(left.len() as int));
}

proof fn lemma_same_number(left: nat, left_rest: Seq<u8>, right: nat, right_rest: Seq<u8>, count: nat)
    requires
        count == 4 || count == 8,
        count == 4 ==> left < 0x1_0000_0000 && right < 0x1_0000_0000,
        count == 8 ==> left < 0x1_0000_0000_0000_0000 && right < 0x1_0000_0000_0000_0000,
        low_bytes(left, count) + left_rest == low_bytes(right, count) + right_rest,
    ensures
        left == right,
        left_rest == right_rest,
{
    lemma_limits();
    lemma_low_bytes_length(left, count);
    lemma_low_bytes_length(right, count);
    lemma_same_halves(low_bytes(left, count), left_rest, low_bytes(right, count), right_rest);
    lemma_low_bytes_differ(left, right, count);
}

proof fn lemma_same_vector(left: Vec3, left_rest: Seq<u8>, right: Vec3, right_rest: Seq<u8>)
    requires
        vector_bytes(left) + left_rest == vector_bytes(right) + right_rest,
    ensures
        left == right,
        left_rest == right_rest,
{
    let (a, b, c) = (
        low_bytes(left.x.bits as nat, 4),
        low_bytes(left.y.bits as nat, 4),
        low_bytes(left.z.bits as nat, 4),
    );
    let (d, e, f) = (
        low_bytes(right.x.bits as nat, 4),
        low_bytes(right.y.bits as nat, 4),
        low_bytes(right.z.bits as nat, 4),
    );
    assert(vector_bytes(left) + left_rest =~= a + (b + (c + left_rest)));
    assert(vector_bytes(right) + right_rest =~= d + (e + (f + right_rest)));
    lemma_same_number(
        left.x.bits as nat,
        b + (c + left_rest),
        right.x.bits as nat,
        e + (f + right_rest),
        4,
    );
    lemma_same_number(left.y.bits as nat, c + left_rest, right.y.bits as nat, f + right_rest, 4);
    lemma_same_number(left.z.bits as nat, left_rest, right.z.bits as nat, right_rest, 4);
}

/// The bytes of a particle after its mark.
spec fn particle_bytes(particle: Particle, rest: Seq<u8>) -> Seq<u8> {
    vector_bytes(particle.position) + (vector_bytes(particle.velocity) + (low_bytes(
        particle.age_steps as nat,
        8,
    ) + (low_bytes(particle.lifetime_steps as nat, 8) + (low_bytes(particle.spawn_index as nat, 8)
        + rest))))
}

proof fn lemma_regroup(first: Seq<u8>, second: Seq<u8>, third: Seq<u8>)
    ensures
        (first + second) + third == first + (second + third),
{
    assert((first + second) + third =~= first + (second + third));
}

proof fn lemma_particle_bytes(particle: Particle, rest: Seq<u8>)
    ensures
        slot_bytes(Some(particle)) + rest == seq![1u8] + particle_bytes(particle, rest),
{
    let mark = seq![1u8];
    let position = vector_bytes(particle.position);
    let velocity = vector_bytes(particle.velocity);
    let age = low_bytes(particle.age_steps as nat, 8);
    let lifetime = low_bytes(particle.lifetime_steps as nat, 8);
    let spawn = low_bytes(particle.spawn_index as nat, 8);
    lemma_regroup(mark + position + velocity + age + lifetime, spawn, rest);
    lemma_regroup(mark + position + velocity + age, lifetime, spawn + rest);
    lemma_regroup(mark + position + velocity, age, lifetime + (spawn + rest));
    lemma_regroup(mark + position, velocity, age + (lifetime + (spawn + rest)));
    lemma_regroup(mark, position, velocity + (age + (lifetime + (spawn + rest))));
}

proof fn lemma_same_slot(
    left: Option<Particle>,
    left_rest: Seq<u8>,
    right: Option<Particle>,
    right_rest: Seq<u8>,
)
    requires
        slot_bytes(left) + left_rest == slot_bytes(right) + right_rest,
    ensures
        left == right,
        left_rest == right_rest,
{
    let one = slot_bytes(left) + left_rest;
    let two = slot_bytes(right) + right_rest;
    assert(slot_bytes(left).len() > 0 && slot_bytes(right).len() > 0);
    assert(one[0] == slot_bytes(left)[0]);
    assert(two[0] == slot_bytes(right)[0]);
    match (left, right) {
        (None, None) => {
            lemma_same_halves(slot_bytes(left), left_rest, slot_bytes(right), right_rest);
        },
        (Some(a), Some(b)) => {
            lemma_particle_bytes(a, left_rest);
            lemma_particle_bytes(b, right_rest);
            lemma_same_halves(
                seq![1u8],
                particle_bytes(a, left_rest),
                seq![1u8],
                particle_bytes(b, right_rest),
            );
            let a_spawn = low_bytes(a.spawn_index as nat, 8) + left_rest;
            let b_spawn = low_bytes(b.spawn_index as nat, 8) + right_rest;
            let a_life = low_bytes(a.lifetime_steps as nat, 8) + a_spawn;
            let b_life = low_bytes(b.lifetime_steps as nat, 8) + b_spawn;
            let a_age = low_bytes(a.age_steps as nat, 8) + a_life;
            let b_age = low_bytes(b.age_steps as nat, 8) + b_life;
            lemma_same_vector(
                a.position,
                vector_bytes(a.velocity) + a_age,
                b.position,
                vector_bytes(b.velocity) + b_age,
            );
            lemma_same_vector(a.velocity, a_age, b.velocity, b_age);
            lemma_same_number(a.age_steps as nat, a_life, b.age_steps as nat, b_life, 8);
            lemma_same_number(a.lifetime_steps as nat, a_spawn, b.lifetime_steps as nat, b_spawn, 8);
            lemma_same_number(a.spawn_index as nat, left_rest, b.spawn_index as nat, right_rest, 8);
        },
        _ => {},
    }
}

proof fn lemma_first_slot(slots: Seq<Option<Particle>>)
    requires
        slots.len() > 0,
    ensures
        slots_bytes(slots) == slot_bytes(slots[0]) + slots_bytes(slots.skip(1)),
    decreases slots.len(),
{
    let before = slots.drop_last();
    if slots.len() > 1 {
        lemma_first_slot(before);
        assert(slots.skip(1).drop_last() =~= before.skip(1));
        let first = slot_bytes(slots[0]);
        let middle = slots_bytes(before.skip(1));
        let last = slot_bytes(slots.last());
        assert((first + middle) + last =~= first + (middle + last));
    } else {
        assert(before =~= Seq::empty());
        assert(slots.skip(1) =~= Seq::empty());
        assert(Seq::<u8>::empty() + slot_bytes(slots[0]) =~= slot_bytes(slots[0])
            + Seq::<u8>::empty());
    }
}

proof fn lemma_same_slots(left: Seq<Option<Particle>>, right: Seq<Option<Particle>>)
    requires
        left.len() == right.len(),
        slots_bytes(left) == slots_bytes(right),
    ensures
        left == right,
    decreases left.len(),
{
    if left.len() > 0 {
        lemma_first_slot(left);
        lemma_first_slot(right);
        lemma_same_slot(
            left[0],
            slots_bytes(left.skip(1)),
            right[0],
            slots_bytes(right.skip(1)),
        );
        lemma_same_slots(left.skip(1), right.skip(1));
        assert(left =~= seq![left[0]] + left.skip(1));
        assert(right =~= seq![right[0]] + right.skip(1));
    } else {
        assert(left =~= right);
    }
}

/// The bytes tell the whole state: two systems with the same bytes have the same counters and the
/// same particles in the same slots.
pub proof fn law_state_bytes_tell_the_state(left: SystemModel, right: SystemModel)
    requires
        left.slots.len() <= usize::MAX,
        right.slots.len() <= usize::MAX,
        left.bytes() == right.bytes(),
    ensures
        left.step_index == right.step_index,
        left.next_spawn_index == right.next_spawn_index,
        left.slots == right.slots,
{
    let left_count = low_bytes(left.slots.len(), 8) + slots_bytes(left.slots);
    let right_count = low_bytes(right.slots.len(), 8) + slots_bytes(right.slots);
    let left_spawn = low_bytes(left.next_spawn_index as nat, 8) + left_count;
    let right_spawn = low_bytes(right.next_spawn_index as nat, 8) + right_count;
    assert(left.bytes() =~= low_bytes(left.step_index as nat, 8) + left_spawn);
    assert(right.bytes() =~= low_bytes(right.step_index as nat, 8) + right_spawn);
    lemma_same_number(left.step_index as nat, left_spawn, right.step_index as nat, right_spawn, 8);
    lemma_same_number(
        left.next_spawn_index as nat,
        left_count,
        right.next_spawn_index as nat,
        right_count,
        8,
    );
    lemma_same_number(
        left.slots.len(),
        slots_bytes(left.slots),
        right.slots.len(),
        slots_bytes(right.slots),
        8,
    );
    lemma_same_slots(left.slots, right.slots);
}

proof fn lemma_spawning_adds(
    emitter: EmitterModel,
    slots: Seq<Option<Particle>>,
    spawn_index: u64,
    left: nat,
)
    ensures
        spawned(emitter, slots, spawn_index, left).0.len() == slots.len(),
        forall|i: int|
            0 <= i < slots.len() && (#[trigger] slots[i]) is Some ==> spawned(
                emitter,
                slots,
                spawn_index,
                left,
            ).0[i] == slots[i],
        live(spawned(emitter, slots, spawn_index, left).0) == if live(slots) + left < slots.len() {
            live(slots) + left
        } else {
            slots.len()
        },
    decreases left,
{
    let free = first_free(slots, 0);
    lemma_first_free(slots, 0);
    lemma_live_within(slots);
    if free >= slots.len() {
        lemma_all_live(slots);
    } else if left > 0 {
        let particle = newborn(emitter, spawn_index);
        let next = slots.update(free, Some(particle));
        lemma_live_update(slots, free, particle);
        lemma_live_within(next);
        lemma_spawning_adds(emitter, next, spawn_index.wrapping_add(1), (left - 1) as nat);
        assert forall|i: int| 0 <= i < slots.len() && (#[trigger] slots[i]) is Some implies spawned(
            emitter,
            slots,
            spawn_index,
            left,
        ).0[i] == slots[i] by {
            assert(next[i] == slots[i]);
        }
    }
}

proof fn lemma_all_live(slots: Seq<Option<Particle>>)
    requires
        forall|i: int| 0 <= i < slots.len() ==> (#[trigger] slots[i]) is Some,
    ensures
        live(slots) == slots.len(),
    decreases slots.len(),
{
    if slots.len() > 0 {
        let before = slots.drop_last();
        assert forall|i: int| 0 <= i < before.len() implies (#[trigger] before[i]) is Some by {
            assert(slots[i] is Some);
        }
        lemma_all_live(before);
        assert(slots[slots.len() - 1] is Some);
    }
}

/// A step keeps the number of slots, changes no particle that survived the move, and spawns as
/// many as the emitter asks for and there are empty slots.
pub proof fn law_steps_fill_empty_slots(system: SystemModel)
    ensures
        system.stepped().slots.len() == system.slots.len(),
        forall|i: int|
            0 <= i < system.slots.len() && (#[trigger] system.moved()[i]) is Some
                ==> system.stepped().slots[i] == system.moved()[i],
        live(system.stepped().slots) == if live(system.moved()) + system.emitter.emission_rate
            < system.slots.len() {
            live(system.moved()) + system.emitter.emission_rate as nat
        } else {
            system.slots.len()
        },
{
    lemma_spawning_adds(
        system.emitter,
        system.moved(),
        system.next_spawn_index,
        system.emitter.emission_rate as nat,
    );
}

/// It does not matter how steps are grouped: some steps and then some more lead to the same state as
/// all of them at once.
pub proof fn law_steps_add_up(system: SystemModel, first: nat, second: nat)
    ensures
        system.stepped_often(first).stepped_often(second) == system.stepped_often(first + second),
    decreases second,
{
    if second > 0 {
        law_steps_add_up(system, first, (second - 1) as nat);
        assert((first + second - 1) as nat == first + (second - 1) as nat);
    }
}

} // verus!
