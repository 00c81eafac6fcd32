use chimy2::float::Float32;
use chimy2::math::{Mat4, Vec3, Vec4};
use chimy2::particles::{
    billboard_model, billboard_quad, particle_alpha, sanitize_size, sanitize_tint, signed_hash,
    ParticleEmitter, ParticleSystem,
};

const PARTICLE_DT: f32 = 1.0 / 60.0;

fn s(value: f32) -> Float32 {
    Float32 { bits: value.to_bits() }
}

fn n(value: Float32) -> f32 {
    f32::from_bits(value.bits)
}

fn v3(x: f32, y: f32, z: f32) -> Vec3 {
    Vec3::new(s(x), s(y), s(z))
}

fn zero() -> Vec3 {
    v3(0.0, 0.0, 0.0)
}

fn emitter() -> ParticleEmitter {
    let mut emitter = ParticleEmitter::new(zero(), 1, 8, v3(1.0, 2.0, 0.0));
    emitter.set_gravity(v3(0.0, -3.0, 0.0));
    emitter.set_velocity_variation(v3(0.2, 0.1, 0.2));
    emitter
}

#[test]
fn simulation_is_byte_deterministic() {
    let mut left = ParticleSystem::new(emitter(), 32);
    let mut right = ParticleSystem::new(emitter(), 32);
    left.step_n(100);
    right.step_n(100);
    assert_eq!(left.state_bytes(), right.state_bytes());
    assert_eq!(left.step_index(), 100);
}

#[test]
fn gravity_uses_move_then_accelerate_order() {
    let mut emitter = ParticleEmitter::new(zero(), 1, 10, v3(2.0, 3.0, 0.0));
    let mut system = ParticleSystem::new(emitter, 1);
    system.step();
    emitter.set_gravity(v3(0.0, -6.0, 0.0));
    emitter.set_emission_rate(0);
    system.set_emitter(emitter);
    assert_eq!(system.particle(0).unwrap().velocity, v3(2.0, 3.0, 0.0));
    system.step();
    let particle = system.particle(0).unwrap();
    assert!((n(particle.position.x) - 2.0 * PARTICLE_DT).abs() < 1e-6);
    assert!((n(particle.position.y) - 3.0 * PARTICLE_DT).abs() < 1e-6);
    assert!((n(particle.velocity.y) - (3.0 - 6.0 * PARTICLE_DT)).abs() < 1e-6);
}

#[test]
fn lifetime_recycles_the_lowest_slot() {
    let emitter = ParticleEmitter::new(zero(), 1, 2, zero());
    let mut system = ParticleSystem::new(emitter, 1);
    system.step();
    assert_eq!(system.live_count(), 1);
    assert_eq!(system.particle(0).unwrap().age_steps, 0);
    system.step();
    assert_eq!(system.live_count(), 1);
    assert_eq!(system.particle(0).unwrap().age_steps, 1);
    system.step();
    assert_eq!(system.live_count(), 1);
    assert_eq!(system.particle(0).unwrap().spawn_index, 1);
}

#[test]
fn billboard_axes_come_from_the_view_matrix() {
    let view = Mat4::look_at(v3(2.0, 1.0, 4.0), zero(), v3(0.0, 1.0, 0.0));
    let model = billboard_model(view, v3(1.0, 2.0, 3.0), s(2.0));
    let right = Vec3::new(model.data[0], model.data[1], model.data[2]);
    let up = Vec3::new(model.data[4], model.data[5], model.data[6]);
    assert_eq!(right, Vec3::new(view.data[0], view.data[4], view.data[8]) * s(2.0));
    assert_eq!(up, Vec3::new(view.data[1], view.data[5], view.data[9]) * s(2.0));
    let place = model * Vec4::new(s(0.0), s(0.0), s(0.0), s(1.0));
    assert_eq!(place, Vec4::new(s(1.0), s(2.0), s(3.0), s(1.0)));
}

#[test]
fn alpha_fade_has_one_application() {
    assert_eq!(n(particle_alpha(0, 10)), 1.0);
    assert_eq!(n(particle_alpha(5, 10)), 0.5);
    assert!((n(particle_alpha(9, 10)) - 0.1).abs() < 1e-6);
    assert_eq!(n(particle_alpha(3, 0)), 0.0);
    assert_eq!(n(particle_alpha(20, 10)), 0.0);
    let mut system = ParticleSystem::new(ParticleEmitter::new(zero(), 1, 4, zero()), 1);
    system.step_n(2);
    let tint = Vec4::new(s(1.0), s(2.0), s(f32::NAN), s(0.5));
    let instances = system.billboard_instances(Mat4::identity(), s(1.0), tint);
    assert_eq!(instances.len(), 1);
    assert_eq!(instances[0].tint, Vec4::new(s(1.0), s(1.0), s(1.0), s(0.5 * 0.75)));
}

#[test]
fn malformed_emitter_values_are_sanitized_immediately() {
    let mut emitter = ParticleEmitter::default();
    emitter.set_position(v3(f32::NAN, 1.0, 2.0));
    emitter.set_gravity(v3(1.0, f32::INFINITY, 2.0));
    emitter.set_drag(s(f32::NAN));
    emitter.set_lifetime_steps(0);
    assert_eq!(emitter.position(), zero());
    assert_eq!(emitter.gravity(), zero());
    assert_eq!(n(emitter.drag()), 0.0);
    assert_eq!(emitter.lifetime_steps(), 1);
}

#[test]
fn billboard_helper_uses_camera_orientation() {
    let view = Mat4::translate(v3(0.0, 0.0, -2.0));
    let model = billboard_model(view, zero(), s(1.0));
    assert_eq!(n(model.data[8]), 0.0);
    assert_eq!(n(model.data[10]), -1.0);
}

#[test]
fn steps_match_machine_arithmetic() {
    let mut emitter = emitter();
    emitter.set_drag(s(0.1));
    let mut system = ParticleSystem::new(emitter, 3);
    system.step_n(3);
    let velocity = |index: u64| {
        [
            1.0 + 0.2 * n(signed_hash(index, 0)),
            2.0 + 0.1 * n(signed_hash(index, 1)),
            0.0 + 0.2 * n(signed_hash(index, 2)),
        ]
    };
    let mut position = [0.0f32; 3];
    let mut speed = velocity(0);
    let gravity = [0.0f32, -3.0, 0.0];
    for _ in 0..2 {
        for axis in 0..3 {
            position[axis] += speed[axis] * PARTICLE_DT;
            speed[axis] = (speed[axis] + gravity[axis] * PARTICLE_DT) * (1.0 - 0.1);
        }
    }
    let first = system.particle(0).unwrap();
    assert_eq!(first.position, v3(position[0], position[1], position[2]));
    assert_eq!(first.velocity, v3(speed[0], speed[1], speed[2]));
    assert_eq!(system.particle(2).unwrap().spawn_index, 2);
}

fn machine_hash(index: u64, lane: u64) -> f32 {
    let mut value = (index as u32).wrapping_add((lane as u32).wrapping_mul(0x9e37_79b9));
    value ^= value >> 16;
    value = value.wrapping_mul(0x7feb_352d);
    value ^= value >> 15;
    value = value.wrapping_mul(0x846c_a68b);
    value ^= value >> 16;
    (value >> 8) as f32 / 16_777_215.0 * 2.0 - 1.0
}

#[test]
fn hashes_stay_between_minus_one_and_one() {
    for index in (0..2000u64).chain([u64::MAX, 1 << 32, (1 << 32) + 5]) {
        for lane in 0..3 {
            let value = n(signed_hash(index, lane));
            assert_eq!(value, machine_hash(index, u64::from(lane)));
            assert!((-1.0..=1.0).contains(&value));
        }
    }
}

#[test]
fn full_systems_spawn_nothing() {
    let mut system = ParticleSystem::from_emitter(ParticleEmitter::new(zero(), 5, 100, zero()), 3);
    system.step();
    assert_eq!(system.live_count(), 3);
    assert_eq!(system.next_spawn_index(), 3);
    system.step();
    assert_eq!(system.next_spawn_index(), 3);
    assert_eq!(system.capacity(), 3);
    let slots: Vec<usize> = system.live_particles().iter().map(|(slot, _)| *slot).collect();
    assert_eq!(slots, vec![0, 1, 2]);
    assert_eq!(system.particle(9), None);
    system.reset();
    assert_eq!((system.live_count(), system.step_index()), (0, 0));
    assert!(system.slots().iter().all(Option::is_none));
}

#[test]
fn bytes_differ_where_states_differ() {
    let mut left = ParticleSystem::new(emitter(), 4);
    let right = ParticleSystem::new(emitter(), 4);
    assert_eq!(left.state_bytes(), right.state_bytes());
    assert_eq!(left.state_bytes().len(), 24 + 4);
    left.step();
    assert_ne!(left.state_bytes(), right.state_bytes());
    assert_eq!(left.state_bytes().len(), 24 + 49 + 3);
    assert_eq!(left.state_bytes()[0], 1);
}

#[test]
fn sizes_and_tints_are_held_to_their_range() {
    assert_eq!(n(sanitize_size(s(-3.0))), 0.0);
    assert_eq!(n(sanitize_size(s(f32::INFINITY))), 0.0);
    assert_eq!(n(sanitize_size(s(0.3))), 0.3);
    let tint = sanitize_tint(Vec4::new(s(-1.0), s(0.5), s(7.0), s(f32::NAN)));
    assert_eq!(tint, Vec4::new(s(0.0), s(0.5), s(1.0), s(1.0)));
    let quad = billboard_quad();
    assert_eq!(quad.indices(), &[[0, 1, 2], [0, 2, 3]]);
    assert_eq!(quad.vertices()[2].position(), v3(0.5, 0.5, 0.0));
}

#[test]
fn steps_can_be_grouped() {
    let mut grouped = ParticleSystem::new(emitter(), 16);
    grouped.step_n(13);
    grouped.step_n(29);
    let mut at_once = ParticleSystem::new(emitter(), 16);
    at_once.step_n(42);
    assert_eq!(grouped.state_bytes(), at_once.state_bytes());
}

#[test]
fn live_particles_are_younger_than_their_lifetime() {
    let mut system = ParticleSystem::new(emitter(), 16);
    for _ in 0..40 {
        system.step();
        assert!(system.live_particles().iter().all(|(_, particle)| particle.age_steps < 8));
    }
    assert_eq!(system.live_count(), 8);
    let mut shorter = emitter();
    shorter.set_lifetime_steps(3);
    system.set_emitter(shorter);
    system.step();
    assert!(system.live_particles().iter().all(|(_, particle)| particle.age_steps < 3));
    let before = system.particle(0);
    assert_eq!(ParticleEmitter::new(zero(), 1, 0, zero()).lifetime_steps(), 1);
    system.step();
    if let (Some(first), Some(second)) = (before, system.particle(0)) {
        assert!(second.age_steps == first.age_steps + 1 || second.age_steps == 0);
    }
}
