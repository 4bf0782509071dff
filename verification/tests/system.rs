use particle_core::particles::{Emitter, Particle, ParticleSystem};
use particle_core::physics::{Force, Vec2};

fn still(life: i32) -> Particle {
    Particle::new(Vec2::new(0, 0), Vec2::new(0, 0), life, 3000, [1000, 1000, 1000, 1000])
}

#[test]
fn a_new_system_is_empty() {
    let system = ParticleSystem::new();
    assert_eq!(system.particle_count(), 0);
    assert!(system.particles.is_empty());
    assert!(system.emitters.is_empty());
    assert_eq!(system.config.max_particles, 10_000);
    let other = ParticleSystem::default();
    assert_eq!(other.particle_count(), 0);
    assert_eq!(other.config.max_particles, 10_000);
}

#[test]
fn add_emitter_appends() {
    let mut system = ParticleSystem::new();
    system.add_emitter(Emitter::new(Vec2::new(1, 2)));
    system.add_emitter(Emitter::new(Vec2::new(3, 4)));
    assert_eq!(system.emitters.len(), 2);
    assert_eq!(system.emitters[0].position, Vec2::new(1, 2));
    assert_eq!(system.emitters[1].position, Vec2::new(3, 4));
    assert_eq!(system.particle_count(), 0);
}

#[test]
fn the_dead_are_removed_after_their_step() {
    let mut system = ParticleSystem::new();
    system.particles.push(still(10));
    system.particles.push(still(17));
    system.particles.push(still(18));
    system.particles.push(still(5000));
    system.update(17, &[]);
    assert_eq!(system.particle_count(), 2);
    assert_eq!(system.particles[0].life, 1);
    assert_eq!(system.particles[1].life, 4983);
}

#[test]
fn no_particle_is_dead_after_an_update() {
    let mut system = ParticleSystem::new();
    let mut emitter = Emitter::new(Vec2::new(0, 0));
    emitter.particle_lifetime = 100;
    system.add_emitter(emitter);
    for _ in 0..50 {
        system.update(17, &[Force::gravity(0, 98_000)]);
        assert!(system.particles.iter().all(|p| p.life > 0));
        assert!(system.particles.iter().all(|p| p.is_alive()));
    }
    assert!(system.particle_count() > 0);
    assert!(system.particle_count() <= 12);
}

#[test]
fn survivors_keep_their_order() {
    let mut system = ParticleSystem::new();
    for life in [100, 5, 200, 6, 300] {
        system.particles.push(still(life));
    }
    system.update(10, &[]);
    let lives: Vec<i32> = system.particles.iter().map(|p| p.life).collect();
    assert_eq!(lives, vec![90, 190, 290]);
}

#[test]
fn new_particles_take_no_step_in_their_first_frame() {
    let mut system = ParticleSystem::new();
    system.add_emitter(Emitter::new(Vec2::new(100_000, 100_000)));
    let forces = [Force::gravity(0, 98_000)];
    system.update(1000, &forces);
    assert_eq!(system.particle_count(), 100);
    for p in &system.particles {
        assert_eq!(p.position, [100_000, 100_000]);
        assert_eq!(p.life, 5_000);
        assert!(p.velocity[0] >= 35_300 && p.velocity[0] <= 50_000);
        assert!(p.velocity[1].abs() <= 35_300);
    }
    let launched: Vec<Particle> = system.particles.clone();
    system.update(1000, &forces);
    assert_eq!(system.particle_count(), 200);
    for (before, after) in launched.iter().zip(system.particles.iter()) {
        let mut expected = *before;
        expected.update(1000, &forces);
        assert_eq!(after.position, expected.position);
        assert_eq!(after.velocity, expected.velocity);
        assert_eq!(after.life, 4_000);
        assert!(after.position != before.position);
    }
    for p in &system.particles[100..] {
        assert_eq!(p.position, [100_000, 100_000]);
        assert_eq!(p.life, 5_000);
    }
}

#[test]
fn the_population_stays_at_or_below_the_cap() {
    let mut system = ParticleSystem::new();
    system.config.max_particles = 7;
    system.add_emitter(Emitter::new(Vec2::new(0, 0)));
    system.add_emitter(Emitter::new(Vec2::new(50_000, 0)));
    for _ in 0..100 {
        system.update(17, &[]);
        assert!(system.particle_count() <= 7);
    }
    assert_eq!(system.particle_count(), 7);
}

#[test]
fn what_exceeds_the_cap_is_dropped_and_not_queued() {
    let mut system = ParticleSystem::new();
    system.config.max_particles = 3;
    let mut emitter = Emitter::new(Vec2::new(0, 0));
    emitter.particle_lifetime = 25;
    system.add_emitter(emitter);
    system.update(50, &[]);
    assert_eq!(system.particle_count(), 3);
    assert_eq!(system.emitters[0].accumulator, 0);
    system.emitters[0].enabled = false;
    system.update(50, &[]);
    assert_eq!(system.particle_count(), 0);
    system.update(50, &[]);
    assert_eq!(system.particle_count(), 0);
}

#[test]
fn a_population_above_the_cap_takes_in_nothing() {
    let mut system = ParticleSystem::new();
    system.config.max_particles = 2;
    for _ in 0..5 {
        system.particles.push(still(5000));
    }
    system.add_emitter(Emitter::new(Vec2::new(0, 0)));
    system.update(1000, &[]);
    assert_eq!(system.particle_count(), 5);
    assert_eq!(system.emitters[0].accumulator, 0);
}

#[test]
fn emitters_fill_up_in_their_order() {
    let mut system = ParticleSystem::new();
    system.config.max_particles = 150;
    system.add_emitter(Emitter::new(Vec2::new(1_000, 0)));
    system.add_emitter(Emitter::new(Vec2::new(2_000, 0)));
    system.update(1000, &[]);
    assert_eq!(system.particle_count(), 150);
    for p in &system.particles[..100] {
        assert_eq!(p.position, [1_000, 0]);
    }
    for p in &system.particles[100..] {
        assert_eq!(p.position, [2_000, 0]);
    }
}

#[test]
fn every_emitter_books_the_frame_even_when_full() {
    let mut system = ParticleSystem::new();
    system.config.max_particles = 1;
    system.add_emitter(Emitter::new(Vec2::new(0, 0)));
    system.add_emitter(Emitter::new(Vec2::new(0, 0)));
    system.update(17, &[]);
    assert_eq!(system.particle_count(), 1);
    assert_eq!(system.emitters[0].accumulator, 700);
    assert_eq!(system.emitters[1].accumulator, 700);
}

#[test]
fn an_emitter_of_dead_particles_breaks_the_rule_of_the_living() {
    let mut system = ParticleSystem::new();
    let mut emitter = Emitter::new(Vec2::new(0, 0));
    emitter.particle_lifetime = 0;
    system.add_emitter(emitter);
    system.update(1000, &[]);
    assert_eq!(system.particle_count(), 100);
    assert!(system.particles.iter().all(|p| !p.is_alive()));
    system.update(1000, &[]);
    assert_eq!(system.particle_count(), 100);
}

#[test]
fn one_emitter_under_gravity_and_wind_for_two_seconds() {
    let mut system = ParticleSystem::new();
    system.add_emitter(Emitter::new(Vec2::new(100_000, 100_000)));
    let forces = vec![Force::gravity(0, 98_000), Force::wind(Vec2::new(10_000, 0), 5_000)];
    let mut last = 0;
    for _ in 0..120 {
        system.update(17, &forces);
        let count = system.particle_count();
        assert!(count >= last);
        assert!(count <= system.config.max_particles);
        last = count;
    }
    assert_eq!(last, 204);
}

#[test]
fn the_population_saturates_at_the_cap() {
    let mut system = ParticleSystem::new();
    system.config.max_particles = 150;
    system.add_emitter(Emitter::new(Vec2::new(100_000, 100_000)));
    let forces = vec![Force::gravity(0, 98_000), Force::wind(Vec2::new(10_000, 0), 5_000)];
    let mut last = 0;
    for _ in 0..120 {
        system.update(17, &forces);
        let count = system.particle_count();
        assert!(count >= last);
        assert!(count <= 150);
        last = count;
    }
    assert_eq!(last, 150);
}

#[test]
fn sixty_frames_a_second_in_whole_milliseconds() {
    let mut system = ParticleSystem::new();
    system.add_emitter(Emitter::new(Vec2::new(100_000, 100_000)));
    let forces = vec![Force::gravity(0, 98_000), Force::wind(Vec2::new(10_000, 0), 5_000)];
    let mut last = 0;
    let mut elapsed = 0;
    for frame in 0..120 {
        let dt = if frame % 3 == 0 { 16 } else { 17 };
        elapsed += dt;
        system.update(dt, &forces);
        let count = system.particle_count();
        assert!(count >= last);
        assert!(count <= system.config.max_particles);
        assert!(system.particles.iter().all(|p| p.life >= 5_000 - elapsed));
        last = count;
    }
    assert_eq!(elapsed, 2_000);
    assert_eq!(last, 200);
}
