use particle_core::particles::{Particle, ParticleConfig, DRAG};
use particle_core::physics::{Force, Vec2};

fn sample() -> Particle {
    Particle::new(Vec2::new(100_000, 100_000), Vec2::new(100_000, -50_000), 5000, 3000, [1000, 500, 250, 1000])
}

#[test]
fn a_new_particle_has_unit_mass_and_empty_padding() {
    let p = sample();
    assert_eq!(p.position, [100_000, 100_000]);
    assert_eq!(p.velocity, [100_000, -50_000]);
    assert_eq!(p.life, 5000);
    assert_eq!(p.size, 3000);
    assert_eq!(p.color, [1000, 500, 250, 1000]);
    assert_eq!(p.mass, 1000);
    assert_eq!(p.padding, [0, 0]);
    assert_eq!(p.pos(), Vec2::new(100_000, 100_000));
    assert_eq!(p.vel(), Vec2::new(100_000, -50_000));
}

#[test]
fn the_record_is_thirteen_words() {
    assert_eq!(std::mem::size_of::<Particle>(), 52);
    assert_eq!(std::mem::align_of::<Particle>(), 4);
}

#[test]
fn alive_means_life_above_zero() {
    let mut p = sample();
    assert!(p.is_alive());
    p.life = 1;
    assert!(p.is_alive());
    p.life = 0;
    assert!(!p.is_alive());
    p.life = -1;
    assert!(!p.is_alive());
}

#[test]
fn coasting_one_step() {
    let mut p = sample();
    p.update(17, &[]);
    assert_eq!(p.position, [101_700, 99_150]);
    assert_eq!(p.velocity, [99_000, -49_500]);
    assert_eq!(p.life, 4983);
    assert_eq!(p.size, 3000);
    assert_eq!(p.color, [1000, 500, 250, 1000]);
    assert_eq!(p.mass, 1000);
}

#[test]
fn coasting_decays_by_drag_alone() {
    let mut p = sample();
    let mut vx: i64 = 100_000;
    let mut vy: i64 = -50_000;
    for n in 1..=100 {
        p.update(17, &[]);
        vx = vx * (DRAG as i64) / 1000;
        vy = vy * (DRAG as i64) / 1000;
        assert_eq!(p.velocity, [vx as i32, vy as i32]);
        assert_eq!(p.life, 5000 - 17 * n);
    }
    assert_eq!(p.velocity, [36_574, -18_266]);
    assert_eq!(p.position, [207_693, 46_195]);
    assert_eq!(p.life, 3300);
}

#[test]
fn coasting_follows_the_power_law_up_to_rounding() {
    let mut p = sample();
    for _ in 0..50 {
        p.update(17, &[]);
    }
    let exact = 100_000.0 * 0.99f64.powi(50);
    let got = p.velocity[0] as f64;
    assert!(got <= exact);
    assert!(got + 50.0 >= exact);
}

#[test]
fn forces_change_the_velocity_before_it_moves_the_particle() {
    let mut p = Particle::new(Vec2::new(0, 0), Vec2::new(0, 0), 5000, 3000, [0, 0, 0, 1000]);
    p.update(1000, &[Force::gravity(0, 10_000)]);
    assert_eq!(p.position, [0, 10_000]);
    assert_eq!(p.velocity, [0, 9_900]);
    assert_eq!(p.life, 4000);
}

#[test]
fn gravity_and_wind_for_two_steps() {
    let forces = [Force::gravity(0, 98_000), Force::wind(Vec2::new(10_000, 0), 5_000)];
    let mut p = Particle::new(Vec2::new(100_000, 100_000), Vec2::new(50_000, 0), 5000, 3000, [0, 0, 0, 1000]);
    p.update(17, &forces);
    assert_eq!(p.position, [100_851, 100_028]);
    assert_eq!(p.velocity, [49_584, 1_649]);
    assert_eq!(p.life, 4983);
    p.update(17, &forces);
    assert_eq!(p.position, [101_695, 100_084]);
    assert_eq!(p.velocity, [49_172, 3_281]);
    assert_eq!(p.life, 4966);
}

#[test]
fn a_heavier_particle_accelerates_less() {
    let mut p = Particle::new(Vec2::new(0, 0), Vec2::new(0, 0), 5000, 3000, [0, 0, 0, 1000]);
    p.mass = 2000;
    p.update(1000, &[Force::gravity(0, 10_000)]);
    assert_eq!(p.position, [0, 5_000]);
    assert_eq!(p.velocity, [0, 4_950]);
}

#[test]
fn a_massless_particle_saturates() {
    let mut p = Particle::new(Vec2::new(0, 0), Vec2::new(0, 0), 5000, 3000, [0, 0, 0, 1000]);
    p.mass = 0;
    p.update(1000, &[Force::gravity(0, 10_000)]);
    assert_eq!(p.position, [0, i32::MAX]);
    assert_eq!(p.life, 4000);
}

#[test]
fn life_saturates_at_the_end_of_the_range() {
    let mut p = sample();
    p.life = i32::MIN + 5;
    p.update(17, &[]);
    assert_eq!(p.life, i32::MIN);
}

#[test]
fn a_step_of_no_time_only_drags() {
    let mut p = sample();
    p.update(0, &[Force::gravity(0, 98_000)]);
    assert_eq!(p.position, [100_000, 100_000]);
    assert_eq!(p.velocity, [99_000, -49_500]);
    assert_eq!(p.life, 5000);
}

#[test]
fn default_configuration() {
    let c = ParticleConfig::default();
    assert_eq!(c.max_particles, 10_000);
    assert_eq!(c.spawn_rate, 500_000);
    assert_eq!(c.particle_lifetime, 5_000);
    assert_eq!(c.particle_size, 3_000);
    assert_eq!(c.gravity, Vec2::new(0, 100_000));
    assert_eq!(c.drag_coefficient, 990);
}
