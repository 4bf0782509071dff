use particle_core::physics::{Force, Vec2};

#[test]
fn gravity_is_the_same_everywhere() {
    let g = Force::gravity(0, 98_000);
    assert_eq!(g.calculate_at(Vec2::new(0, 0)), Vec2::new(0, 98_000));
    assert_eq!(g.calculate_at(Vec2::new(-5_000_000, 123)), Vec2::new(0, 98_000));
}

#[test]
fn calm_wind_blows_along_its_direction() {
    let w = Force::wind(Vec2::new(10_000, 0), 5_000);
    assert_eq!(w.calculate_at(Vec2::new(0, 0)), Vec2::new(5_000, 0));
    assert_eq!(w.calculate_at(Vec2::new(777_000, -3_000)), Vec2::new(5_000, 0));
}

#[test]
fn wind_without_direction_is_only_turbulence() {
    let w = Force::Wind { direction: Vec2::zero(), strength: 10_000, turbulence: 2_000 };
    assert_eq!(w.calculate_at(Vec2::new(0, 0)), Vec2::new(0, 2_000));
    assert_eq!(w.calculate_at(Vec2::new(15_710, 31_420)), Vec2::new(2_000, -2_000));
}

#[test]
fn turbulent_wind() {
    let w = Force::Wind { direction: Vec2::new(3_000, 4_000), strength: 10_000, turbulence: 2_000 };
    assert_eq!(w.calculate_at(Vec2::new(5_000, 0)), Vec2::new(6_958, 10_000));
}

#[test]
fn attractor_pulls_toward_its_anchor() {
    let a = Force::attractor(Vec2::new(0, 0), 100_000, 50_000);
    assert_eq!(a.calculate_at(Vec2::new(3_000, 4_000)), Vec2::new(-2_307, -3_076));
    let b = Force::attractor(Vec2::new(10_000, 0), 2_000_000, 50_000);
    assert_eq!(b.calculate_at(Vec2::new(0, 0)), Vec2::new(19_801, 0));
}

#[test]
fn repulsor_pushes_away_from_its_anchor() {
    let r = Force::repulsor(Vec2::new(0, 0), 100_000, 50_000);
    assert_eq!(r.calculate_at(Vec2::new(3_000, 4_000)), Vec2::new(2_307, 3_076));
}

#[test]
fn point_fields_vanish_from_the_radius_on() {
    let a = Force::attractor(Vec2::new(0, 0), 100_000, 5_000);
    assert_eq!(a.calculate_at(Vec2::new(3_000, 4_000)), Vec2::zero());
    assert_eq!(a.calculate_at(Vec2::new(30_000, 4_000)), Vec2::zero());
    let r = Force::repulsor(Vec2::new(0, 0), 100_000, 5_000);
    assert_eq!(r.calculate_at(Vec2::new(3_000, 4_000)), Vec2::zero());
    assert!(a.calculate_at(Vec2::new(3_000, 3_999)) != Vec2::zero());
}

#[test]
fn point_fields_vanish_at_the_anchor() {
    let a = Force::attractor(Vec2::new(7_000, 7_000), 100_000, 50_000);
    assert_eq!(a.calculate_at(Vec2::new(7_000, 7_000)), Vec2::zero());
    let r = Force::repulsor(Vec2::new(7_000, 7_000), 100_000, 50_000);
    assert_eq!(r.calculate_at(Vec2::new(7_000, 7_000)), Vec2::zero());
}

#[test]
fn a_negative_radius_counts_by_its_size() {
    let a = Force::attractor(Vec2::new(0, 0), 100_000, -50_000);
    assert_eq!(a.calculate_at(Vec2::new(3_000, 4_000)), Vec2::new(-2_307, -3_076));
}

#[test]
fn evaluating_leaves_the_force_as_it_was() {
    let w = Force::Wind { direction: Vec2::new(3_000, 4_000), strength: 10_000, turbulence: 2_000 };
    let first = w.calculate_at(Vec2::new(5_000, 0));
    let second = w.calculate_at(Vec2::new(5_000, 0));
    assert_eq!(first, second);
}

#[test]
fn builders_fill_the_variants() {
    assert!(matches!(Force::gravity(1, 2), Force::Gravity(v) if v == Vec2::new(1, 2)));
    assert!(matches!(
        Force::wind(Vec2::new(1, 2), 3),
        Force::Wind { direction, strength: 3, turbulence: 0 } if direction == Vec2::new(1, 2)
    ));
    assert!(matches!(
        Force::attractor(Vec2::new(1, 2), 3, 4),
        Force::Attractor { position, strength: 3, radius: 4 } if position == Vec2::new(1, 2)
    ));
    assert!(matches!(
        Force::repulsor(Vec2::new(1, 2), 3, 4),
        Force::Repulsor { position, strength: 3, radius: 4 } if position == Vec2::new(1, 2)
    ));
}
