use particle_core::collision::{LineSegment, Outline, AABB};
use particle_core::physics::Vec2;

fn square() -> Outline {
    Outline::from_points(vec![
        Vec2::new(50_000, 50_000),
        Vec2::new(150_000, 50_000),
        Vec2::new(150_000, 150_000),
        Vec2::new(50_000, 150_000),
    ])
}

#[test]
fn a_box_holds_its_edges() {
    let b = AABB::new(Vec2::new(0, 0), Vec2::new(10, 20));
    assert!(b.contains(Vec2::new(5, 5)));
    assert!(b.contains(Vec2::new(0, 0)));
    assert!(b.contains(Vec2::new(10, 20)));
    assert!(b.contains(Vec2::new(0, 20)));
    assert!(!b.contains(Vec2::new(-1, 5)));
    assert!(!b.contains(Vec2::new(11, 5)));
    assert!(!b.contains(Vec2::new(5, -1)));
    assert!(!b.contains(Vec2::new(5, 21)));
}

#[test]
fn boxes_that_touch_intersect() {
    let a = AABB::new(Vec2::new(0, 0), Vec2::new(10, 10));
    assert!(a.intersects(&AABB::new(Vec2::new(5, 5), Vec2::new(15, 15))));
    assert!(a.intersects(&AABB::new(Vec2::new(10, 10), Vec2::new(20, 20))));
    assert!(a.intersects(&AABB::new(Vec2::new(2, 2), Vec2::new(3, 3))));
    assert!(!a.intersects(&AABB::new(Vec2::new(11, 0), Vec2::new(20, 10))));
    assert!(!a.intersects(&AABB::new(Vec2::new(0, 11), Vec2::new(10, 20))));
    assert!(!a.intersects(&AABB::new(Vec2::new(-5, -5), Vec2::new(-1, -1))));
}

#[test]
fn a_segment_has_a_unit_normal() {
    let s = LineSegment::new(Vec2::new(0, 0), Vec2::new(10_000, 0));
    assert_eq!(s.start, Vec2::new(0, 0));
    assert_eq!(s.end, Vec2::new(10_000, 0));
    assert_eq!(s.normal, Vec2::new(0, 1000));
    let t = LineSegment::new(Vec2::new(0, 0), Vec2::new(0, 10_000));
    assert_eq!(t.normal, Vec2::new(-1000, 0));
    let u = LineSegment::new(Vec2::new(1_000, 1_000), Vec2::new(4_000, 5_000));
    assert_eq!(u.normal, Vec2::new(-800, 600));
    let wide = LineSegment::new(Vec2::new(i32::MIN, 0), Vec2::new(i32::MAX, 0));
    assert_eq!(wide.normal, Vec2::new(0, 1000));
}

#[test]
fn a_segment_without_length_has_no_normal() {
    let s = LineSegment::new(Vec2::new(7, 7), Vec2::new(7, 7));
    assert_eq!(s.normal, Vec2::zero());
    assert_eq!(s.closest_point(Vec2::new(100, 100)), Vec2::new(7, 7));
    assert_eq!(s.distance_to(Vec2::new(7, 1007)), 1000);
}

#[test]
fn the_closest_point_of_a_segment() {
    let s = LineSegment::new(Vec2::new(0, 0), Vec2::new(10_000, 0));
    assert_eq!(s.closest_point(Vec2::new(5_000, 3_000)), Vec2::new(5_000, 0));
    assert_eq!(s.closest_point(Vec2::new(-5_000, 3_000)), Vec2::new(0, 0));
    assert_eq!(s.closest_point(Vec2::new(15_000, -3_000)), Vec2::new(10_000, 0));
    let d = LineSegment::new(Vec2::new(0, 0), Vec2::new(10_000, 10_000));
    assert_eq!(d.closest_point(Vec2::new(10_000, 0)), Vec2::new(5_000, 5_000));
    assert_eq!(d.closest_point(Vec2::new(0, 1)), Vec2::new(0, 0));
}

#[test]
fn the_distance_to_a_segment() {
    let s = LineSegment::new(Vec2::new(0, 0), Vec2::new(10_000, 0));
    assert_eq!(s.distance_to(Vec2::new(5_000, 3_000)), 3_000);
    assert_eq!(s.distance_to(Vec2::new(13_000, 4_000)), 5_000);
    assert_eq!(s.distance_to(Vec2::new(2_000, 0)), 0);
}

#[test]
fn no_points_give_a_degenerate_outline() {
    let outline = Outline::from_points(Vec::new());
    assert!(outline.segments.is_empty());
    assert_eq!(outline.bounds.min, Vec2::zero());
    assert_eq!(outline.bounds.max, Vec2::zero());
    assert_eq!(outline.velocity, Vec2::zero());
    assert!(!outline.contains(Vec2::zero()));
    assert!(!outline.contains(Vec2::new(1, 1)));
    assert_eq!(outline.centroid(), Vec2::zero());
}

#[test]
fn the_polygon_is_closed() {
    let outline = square();
    assert_eq!(outline.segments.len(), 4);
    assert_eq!(outline.segments[0].start, Vec2::new(50_000, 50_000));
    assert_eq!(outline.segments[0].end, Vec2::new(150_000, 50_000));
    assert_eq!(outline.segments[1].start, Vec2::new(150_000, 50_000));
    assert_eq!(outline.segments[1].end, Vec2::new(150_000, 150_000));
    assert_eq!(outline.segments[2].end, Vec2::new(50_000, 150_000));
    assert_eq!(outline.segments[3].start, Vec2::new(50_000, 150_000));
    assert_eq!(outline.segments[3].end, Vec2::new(50_000, 50_000));
    assert_eq!(outline.velocity, Vec2::zero());
}

#[test]
fn the_normals_of_the_square_point_outward() {
    let outline = square();
    assert_eq!(outline.segments[0].normal, Vec2::new(0, -1000));
    assert_eq!(outline.segments[1].normal, Vec2::new(1000, 0));
    assert_eq!(outline.segments[2].normal, Vec2::new(0, 1000));
    assert_eq!(outline.segments[3].normal, Vec2::new(-1000, 0));
}

#[test]
fn the_normals_point_outward_whichever_way_the_points_run() {
    let outline = Outline::from_points(vec![
        Vec2::new(50_000, 50_000),
        Vec2::new(50_000, 150_000),
        Vec2::new(150_000, 150_000),
        Vec2::new(150_000, 50_000),
    ]);
    assert_eq!(outline.segments[0].normal, Vec2::new(-1000, 0));
    assert_eq!(outline.segments[1].normal, Vec2::new(0, 1000));
    assert_eq!(outline.segments[2].normal, Vec2::new(1000, 0));
    assert_eq!(outline.segments[3].normal, Vec2::new(0, -1000));
    let centre = outline.centroid();
    for segment in &outline.segments {
        let middle = Vec2::new((segment.start.x + segment.end.x) / 2, (segment.start.y + segment.end.y) / 2);
        assert!(!outline.contains(middle.add(segment.normal)));
        assert!(outline.contains(middle.sub(segment.normal)));
        assert!(middle.sub(centre).dot_wide(segment.normal) > 0);
    }
}

#[test]
fn the_normals_of_a_triangle_point_outward() {
    for points in [
        vec![Vec2::new(0, 0), Vec2::new(100_000, 0), Vec2::new(0, 100_000)],
        vec![Vec2::new(0, 0), Vec2::new(0, 100_000), Vec2::new(100_000, 0)],
    ] {
        let outline = Outline::from_points(points);
        let inside = Vec2::new(20_000, 20_000);
        for segment in &outline.segments {
            assert!(inside.sub(segment.start).dot_wide(segment.normal) < 0);
        }
    }
}

#[test]
fn twice_the_signed_area() {
    let ccw = vec![Vec2::new(0, 0), Vec2::new(10, 0), Vec2::new(10, 10), Vec2::new(0, 10)];
    assert_eq!(Outline::twice_area(&ccw), 200);
    let cw = vec![Vec2::new(0, 0), Vec2::new(0, 10), Vec2::new(10, 10), Vec2::new(10, 0)];
    assert_eq!(Outline::twice_area(&cw), -200);
    assert_eq!(Outline::twice_area(&Vec::new()), 0);
    assert_eq!(Outline::twice_area(&vec![Vec2::new(3, 4)]), 0);
    let wide = vec![
        Vec2::new(i32::MIN, i32::MIN),
        Vec2::new(i32::MAX, i32::MIN),
        Vec2::new(i32::MAX, i32::MAX),
        Vec2::new(i32::MIN, i32::MAX),
    ];
    assert_eq!(Outline::twice_area(&wide), 2 * ((1i128 << 32) - 1) * ((1i128 << 32) - 1));
}

#[test]
fn a_segment_made_facing_either_side() {
    let a = Vec2::new(0, 0);
    let b = Vec2::new(10_000, 0);
    assert_eq!(LineSegment::facing(a, b, false).normal, Vec2::new(0, 1000));
    assert_eq!(LineSegment::facing(a, b, true).normal, Vec2::new(0, -1000));
    assert_eq!(LineSegment::facing(a, a, true).normal, Vec2::zero());
    assert_eq!(LineSegment::new(a, b).normal, Vec2::new(0, 1000));
}

#[test]
fn the_bounds_are_the_least_and_greatest_of_the_points() {
    let outline = Outline::from_points(vec![
        Vec2::new(3, -7),
        Vec2::new(-2, 4),
        Vec2::new(9, 1),
    ]);
    assert_eq!(outline.bounds.min, Vec2::new(-2, -7));
    assert_eq!(outline.bounds.max, Vec2::new(9, 4));
    let sq = square();
    assert_eq!(sq.bounds.min, Vec2::new(50_000, 50_000));
    assert_eq!(sq.bounds.max, Vec2::new(150_000, 150_000));
}

#[test]
fn a_single_point_closes_on_itself() {
    let outline = Outline::from_points(vec![Vec2::new(5, 6)]);
    assert_eq!(outline.segments.len(), 1);
    assert_eq!(outline.segments[0].start, Vec2::new(5, 6));
    assert_eq!(outline.segments[0].end, Vec2::new(5, 6));
    assert_eq!(outline.bounds.min, Vec2::new(5, 6));
    assert_eq!(outline.bounds.max, Vec2::new(5, 6));
    assert!(!outline.contains(Vec2::new(5, 6)));
    assert_eq!(outline.centroid(), Vec2::new(5, 6));
}

#[test]
fn square_contains_its_centre() {
    assert!(square().contains(Vec2::new(100_000, 100_000)));
}

#[test]
fn square_excludes_a_far_point() {
    assert!(!square().contains(Vec2::new(200_000, 200_000)));
}

#[test]
fn corner_answer_is_stable() {
    let outline = square();
    let first = outline.contains(Vec2::new(50_000, 50_000));
    for _ in 0..10 {
        assert_eq!(outline.contains(Vec2::new(50_000, 50_000)), first);
    }
}

#[test]
fn square_contains_points_near_its_edges() {
    let outline = square();
    assert!(outline.contains(Vec2::new(50_001, 50_001)));
    assert!(outline.contains(Vec2::new(149_999, 149_999)));
    assert!(outline.contains(Vec2::new(149_999, 50_001)));
    assert!(!outline.contains(Vec2::new(49_999, 100_000)));
    assert!(!outline.contains(Vec2::new(150_001, 100_000)));
    assert!(!outline.contains(Vec2::new(100_000, 49_999)));
    assert!(!outline.contains(Vec2::new(100_000, 150_001)));
}

#[test]
fn a_notch_is_outside() {
    let outline = Outline::from_points(vec![
        Vec2::new(0, 0),
        Vec2::new(100_000, 0),
        Vec2::new(100_000, 100_000),
        Vec2::new(50_000, 20_000),
        Vec2::new(0, 100_000),
    ]);
    assert!(outline.contains(Vec2::new(50_000, 10_000)));
    assert!(!outline.contains(Vec2::new(50_000, 60_000)));
    assert!(outline.contains(Vec2::new(10_000, 60_000)));
    assert!(outline.contains(Vec2::new(90_000, 60_000)));
}

#[test]
fn a_triangle() {
    let outline = Outline::from_points(vec![
        Vec2::new(0, 0),
        Vec2::new(100_000, 0),
        Vec2::new(0, 100_000),
    ]);
    assert!(outline.contains(Vec2::new(20_000, 20_000)));
    assert!(!outline.contains(Vec2::new(80_000, 80_000)));
}

#[test]
fn rays_and_segments() {
    let origin = Vec2::new(0, 0);
    let east = Vec2::new(10_000, 0);
    assert!(Outline::ray_intersects_segment(origin, east, Vec2::new(5_000, -5_000), Vec2::new(5_000, 5_000)));
    assert!(Outline::ray_intersects_segment(origin, east, Vec2::new(5_000, 5_000), Vec2::new(5_000, -5_000)));
    assert!(!Outline::ray_intersects_segment(origin, east, Vec2::new(15_000, -5_000), Vec2::new(15_000, 5_000)));
    assert!(!Outline::ray_intersects_segment(origin, east, Vec2::new(-5_000, -5_000), Vec2::new(-5_000, 5_000)));
    assert!(!Outline::ray_intersects_segment(origin, east, Vec2::new(5_000, 1_000), Vec2::new(5_000, 5_000)));
    assert!(Outline::ray_intersects_segment(origin, east, Vec2::new(10_000, 0), Vec2::new(10_000, 5_000)));
    assert!(Outline::ray_intersects_segment(origin, east, Vec2::new(0, 0), Vec2::new(0, 5_000)));
}

#[test]
fn parallel_rays_never_meet() {
    let origin = Vec2::new(0, 0);
    let east = Vec2::new(10_000, 0);
    assert!(!Outline::ray_intersects_segment(origin, east, Vec2::new(0, 1_000), Vec2::new(10_000, 1_000)));
    assert!(!Outline::ray_intersects_segment(origin, east, Vec2::new(2_000, 0), Vec2::new(8_000, 0)));
    assert!(!Outline::ray_intersects_segment(origin, origin, Vec2::new(0, -5), Vec2::new(0, 5)));
}

#[test]
fn a_cross_product_below_the_limit_counts_as_parallel() {
    let origin = Vec2::new(0, 0);
    assert!(!Outline::ray_intersects_segment(origin, Vec2::new(9, 0), Vec2::new(0, -5), Vec2::new(0, 5)));
    assert!(Outline::ray_intersects_segment(origin, Vec2::new(10, 0), Vec2::new(0, -5), Vec2::new(0, 5)));
    assert!(Outline::ray_intersects_segment(origin, Vec2::new(10, 0), Vec2::new(0, 5), Vec2::new(0, -5)));
}

#[test]
fn the_centroid_is_the_mean_of_the_starts() {
    assert_eq!(square().centroid(), Vec2::new(100_000, 100_000));
    let outline = Outline::from_points(vec![Vec2::new(0, 0), Vec2::new(10, 0), Vec2::new(0, 10)]);
    assert_eq!(outline.centroid(), Vec2::new(3, 3));
    let negative = Outline::from_points(vec![Vec2::new(0, 0), Vec2::new(-10, 0), Vec2::new(0, -10)]);
    assert_eq!(negative.centroid(), Vec2::new(-3, -3));
    let far = Outline::from_points(vec![Vec2::new(i32::MAX, i32::MIN), Vec2::new(i32::MAX, i32::MIN)]);
    assert_eq!(far.centroid(), Vec2::new(i32::MAX, i32::MIN));
}
