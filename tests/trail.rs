use chaos_visualizer::{Trail, BASE_BATCH, BLOOM_BATCH, TRAIL_CAP};

type Point = (f32, f32, f32);

const SEED: Point = (0.1, 0.0, 0.0);

fn thomas_step((x, y, z): Point, b: f32) -> Point {
    let dt = 0.05;
    let dx = y.sin() - b * x;
    let dy = z.sin() - b * y;
    let dz = x.sin() - b * z;
    (x + dx * dt, y + dy * dt, z + dz * dt)
}

fn close(a: f32, b: f32) -> bool {
    (a - b).abs() < 1e-6
}

#[test]
fn new_trail_holds_seed_alone() {
    let t = Trail::new(SEED);
    assert_eq!(t.len(), 1);
    assert_eq!(t.points(), &[SEED][..]);
    assert_eq!(t.last(), SEED);
}

#[test]
fn first_point_from_seed() {
    let mut t = Trail::new(SEED);
    t.advance_frame(&|p: Point| thomas_step(p, 0.208));
    let (x, y, z) = t.points()[1];
    assert!(close(x, 0.09896), "x = {}", x);
    assert!(close(y, 0.0), "y = {}", y);
    assert!(close(z, 0.0049917), "z = {}", z);
}

#[test]
fn each_new_point_is_a_step_from_the_one_before() {
    let mut t = Trail::new(SEED);
    t.advance_frame(&|p: Point| thomas_step(p, 0.208));
    let pts = t.points();
    for i in 1..pts.len() {
        assert_eq!(pts[i], thomas_step(pts[i - 1], 0.208));
    }
    assert_eq!(t.last(), pts[pts.len() - 1]);
}

#[test]
fn frames_are_deterministic() {
    let mut a = Trail::new(SEED);
    let mut b = Trail::new(SEED);
    for _ in 0..5 {
        a.advance_frame(&|p: Point| thomas_step(p, 0.17));
        b.advance_frame(&|p: Point| thomas_step(p, 0.17));
    }
    assert_eq!(a.len(), b.len());
    for (p, q) in a.points().iter().zip(b.points()) {
        assert_eq!(p.0.to_bits(), q.0.to_bits());
        assert_eq!(p.1.to_bits(), q.1.to_bits());
        assert_eq!(p.2.to_bits(), q.2.to_bits());
    }
}

#[test]
fn reset_returns_to_seed() {
    let mut t = Trail::new(SEED);
    for _ in 0..10 {
        t.advance_frame(&|p: Point| thomas_step(p, 0.208));
    }
    assert_eq!(t.len(), 1501);
    t.reset();
    assert_eq!(t.len(), 1);
    assert_eq!(t.points(), &[SEED][..]);
}

#[test]
fn reset_on_fresh_trail() {
    let mut t = Trail::new(SEED);
    t.reset();
    assert_eq!(t.points(), &[SEED][..]);
}

#[test]
fn frame_appends_base_and_bloom_below_cap() {
    let mut t = Trail::new(0u64);
    t.advance_frame(&|p: u64| p + 1);
    assert_eq!(t.len(), 151);
    t.advance_frame(&|p: u64| p + 1);
    assert_eq!(t.len(), 301);
    assert_eq!(BASE_BATCH + BLOOM_BATCH, 150);
}

#[test]
fn growth_slows_but_never_stops_at_cap() {
    let mut t = Trail::new(0u64);
    while t.len() < TRAIL_CAP {
        let before = t.len();
        t.advance_frame(&|p: u64| p + 1);
        if before + BASE_BATCH < TRAIL_CAP {
            assert_eq!(t.len(), before + 150);
        } else {
            assert_eq!(t.len(), before + 50);
        }
    }
    // 1 + 150 * 667 points: the last bloom started at 99_901 points
    assert_eq!(t.len(), 100_051);
    for _ in 0..3 {
        let before = t.len();
        t.advance_frame(&|p: u64| p + 1);
        assert_eq!(t.len(), before + 50);
    }
    assert_eq!(t.len(), 100_201);
    assert_eq!(t.last(), 100_200);
}

#[test]
fn earlier_points_survive_later_frames() {
    let mut t = Trail::new(SEED);
    t.advance_frame(&|p: Point| thomas_step(p, 0.208));
    let before: Vec<Point> = t.points().to_vec();
    for _ in 0..4 {
        t.advance_frame(&|p: Point| thomas_step(p, 0.208));
    }
    assert_eq!(&t.points()[..before.len()], &before[..]);
}

#[test]
fn changed_dissipation_reaches_new_points_only() {
    let mut t = Trail::new(SEED);
    t.advance_frame(&|p: Point| thomas_step(p, 0.208));
    let before: Vec<Point> = t.points().to_vec();
    t.advance_frame(&|p: Point| thomas_step(p, 0.5));
    let pts = t.points();
    assert_eq!(&pts[..before.len()], &before[..]);
    for i in before.len()..pts.len() {
        assert_eq!(pts[i], thomas_step(pts[i - 1], 0.5));
    }
    assert_ne!(pts[before.len()], thomas_step(before[before.len() - 1], 0.208));
}
