use fondoso::engine::{neighbours, offset, run, Color};
use fondoso::pendingkind::PendingKind;
use fondoso::point::Point;
use rand::rngs::SmallRng;
use rand::SeedableRng;

fn seed_at(x: usize, y: usize, c: (u8, u8, u8), order: &str) -> Point {
    Point { r: c.0, g: c.1, b: c.2, x, y, sort_mode: Point::get_sort_mode(order) }
}

fn all_strategies() -> Vec<PendingKind> {
    vec![
        PendingKind::UniformRandom(Vec::new()),
        PendingKind::LifoChance(Vec::new(), 0),
        PendingKind::LifoChance(Vec::new(), 60),
        PendingKind::Ascending(Vec::new()),
        PendingKind::Descending(Vec::new()),
        PendingKind::MaxHeap(Vec::new()),
    ]
}

#[test]
fn offset_with_zero_delta_is_identity() {
    let mut rng = SmallRng::seed_from_u64(3);
    for v in [0u8, 1, 127, 254, 255] {
        assert_eq!(offset(v, 0, &mut rng), v);
    }
}

#[test]
fn offset_steps_are_nonzero_and_bounded() {
    let mut rng = SmallRng::seed_from_u64(4);
    for _ in 0..200 {
        let r = offset(100, 1, &mut rng);
        assert!(r == 99 || r == 101);
    }
    for _ in 0..200 {
        let r = offset(100, 5, &mut rng);
        assert!(95 <= r && r <= 105);
        assert_ne!(r, 100);
    }
}

#[test]
fn offset_clamps_at_the_byte_bounds() {
    let mut rng = SmallRng::seed_from_u64(5);
    for _ in 0..200 {
        let low = offset(0, 7, &mut rng);
        assert!(low <= 7);
        let high = offset(255, 7, &mut rng);
        assert!(high >= 248);
    }
}

#[test]
fn neighbours_in_fixed_order_without_shuffle() {
    let mut rng = SmallRng::seed_from_u64(6);
    assert_eq!(
        neighbours(1, 1, 3, 3, 0, &mut rng),
        vec![(0, 0), (0, 1), (0, 2), (1, 0), (1, 2), (2, 0), (2, 1), (2, 2)]
    );
    assert_eq!(neighbours(0, 0, 2, 2, 0, &mut rng), vec![(0, 1), (1, 0), (1, 1)]);
    assert_eq!(neighbours(0, 0, 1, 1, 0, &mut rng), vec![]);
}

#[test]
fn neighbours_shuffled_keep_the_same_cells() {
    let mut rng = SmallRng::seed_from_u64(7);
    let mut shuffled = neighbours(1, 1, 3, 3, 100, &mut rng);
    shuffled.sort();
    assert_eq!(
        shuffled,
        vec![(0, 0), (0, 1), (0, 2), (1, 0), (1, 2), (2, 0), (2, 1), (2, 2)]
    );
}

#[test]
fn uniform_grid_from_single_seed_without_diffusion() {
    // A 3 by 3 grid grown from one grey centre seed with delta 0 ends all
    // grey: colours propagate unchanged.
    let mut rng = SmallRng::seed_from_u64(11);
    let seeds = vec![seed_at(1, 1, (128, 128, 128), "rgbxy")];
    let out = run(3, 3, &seeds, PendingKind::LifoChance(Vec::new(), 0), 0, &mut rng);
    assert_eq!(out.canvas.len(), 9);
    for c in out.canvas.iter() {
        assert_eq!(*c, Color { r: 128, g: 128, b: 128 });
    }
    assert_eq!(out.commits, 9);
    assert_eq!(out.inserts, 9);
}

#[test]
fn trivial_grid_commits_once_and_inserts_once() {
    let mut rng = SmallRng::seed_from_u64(12);
    let seeds = vec![seed_at(0, 0, (9, 8, 7), "rgbxy")];
    let out = run(1, 1, &seeds, PendingKind::UniformRandom(Vec::new()), 4, &mut rng);
    assert_eq!(out.canvas.len(), 1);
    assert_eq!(out.commits, 1);
    // the only insertion is the seed itself: no neighbour was ever added
    assert_eq!(out.inserts, 1);
}

#[test]
fn trivial_grid_is_strategy_independent() {
    let mut canvases = Vec::new();
    for pending in all_strategies() {
        let mut rng = SmallRng::seed_from_u64(13);
        let seeds = vec![seed_at(0, 0, (31, 41, 59), "rgbxy")];
        let out = run(1, 1, &seeds, pending, 0, &mut rng);
        canvases.push(out.canvas);
    }
    for c in canvases.iter() {
        assert_eq!(*c, canvases[0]);
        assert_eq!(c[0], Color { r: 31, g: 41, b: 59 });
    }
}

#[test]
fn every_strategy_covers_the_whole_grid() {
    for pending in all_strategies() {
        let mut rng = SmallRng::seed_from_u64(14);
        let seeds = vec![
            seed_at(0, 0, (200, 10, 10), "xy"),
            seed_at(5, 4, (10, 200, 10), "xy"),
        ];
        let out = run(6, 5, &seeds, pending, 3, &mut rng);
        assert_eq!(out.canvas.len(), 30);
        assert_eq!(out.commits, 30);
        assert_eq!(out.inserts, 30);
    }
}

#[test]
fn duplicate_seed_coordinates_are_claimed_once() {
    let mut rng = SmallRng::seed_from_u64(15);
    let seeds = vec![
        seed_at(2, 2, (1, 2, 3), "rgbxy"),
        seed_at(2, 2, (4, 5, 6), "rgbxy"),
    ];
    let out = run(5, 4, &seeds, PendingKind::MaxHeap(Vec::new()), 2, &mut rng);
    assert_eq!(out.commits, 20);
    assert_eq!(out.inserts, 20);
}

#[test]
fn identical_seeds_give_identical_canvases() {
    let seeds = vec![
        seed_at(3, 1, (250, 20, 66), "bg"),
        seed_at(10, 7, (7, 99, 160), "bg"),
    ];
    let run_once = || {
        let mut rng = SmallRng::seed_from_u64(424242);
        run(20, 10, &seeds, PendingKind::UniformRandom(Vec::new()), 5, &mut rng).canvas
    };
    assert_eq!(run_once(), run_once());
    let mut other_rng = SmallRng::seed_from_u64(424243);
    let other = run(20, 10, &seeds, PendingKind::UniformRandom(Vec::new()), 5, &mut other_rng);
    assert_ne!(run_once(), other.canvas);
}

#[test]
fn delta_zero_pixels_all_wear_seed_colours() {
    let mut rng = SmallRng::seed_from_u64(16);
    let red = (255, 0, 0);
    let blue = (0, 0, 255);
    let seeds = vec![seed_at(0, 0, red, "y"), seed_at(7, 5, blue, "y")];
    let out = run(8, 6, &seeds, PendingKind::LifoChance(Vec::new(), 40), 0, &mut rng);
    assert_eq!(out.commits, 48);
    for c in out.canvas.iter() {
        let t = (c.r, c.g, c.b);
        assert!(t == red || t == blue);
    }
}
