use fondoso::pendingkind::PendingKind;
use fondoso::point::Point;
use rand::rngs::SmallRng;
use rand::SeedableRng;

fn by_x(x: usize) -> Point {
    Point { r: 0, g: 0, b: 0, x, y: 0, sort_mode: Point::get_sort_mode("x") }
}

#[test]
fn lifo_pops_most_recent_first() {
    let mut rng = SmallRng::seed_from_u64(1);
    let mut pending = PendingKind::LifoChance(Vec::new(), 30);
    pending.add(by_x(4));
    pending.add(by_x(1));
    pending.add(by_x(3));
    assert_eq!(pending.pop(&mut rng).x, 3);
    assert_eq!(pending.pop(&mut rng).x, 1);
    assert_eq!(pending.pop(&mut rng).x, 4);
    assert!(!pending.has_any());
}

#[test]
fn ascending_pops_minimum_first() {
    let mut rng = SmallRng::seed_from_u64(1);
    let mut pending = PendingKind::Ascending(Vec::new());
    pending.add(by_x(4));
    pending.add(by_x(1));
    pending.add(by_x(3));
    assert_eq!(pending.pop(&mut rng).x, 1);
    assert_eq!(pending.pop(&mut rng).x, 3);
    assert_eq!(pending.pop(&mut rng).x, 4);
    assert!(!pending.has_any());
}

#[test]
fn descending_pops_maximum_first() {
    let mut rng = SmallRng::seed_from_u64(1);
    let mut pending = PendingKind::Descending(Vec::new());
    pending.add(by_x(4));
    pending.add(by_x(1));
    pending.add(by_x(3));
    assert_eq!(pending.pop(&mut rng).x, 4);
    assert_eq!(pending.pop(&mut rng).x, 3);
    assert_eq!(pending.pop(&mut rng).x, 1);
    assert!(!pending.has_any());
}

#[test]
fn heap_pops_maximum_and_keeps_duplicates() {
    let mut rng = SmallRng::seed_from_u64(1);
    let mut pending = PendingKind::MaxHeap(Vec::new());
    pending.add(by_x(2));
    pending.add(by_x(7));
    pending.add(by_x(2));
    assert_eq!(pending.pop(&mut rng).x, 7);
    assert_eq!(pending.pop(&mut rng).x, 2);
    assert_eq!(pending.pop(&mut rng).x, 2);
    assert!(!pending.has_any());
}

#[test]
fn ordered_sets_drop_an_equal_key() {
    let mut rng = SmallRng::seed_from_u64(1);
    // With an all-zero mode every attribute reads as zero, so any two
    // cells compare equal and the set keeps only the first.
    let mut pending = PendingKind::Ascending(Vec::new());
    pending.add(Point { r: 1, g: 0, b: 0, x: 0, y: 0, sort_mode: 0 });
    pending.add(Point { r: 2, g: 0, b: 0, x: 5, y: 5, sort_mode: 0 });
    let first = pending.pop(&mut rng);
    assert_eq!(first.r, 1);
    assert!(!pending.has_any());
}

#[test]
fn uniform_random_pops_some_member() {
    let mut rng = SmallRng::seed_from_u64(9);
    let mut pending = PendingKind::UniformRandom(Vec::new());
    pending.add(by_x(10));
    pending.add(by_x(20));
    pending.add(by_x(30));
    let mut seen = Vec::new();
    while pending.has_any() {
        seen.push(pending.pop(&mut rng).x);
    }
    seen.sort();
    assert_eq!(seen, vec![10, 20, 30]);
}

#[test]
fn shuffle_chance_is_zero_except_for_lifo() {
    assert_eq!(PendingKind::LifoChance(Vec::new(), 55).shuffle_chance(), 55);
    assert_eq!(PendingKind::UniformRandom(Vec::new()).shuffle_chance(), 0);
    assert_eq!(PendingKind::Ascending(Vec::new()).shuffle_chance(), 0);
    assert_eq!(PendingKind::Descending(Vec::new()).shuffle_chance(), 0);
    assert_eq!(PendingKind::MaxHeap(Vec::new()).shuffle_chance(), 0);
}
