use lifefromscratch::atom::Atom;
use lifefromscratch::grid::Grid;

fn grid_with(atoms: &[(u32, i64, i64, i64)]) -> Grid<Atom> {
    let mut g: Grid<Atom> = Grid::new(100, 100, 10, 10);
    for &(id, x, y, d) in atoms {
        g.push(Atom::new(0, 0, x, y, d, id));
    }
    g
}

#[test]
fn push_get_remove() {
    let mut g = grid_with(&[(3, 15, 25, 10), (7, 99, 0, 10)]);
    let mut ids = g.ids();
    ids.sort();
    assert_eq!(ids, vec![3, 7]);
    assert_eq!(g.get(7).x, 99);
    let a = g.remove(3);
    assert_eq!((a.id, a.x, a.y), (3, 15, 25));
    assert_eq!(g.ids(), vec![7]);
}

#[test]
fn relocation_wraps_by_one_period() {
    let mut g = grid_with(&[(0, 5, 95, 10)]);
    g.move_obj(0, -10, 10);
    assert_eq!((g.get(0).x, g.get(0).y), (95, 5));
    g.move_obj(0, 5, -5);
    assert_eq!((g.get(0).x, g.get(0).y), (0, 0));
    g.move_obj(0, 99, 99);
    assert_eq!((g.get(0).x, g.get(0).y), (99, 99));
}

#[test]
fn overlapping_pair_is_pushed_apart() {
    let mut g = grid_with(&[(0, 50, 50, 10), (1, 52, 50, 10)]);
    let pairs = g.detect_and_resolve_collisions();
    assert_eq!(pairs, vec![(0, 1)]);
    assert_eq!((g.get(0).x, g.get(0).y), (46, 50));
    assert_eq!((g.get(1).x, g.get(1).y), (56, 50));
    // now exactly in contact: still touching, no further push
    let pairs = g.detect_and_resolve_collisions();
    assert_eq!(pairs, vec![(0, 1)]);
    assert_eq!((g.get(0).x, g.get(1).x), (46, 56));
}

#[test]
fn coincident_centres_separate_along_x() {
    let mut g = grid_with(&[(4, 50, 50, 10), (2, 50, 50, 10)]);
    let pairs = g.detect_and_resolve_collisions();
    assert_eq!(pairs, vec![(2, 4)]);
    assert_eq!((g.get(2).x, g.get(2).y), (45, 50));
    assert_eq!((g.get(4).x, g.get(4).y), (55, 50));
}

#[test]
fn distant_and_wrapped_neighbours_do_not_collide() {
    let mut g = grid_with(&[(0, 1, 50, 10), (1, 98, 50, 10), (2, 50, 50, 10), (3, 61, 50, 10)]);
    let pairs = g.detect_and_resolve_collisions();
    assert!(pairs.is_empty());
    assert_eq!((g.get(0).x, g.get(1).x, g.get(2).x, g.get(3).x), (1, 98, 50, 61));
}

#[test]
fn atom_pushed_by_two_neighbours_gets_the_sum() {
    let mut g = grid_with(&[(0, 46, 50, 10), (1, 50, 50, 10), (2, 54, 50, 10)]);
    let pairs = g.detect_and_resolve_collisions();
    assert_eq!(pairs, vec![(0, 1), (0, 2), (1, 2)]);
    // the middle atom is pushed equally from both sides
    assert_eq!(g.get(1).x, 50);
    assert_eq!(g.get(0).x, 42);
    assert_eq!(g.get(2).x, 58);
}

#[test]
fn overlaps_do_not_grow_over_passes() {
    let atoms: Vec<(u32, i64, i64, i64)> = (0..5).map(|i| (i as u32, 40 + 2 * i, 50 + (i % 2), 10)).collect();
    let mut g = grid_with(&atoms);
    let mut counts = Vec::new();
    for _ in 0..8 {
        counts.push(g.detect_and_resolve_collisions().len());
    }
    assert_eq!(counts[0], 10);
    for w in counts.windows(2) {
        assert!(w[1] <= w[0]);
    }
    for id in 0..5u32 {
        let a = g.get(id);
        assert!(0 <= a.x && a.x < 100 && 0 <= a.y && a.y < 100);
    }
}

#[test]
fn push_near_the_edge_wraps() {
    let mut g = grid_with(&[(0, 1, 50, 10), (1, 3, 50, 10)]);
    g.detect_and_resolve_collisions();
    assert_eq!(g.get(0).x, 97);
    assert_eq!(g.get(1).x, 7);
}

#[test]
fn iter_visits_every_object_once() {
    let g = grid_with(&[(5, 10, 10, 10), (1, 90, 90, 10), (3, 50, 50, 10)]);
    let mut seen: Vec<(u32, i64, i64)> = g.iter().iter().map(|a| (a.id, a.x, a.y)).collect();
    seen.sort();
    assert_eq!(seen, vec![(1, 90, 90), (3, 50, 50), (5, 10, 10)]);
}
