use lifefromscratch::chemistry::Chemistry;
use lifefromscratch::world::{Bond, World, WorldError};

fn chemistry(lines: &[&str]) -> Chemistry {
    let lines: Vec<String> = lines.iter().map(|l| l.to_string()).collect();
    Chemistry::new(&lines)
}

fn positions(w: &World) -> Vec<(u32, i64, i64, u8)> {
    w.atom_iter().iter().map(|a| (a.id, a.x, a.y, a.state)).collect()
}

#[test]
fn lone_atom_at_zero_temperature_stays() {
    let mut w = World::new(100_000, 100_000, 0, 9, 5000);
    w.set_chemistry(chemistry(&["0{0}+0{0}->0{1}=0{1}", "0{0}+0{0}->0{2}+0{2}"]));
    assert_eq!(w.add_atom_at(50_000, 50_000, 0, 0, 5000, 0), Ok(()));
    for _ in 0..20 {
        w.step();
        assert_eq!(positions(&w), vec![(0, 50_000, 50_000, 0)]);
        assert!(w.bonds().is_empty());
    }
}

#[test]
fn diffusion_follows_the_draws() {
    let mut w = World::new(100_000, 100_000, 1000, 1, 5000);
    w.add_atom_at(50_000, 50_000, 0, 0, 5000, 0).unwrap();
    w.add_atom_at(500, 99_800, 0, 0, 5000, 1).unwrap();
    w.advance(&vec![(0, u32::MAX), (0, u32::MAX)]);
    assert_eq!(positions(&w), vec![(0, 49_000, 50_999, 0), (1, 99_500, 799, 0)]);
}

#[test]
fn same_seed_gives_same_ticks() {
    let mut a = World::new(100_000, 100_000, 2000, 42, 5000);
    let mut b = World::new(100_000, 100_000, 2000, 42, 5000);
    a.init_random(30, 5000);
    b.init_random(30, 5000);
    assert_eq!(positions(&a), positions(&b));
    for _ in 0..5 {
        a.step();
        b.step();
        assert_eq!(a.atom_iter(), b.atom_iter());
    }
    for at in a.atom_iter() {
        assert!(0 <= at.x && at.x < 100_000 && 0 <= at.y && at.y < 100_000);
    }
}

#[test]
fn combination_bonds_and_decomposition_unbonds() {
    let mut w = World::new(100_000, 100_000, 0, 3, 5000);
    w.set_chemistry(chemistry(&["0{0}+0{0}->0{1}=0{1}"]));
    w.add_atom_at(50_000, 50_000, 0, 0, 5000, 0).unwrap();
    w.add_atom_at(52_000, 50_000, 0, 0, 5000, 1).unwrap();
    w.step();
    assert!(w.is_bonded(0, 1));
    assert!(w.is_bonded(1, 0));
    assert_eq!(w.bonds(), &vec![Bond { a: 0, b: 1, rest_length: 5500 }]);
    assert_eq!(positions(&w), vec![(0, 48_500, 50_000, 1), (1, 53_500, 50_000, 1)]);
    // no decomposition rule yet: the bond stays
    w.step();
    assert!(w.is_bonded(0, 1));
    w.set_chemistry(chemistry(&["0{0}+0{0}->0{1}=0{1}", "0{1}=0{1}->0{2}+0{2}"]));
    w.step();
    assert!(!w.is_bonded(0, 1));
    assert!(w.bonds().is_empty());
    assert_eq!(positions(&w), vec![(0, 48_500, 50_000, 2), (1, 53_500, 50_000, 2)]);
}

#[test]
fn excitation_changes_states_without_bonding() {
    let mut w = World::new(100_000, 100_000, 0, 3, 5000);
    w.set_chemistry(chemistry(&["0{0}+0{0}->0{5}+0{6}"]));
    w.add_atom_at(50_000, 50_000, 0, 0, 5000, 0).unwrap();
    w.add_atom_at(52_000, 50_000, 0, 0, 5000, 1).unwrap();
    w.step();
    assert!(!w.is_bonded(0, 1));
    let states: Vec<u8> = w.atom_iter().iter().map(|a| a.state).collect();
    assert_eq!(states, vec![5, 6]);
}

#[test]
fn adding_atoms_checks_its_arguments() {
    let mut w = World::new(100_000, 100_000, 0, 3, 5000);
    assert_eq!(w.add_atom_at(1, 1, 0, 0, 0, 0), Err(WorldError::BadDiameter));
    assert_eq!(w.add_atom_at(1, 1, 0, 0, 5001, 0), Err(WorldError::BadDiameter));
    assert_eq!(w.add_atom_at(100_000, 1, 0, 0, 5000, 0), Err(WorldError::OutOfBounds));
    assert_eq!(w.add_atom_at(1, -1, 0, 0, 5000, 0), Err(WorldError::OutOfBounds));
    assert_eq!(w.add_atom_at(1, 1, 3, 4, 5000, 7), Ok(()));
    assert_eq!(w.add_atom_at(9, 9, 0, 0, 5000, 7), Err(WorldError::DuplicateId));
    assert_eq!(w.add_atom_at(2, 2, 0, 0, 5000, 3), Ok(()));
    let ids: Vec<u32> = w.atom_iter().iter().map(|a| a.id).collect();
    assert_eq!(ids, vec![3, 7]);
    assert_eq!(w.size_x(), 100_000);
    assert_eq!(w.size_y(), 100_000);
}

#[test]
fn random_atoms_are_numbered_on() {
    let mut w = World::new(100_000, 50_000, 10, 5, 5000);
    w.add_atom_at(1, 1, 0, 0, 5000, 10).unwrap();
    w.init_random(3, 4000);
    let atoms = w.atom_iter();
    let ids: Vec<u32> = atoms.iter().map(|a| a.id).collect();
    assert_eq!(ids, vec![10, 11, 12, 13]);
    for a in &atoms[1..] {
        assert_eq!(a.diameter, 4000);
        assert!(0 <= a.x && a.x < 100_000 && 0 <= a.y && a.y < 50_000);
    }
}
