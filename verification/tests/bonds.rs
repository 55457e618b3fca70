use genesis::bonds::{break_bonds, form_bonds, is_stale_partner, may_bond};

fn partner_count(bonds: &Vec<Vec<(usize, f32)>>, i: usize, j: usize) -> usize {
    bonds[i].iter().filter(|p| p.0 == j).count()
}

fn is_symmetric(bonds: &Vec<Vec<(usize, f32)>>) -> bool {
    (0..bonds.len()).all(|i| (0..bonds.len()).all(|j| partner_count(bonds, i, j) == partner_count(bonds, j, i)))
}

#[test]
fn may_bond_rules() {
    let alive = vec![true, true, false, true, true];
    let bonds: Vec<Vec<(usize, f32)>> = vec![
        vec![(3, 0.5)],
        vec![(4, 0.5), (4, 0.5), (4, 0.5), (4, 0.5)],
        vec![],
        vec![(0, 0.5)],
        vec![(1, 0.5), (1, 0.5), (1, 0.5), (1, 0.5)],
    ];
    assert!(!may_bond(&bonds, &alive, 0, 3)); // already bonded
    assert!(!may_bond(&bonds, &alive, 3, 0)); // second must come after the first
    assert!(!may_bond(&bonds, &alive, 0, 2)); // dead partner
    assert!(!may_bond(&bonds, &alive, 0, 1)); // partner has four bonds
    assert!(!may_bond(&bonds, &alive, 0, 0));
    let fresh: Vec<Vec<(usize, f32)>> = vec![vec![]; 5];
    assert!(may_bond(&fresh, &alive, 0, 3));
}

#[test]
fn form_bonds_adds_both_sides_in_order() {
    let mut bonds: Vec<Vec<(usize, f32)>> = vec![vec![]; 4];
    form_bonds(&mut bonds, &vec![(0, 2, 0.4), (1, 2, 0.6), (0, 3, 0.9)]);
    assert_eq!(bonds[0], vec![(2, 0.4), (3, 0.9)]);
    assert_eq!(bonds[1], vec![(2, 0.6)]);
    assert_eq!(bonds[2], vec![(0, 0.4), (1, 0.6)]);
    assert_eq!(bonds[3], vec![(0, 0.9)]);
    assert!(is_symmetric(&bonds));
}

#[test]
fn break_bonds_removes_both_sides() {
    let mut bonds: Vec<Vec<(usize, f32)>> = vec![vec![]; 5];
    form_bonds(&mut bonds, &vec![(0, 1, 0.1), (0, 2, 0.2), (0, 3, 0.3), (2, 3, 0.5)]);
    // Drop the bonds at positions 0 and 2 of particle 0 (to 1 and to 3).
    break_bonds(&mut bonds, 0, &vec![0, 2]);
    assert_eq!(bonds[0], vec![(2, 0.2)]);
    assert!(bonds[1].is_empty());
    assert_eq!(bonds[2], vec![(0, 0.2), (3, 0.5)]);
    assert_eq!(bonds[3], vec![(2, 0.5)]);
    assert!(is_symmetric(&bonds));
}

#[test]
fn break_bonds_to_a_particle_outside_the_store_touches_only_one_side() {
    let mut bonds: Vec<Vec<(usize, f32)>> = vec![vec![(7, 0.5), (1, 0.25)], vec![(0, 0.25)]];
    break_bonds(&mut bonds, 0, &vec![0]);
    assert_eq!(bonds[0], vec![(1, 0.25)]);
    assert_eq!(bonds[1], vec![(0, 0.25)]);
}

#[test]
fn stale_partners() {
    let alive = vec![true, false];
    assert!(!is_stale_partner(&alive, 0));
    assert!(is_stale_partner(&alive, 1));
    assert!(is_stale_partner(&alive, 2));
}
