use genesis::cell_role::CellRole;
use genesis::groups::assign_group_ids;
use genesis::particle_store::ParticleStore;
use genesis::save::{load_particles, save_particles};

type Store = ParticleStore<f32, [f32; 2], Vec<u8>>;

fn store_with(n: usize) -> Store {
    let mut s = Store::default();
    for i in 0..n {
        s.add_particle(i as f32, 2.0 * i as f32, [i as f32, 0.5], vec![i as u8], 10.0 + i as f32, -1, 0);
    }
    s
}

#[test]
fn default_store_is_empty() {
    let s = Store::default();
    assert_eq!(s.count, 0);
    assert_eq!(s.next_id, 0);
    assert_eq!(s.population(), 0);
}

#[test]
fn add_particle_appends_a_living_particle() {
    let mut s = Store::default();
    let a = s.add_particle(1.0, 2.0, [0.1, 0.2], vec![7], 5.0, 3, 4);
    let b = s.add_particle(3.0, 4.0, [0.3, 0.4], vec![8], 6.0, -1, 0);
    assert_eq!((a, b), (0, 1));
    assert_eq!(s.count, 2);
    assert_eq!(s.particle_ids, vec![0, 1]);
    assert_eq!(s.next_id, 2);
    assert_eq!(s.alive, vec![true, true]);
    assert_eq!(s.vx, vec![0.0, 0.0]);
    assert_eq!(s.ages, vec![0, 0]);
    assert_eq!(s.group_ids, vec![-1, -1]);
    assert_eq!(s.parent_ids, vec![3, -1]);
    assert_eq!(s.generations, vec![4, 0]);
    assert_eq!(s.roles, vec![CellRole::Undifferentiated, CellRole::Undifferentiated]);
    assert!(s.bonds[0].is_empty() && s.bonds[1].is_empty());
    assert_eq!(s.population(), 2);
}

#[test]
fn kill_lowers_population_and_ignores_out_of_range() {
    let mut s = store_with(4);
    s.kill(1);
    assert_eq!(s.population(), 3);
    s.kill(1);
    assert_eq!(s.population(), 3);
    s.kill(99);
    assert_eq!(s.population(), 3);
    assert_eq!(s.alive, vec![true, false, true, true]);
    assert_eq!(s.count, 4);
}

#[test]
fn compact_keeps_survivors_in_order_and_remaps_bonds() {
    let mut s = store_with(5);
    s.bonds[0].push((2, 1.0));
    s.bonds[0].push((1, 0.5));
    s.bonds[2].push((4, 0.25));
    s.bonds[4].push((0, 0.75));
    s.bonds[3].push((9, 0.1)); // index outside the store
    s.kill(1);
    s.compact();
    assert_eq!(s.count, 4);
    assert_eq!(s.x, vec![0.0, 2.0, 3.0, 4.0]);
    assert_eq!(s.particle_ids, vec![0, 2, 3, 4]);
    assert_eq!(s.alive, vec![true, true, true, true]);
    assert_eq!(s.bonds[0], vec![(1, 1.0)]);
    assert_eq!(s.bonds[1], vec![(3, 0.25)]);
    assert!(s.bonds[2].is_empty());
    assert_eq!(s.bonds[3], vec![(0, 0.75)]);
    assert_eq!(s.next_id, 5);
    assert_eq!(s.population(), 4);
}

#[test]
fn compact_keeps_population() {
    let mut s = store_with(6);
    s.kill(0);
    s.kill(3);
    s.kill(5);
    let before = s.population();
    s.compact();
    assert_eq!(s.population(), before);
    assert_eq!(s.count, before);
}

#[test]
fn compact_of_all_dead_store_is_empty() {
    let mut s = store_with(3);
    s.kill(0);
    s.kill(1);
    s.kill(2);
    s.compact();
    assert_eq!(s.count, 0);
    assert!(s.x.is_empty() && s.bonds.is_empty());
}

#[test]
fn group_ids_number_components_in_order_of_first_member() {
    let alive = vec![true, true, true, false, true, true];
    let bonds: Vec<Vec<(usize, f32)>> = vec![
        vec![],
        vec![(4, 1.0)],
        vec![(3, 1.0)], // bond to a dead particle joins nothing
        vec![(0, 1.0)],
        vec![],
        vec![(0, 1.0)],
    ];
    assert_eq!(assign_group_ids(&alive, &bonds), vec![0, 1, 2, -1, 1, 0]);
}

#[test]
fn group_ids_follow_chains_in_either_direction() {
    let alive = vec![true; 5];
    let bonds: Vec<Vec<(usize, f32)>> = vec![vec![], vec![], vec![(1, 1.0)], vec![(2, 1.0), (0, 1.0)], vec![]];
    assert_eq!(assign_group_ids(&alive, &bonds), vec![0, 0, 0, 0, 1]);
}

#[test]
fn assign_groups_sets_store_group_ids() {
    let mut s = store_with(4);
    s.bonds[3].push((1, 1.0));
    s.kill(2);
    s.assign_groups();
    assert_eq!(s.group_ids, vec![0, 1, -1, 1]);
}

#[test]
fn save_lists_living_particles_in_order() {
    let mut s = store_with(3);
    s.bonds[0].push((2, 0.5));
    s.roles[2] = CellRole::Border;
    s.kill(1);
    let saved = save_particles(&s);
    assert_eq!(saved.len(), 2);
    assert_eq!(saved[0].id, 0);
    assert_eq!(saved[1].id, 2);
    // Bonds are renumbered to the survivors' positions.
    assert_eq!(saved[0].bonds, vec![(1, 0.5)]);
    assert_eq!(saved[1].x, 2.0);
    assert_eq!(saved[1].genome, vec![2u8]);
    assert_eq!(saved[1].role, 2);
    assert_eq!(saved[0].role, 0);
}

#[test]
fn save_then_load_round_trips_an_all_alive_store() {
    let mut s = store_with(3);
    s.bonds[1].push((0, 0.3));
    s.bonds[0].push((1, 0.3));
    s.roles[0] = CellRole::Interior;
    s.ages[2] = 40;
    s.group_ids[1] = 5;
    let saved = save_particles(&s);
    let l: Store = load_particles(&saved);
    assert_eq!(l.count, s.count);
    assert_eq!(l.x, s.x);
    assert_eq!(l.y, s.y);
    assert_eq!(l.energy, s.energy);
    assert_eq!(l.chem, s.chem);
    assert_eq!(l.genomes, s.genomes);
    assert_eq!(l.ages, s.ages);
    assert_eq!(l.group_ids, s.group_ids);
    assert_eq!(l.bonds, s.bonds);
    assert_eq!(l.roles, s.roles);
    assert_eq!(l.particle_ids, vec![0, 1, 2]);
    assert_eq!(l.next_id, 3);
}

#[test]
fn load_keeps_saved_ids_and_reads_unknown_roles_as_undifferentiated() {
    let mut s = store_with(4);
    s.kill(0);
    let mut saved = save_particles(&s);
    saved[0].role = 9;
    let l: Store = load_particles(&saved);
    assert_eq!(l.particle_ids, vec![1, 2, 3]);
    assert_eq!(l.next_id, 4);
    assert_eq!(l.x, vec![1.0, 2.0, 3.0]);
    assert_eq!(l.roles[0], CellRole::Undifferentiated);
    assert_eq!(l.population(), 3);
}

#[test]
fn group_ids_ignore_bond_direction() {
    // The same graph listed from either end gives the same numbering.
    let alive = vec![true; 4];
    let forward: Vec<Vec<(usize, f32)>> = vec![vec![(2, 1.0)], vec![], vec![], vec![(1, 1.0)]];
    let backward: Vec<Vec<(usize, f32)>> = vec![vec![], vec![(3, 1.0)], vec![(0, 1.0)], vec![]];
    assert_eq!(assign_group_ids(&alive, &forward), vec![0, 1, 0, 1]);
    assert_eq!(assign_group_ids(&alive, &forward), assign_group_ids(&alive, &backward));
}

#[test]
fn largest_group_size_counts_living_members() {
    let alive = vec![true, true, true, false, true];
    let bonds: Vec<Vec<(usize, f32)>> = vec![vec![(1, 1.0)], vec![(2, 1.0)], vec![], vec![(4, 1.0)], vec![]];
    assert_eq!(genesis::groups::largest_group_size(&alive, &bonds), 3);
    assert_eq!(genesis::groups::largest_group_size(&vec![false; 5], &bonds), 0);
    let none: Vec<Vec<(usize, f32)>> = vec![];
    assert_eq!(genesis::groups::largest_group_size(&vec![], &none), 0);
    assert_eq!(genesis::groups::largest_group_size(&vec![true; 5], &vec![Vec::<(usize, f32)>::new(); 5]), 1);
}

#[test]
fn save_then_load_equals_compaction() {
    // Three particles, the middle one dead, a bond between the other two.
    let mut s = store_with(3);
    s.bonds[0].push((2, 0.5));
    s.bonds[2].push((0, 0.5));
    s.bonds[0].push((1, 0.25));
    s.bonds[1].push((0, 0.25));
    s.kill(1);
    let saved = save_particles(&s);
    let l: Store = load_particles(&saved);
    let mut c = s;
    c.compact();
    assert_eq!(l.count, c.count);
    assert_eq!(l.x, c.x);
    assert_eq!(l.energy, c.energy);
    assert_eq!(l.genomes, c.genomes);
    assert_eq!(l.particle_ids, c.particle_ids);
    assert_eq!(l.particle_ids, vec![0, 2]);
    assert_eq!(l.bonds, c.bonds);
    assert_eq!(l.bonds, vec![vec![(1, 0.5)], vec![(0, 0.5)]]);
    assert_eq!(l.alive, c.alive);
    assert_eq!(l.next_id, 3);
}

#[test]
fn grouping_commutes_with_compaction() {
    let mut s = store_with(6);
    s.bonds[0].push((4, 1.0));
    s.bonds[4].push((0, 1.0));
    s.bonds[2].push((5, 1.0));
    s.bonds[5].push((2, 1.0));
    s.bonds[1].push((3, 1.0));
    s.bonds[3].push((1, 1.0));
    s.kill(1);
    s.assign_groups();
    let before: Vec<i32> = (0..s.count).filter(|&i| s.alive[i]).map(|i| s.group_ids[i]).collect();
    s.compact();
    s.assign_groups();
    assert_eq!(s.group_ids, before);
    assert_eq!(s.group_ids, vec![0, 1, 2, 0, 1]);
}
