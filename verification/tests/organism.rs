use genesis::organism::{
    child_bond_pairs, child_generation, child_size, contact_key, dominant_type, emit_channel,
    immune_signature, meta_cognition_depth,
    inherited_types, innovation_base, meme_kind, merge_memories, merge_roles, ready_to_merge,
    remember_meme, MemeKind, MEMORY_CAP,
};

#[test]
fn immune_signature_exact_values() {
    assert_eq!(immune_signature(42, &vec![3, 0, 5, 2, 8, 1]), 43628);
    assert_eq!(immune_signature(0xFFFF_FFFF, &vec![1_000_000_000; 6]), 11375);
    assert_eq!(immune_signature(7, &vec![]), 7);
    assert_eq!(immune_signature(0x1_0005, &vec![]), 5);
}

#[test]
fn immune_signature_fits_sixteen_bits() {
    for seed in [0u32, 1, 65535, 65536, u32::MAX] {
        assert!(immune_signature(seed, &vec![u32::MAX; 6]) < 0x10000);
    }
}

#[test]
fn meme_kinds_by_block() {
    assert_eq!(meme_kind(0), None);
    assert_eq!(meme_kind(1), Some(MemeKind::Foraging));
    assert_eq!(meme_kind(4), Some(MemeKind::Foraging));
    assert_eq!(meme_kind(5), Some(MemeKind::Social));
    assert_eq!(meme_kind(12), Some(MemeKind::Defensive));
    assert_eq!(meme_kind(13), Some(MemeKind::ToolBuilding));
    assert_eq!(meme_kind(16), Some(MemeKind::ToolBuilding));
    assert_eq!(meme_kind(17), None);
}

#[test]
fn innovation_base_priorities() {
    assert_eq!(innovation_base(3, true, true), 9);
    assert_eq!(innovation_base(2, true, true), 5);
    assert_eq!(innovation_base(0, false, true), 13);
    assert_eq!(innovation_base(0, false, false), 1);
}

#[test]
fn remember_meme_forgets_oldest_when_full() {
    let mut mem: Vec<u16> = Vec::new();
    for m in 1..=8u16 {
        remember_meme(&mut mem, m);
    }
    assert_eq!(mem.len(), MEMORY_CAP);
    remember_meme(&mut mem, 9);
    assert_eq!(mem, vec![2, 3, 4, 5, 6, 7, 8, 9]);
}

#[test]
fn merge_memories_skips_known_memes() {
    let mut keeper = vec![1, 5];
    merge_memories(&mut keeper, &vec![5, 9, 1, 13]);
    assert_eq!(keeper, vec![1, 5, 9, 13]);
}

#[test]
fn merge_memories_respects_capacity() {
    let mut keeper = vec![1, 2, 3, 4, 5, 6, 7];
    merge_memories(&mut keeper, &vec![8, 9, 10]);
    assert_eq!(keeper, vec![3, 4, 5, 6, 7, 8, 9, 10]);
    let mut none = vec![4];
    merge_memories(&mut none, &vec![]);
    assert_eq!(none, vec![4]);
}

#[test]
fn contact_key_is_symmetric() {
    assert_eq!(contact_key(7, 3), (3, 7));
    assert_eq!(contact_key(3, 7), (3, 7));
    assert_eq!(contact_key(5, 5), (5, 5));
}

#[test]
fn merge_rule() {
    assert!(ready_to_merge(200, 20, 30));
    assert!(!ready_to_merge(199, 20, 30));
    assert!(!ready_to_merge(500, 26, 25));
    assert_eq!(merge_roles(1, 10, 2, 12), (2, 1));
    assert_eq!(merge_roles(1, 12, 2, 10), (1, 2));
    assert_eq!(merge_roles(1, 10, 2, 10), (1, 2));
}

#[test]
fn child_size_is_quarter_clamped() {
    assert_eq!(child_size(4, 4), 2);
    assert_eq!(child_size(10, 10), 5);
    assert_eq!(child_size(20, 30), 8);
    assert_eq!(child_size(0, 0), 2);
}

#[test]
fn child_generation_is_one_past_later_parent() {
    assert_eq!(child_generation(3, 7), 8);
    assert_eq!(child_generation(7, 3), 8);
    assert_eq!(child_generation(0, 0), 1);
}

#[test]
fn inherited_types_alternate_parents() {
    let a = vec!['a', 'b', 'c'];
    let b = vec!['x', 'y'];
    assert_eq!(inherited_types(&a, &b, 6), vec!['a', 'y', 'c', 'y', 'b', 'y']);
    assert_eq!(inherited_types(&a, &b, 0), Vec::<char>::new());
}

#[test]
fn child_bonds_chain_and_ring() {
    assert_eq!(child_bond_pairs(2), vec![(0, 1)]);
    assert_eq!(child_bond_pairs(3), vec![(0, 1), (1, 2)]);
    assert_eq!(child_bond_pairs(4), vec![(0, 1), (1, 2), (2, 3), (0, 3)]);
    let ring = child_bond_pairs(6);
    for i in 0..6 {
        let degree = ring.iter().filter(|p| p.0 == i || p.1 == i).count();
        assert_eq!(degree, 2);
    }
}

#[test]
fn meta_cognition_depth_from_data_chains() {
    let chain3: Vec<Vec<(usize, f32)>> = vec![vec![(1, 1.0)], vec![(0, 1.0), (2, 1.0)], vec![(1, 1.0)]];
    assert_eq!(meta_cognition_depth(7, &chain3), Some(1));
    assert_eq!(meta_cognition_depth(6, &chain3), None);
    let chain6: Vec<Vec<(usize, f32)>> =
        (0..6).map(|k| if k + 1 < 6 { vec![(k + 1, 1.0)] } else { vec![] }).collect();
    assert_eq!(meta_cognition_depth(10, &chain6), Some(2));
    let pairs: Vec<Vec<(usize, f32)>> = vec![vec![(1, 1.0)], vec![], vec![(3, 1.0)], vec![]];
    assert_eq!(meta_cognition_depth(10, &pairs), None);
    let two: Vec<Vec<(usize, f32)>> = vec![vec![(1, 1.0)], vec![]];
    assert_eq!(meta_cognition_depth(10, &two), None);
    // Bonds to particles that are not Data particles are ignored.
    let outside: Vec<Vec<(usize, f32)>> = vec![vec![(9, 1.0)], vec![(9, 1.0)], vec![(9, 1.0)]];
    assert_eq!(meta_cognition_depth(10, &outside), None);
}

#[test]
fn dominant_type_prefers_last_of_equal_counts() {
    assert_eq!(dominant_type(&vec![]), 0);
    assert_eq!(dominant_type(&vec![3, 1, 2]), 0);
    assert_eq!(dominant_type(&vec![3, 1, 3, 0]), 2);
    assert_eq!(dominant_type(&vec![0, 0, 0, 0, 0, 0]), 5);
}

#[test]
fn emit_channel_by_context() {
    assert_eq!(emit_channel(true, 9, true, &vec![1, 2]), 1);
    assert_eq!(emit_channel(false, 4, true, &vec![1, 2]), 2);
    assert_eq!(emit_channel(false, 3, true, &vec![1, 2]), 3);
    assert_eq!(emit_channel(false, 0, false, &vec![1, 5, 2]), 2);
    assert_eq!(emit_channel(false, 0, false, &vec![0, 0, 0, 0, 0, 0, 0, 9]), 1);
    assert_eq!(emit_channel(false, 0, false, &vec![]), 1);
}

#[test]
fn colonies_group_linked_organisms() {
    let links: Vec<Vec<(usize, ())>> =
        vec![vec![(1, ())], vec![], vec![], vec![(4, ())], vec![(5, ())], vec![]];
    let (c, k) = genesis::groups::assign_colonies(&links);
    assert_eq!(c, vec![0, 0, -1, 1, 1, 1]);
    assert_eq!(k, 2);
    let none: Vec<Vec<(usize, ())>> = vec![vec![], vec![]];
    assert_eq!(genesis::groups::assign_colonies(&none), (vec![-1, -1], 0));
}
