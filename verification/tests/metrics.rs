use std::collections::HashSet;

use genesis::metrics::{
    assembly_index, estimate_species, genome_stats, innovation_count, lz_fragment_count, species_hash,
    unique_lineages,
};
use genesis::reaction::{reaction_hash, ReactionKey};

fn key(subs: &[(usize, u64)], prods: &[(usize, u64)], rate_q: u64) -> ReactionKey {
    ReactionKey { substrates: subs.to_vec(), products: prods.to_vec(), rate_q }
}

fn ra() -> ReactionKey {
    key(&[(0, 500)], &[(1, 250)], 100)
}
fn rb() -> ReactionKey {
    key(&[(2, 1000), (3, 500)], &[(4, 1500)], 250)
}
fn rc() -> ReactionKey {
    key(&[], &[], 0)
}
fn rd() -> ReactionKey {
    key(&[(1, 1)], &[], 7)
}

#[test]
fn reaction_hash_exact_values() {
    assert_eq!(reaction_hash(&ra()), 6910306126072997327);
    assert_eq!(reaction_hash(&rb()), 7957915629932061733);
    assert_eq!(reaction_hash(&rc()), 763824163880569834);
    assert_eq!(reaction_hash(&rd()), 13118443068173940653);
}

#[test]
fn reaction_hash_separates_substrates_from_products() {
    let left = key(&[(1, 2)], &[], 0);
    let right = key(&[], &[(1, 2)], 0);
    assert_ne!(reaction_hash(&left), reaction_hash(&right));
}

#[test]
fn lz_fragment_count_on_token_sequences() {
    assert_eq!(lz_fragment_count(&vec![]), Some(0));
    assert_eq!(lz_fragment_count(&vec![1, 2, 3]), Some(3));
    assert_eq!(lz_fragment_count(&vec![1, 2, 1, 2, 3]), Some(4));
    assert_eq!(lz_fragment_count(&vec![5, 5, 6]), Some(2));
    assert_eq!(lz_fragment_count(&vec![5, 5, 5]), Some(2));
    assert_eq!(lz_fragment_count(&vec![1, 2, 3, 1, 2, 4]), Some(5));
}

#[test]
fn lz_fragment_count_is_none_when_sequence_ends_in_known_run() {
    assert_eq!(lz_fragment_count(&vec![5, 5]), None);
    assert_eq!(lz_fragment_count(&vec![1, 2, 1]), None);
    assert_eq!(lz_fragment_count(&vec![5, 5, 5, 5]), None);
}

#[test]
fn assembly_index_counts_fragments_of_reaction_hashes() {
    assert_eq!(assembly_index(&vec![]), 0);
    assert_eq!(assembly_index(&vec![ra()]), 1);
    assert_eq!(assembly_index(&vec![ra(), rb(), rc()]), 3);
    assert_eq!(assembly_index(&vec![ra(), rb(), ra(), rb(), rc()]), 4);
    assert_eq!(assembly_index(&vec![ra(), ra(), rb()]), 2);
}

#[test]
fn assembly_index_is_at_most_genome_length() {
    let g = vec![ra(), rb(), ra(), rb(), rc(), ra(), rd()];
    let ai = assembly_index(&g);
    assert_eq!(ai, 5);
    assert!(ai <= g.len());
}

#[test]
fn innovation_count_counts_new_distinct_hashes() {
    let mut prev = HashSet::new();
    prev.insert(reaction_hash(&ra()));
    let genomes = vec![vec![ra(), rb()], vec![rb(), rc()]];
    let (n, updated) = innovation_count(&genomes, &prev);
    assert_eq!(n, 2);
    let expected: HashSet<u64> =
        [reaction_hash(&ra()), reaction_hash(&rb()), reaction_hash(&rc())].into_iter().collect();
    assert_eq!(updated, expected);
}

#[test]
fn innovation_count_of_nothing_new_is_zero() {
    let genomes = vec![vec![ra(), rb()]];
    let (first, seen) = innovation_count(&genomes, &HashSet::new());
    assert_eq!(first, 2);
    let (second, seen2) = innovation_count(&genomes, &seen);
    assert_eq!(second, 0);
    assert_eq!(seen2, seen);
}

#[test]
fn species_hash_mixes_first_three_reactions() {
    assert_eq!(species_hash(&vec![]), 0);
    assert_eq!(species_hash(&vec![ra()]), 6910306126072997327);
    assert_eq!(species_hash(&vec![ra(), rb()]), 9441289725274697093);
    assert_eq!(species_hash(&vec![ra(), rb(), rc()]), 11298054737412820539);
    assert_eq!(species_hash(&vec![ra(), rb(), rc(), rd()]), 11298054737412820539);
}

#[test]
fn estimate_species_counts_distinct_living_signatures() {
    let genomes = vec![
        vec![ra(), rb()],
        vec![ra(), rb(), rd()],
        vec![rc()],
        vec![rd()],
        vec![ra(), rb()],
    ];
    let alive = vec![true, true, true, false, true];
    // Signatures: g0 == g4; g1 differs (third reaction); g2 distinct; g3 dead.
    assert_eq!(estimate_species(&genomes, &alive), 3);
    assert_eq!(estimate_species(&genomes, &vec![false; 5]), 0);
}

#[test]
fn unique_lineages_counts_distinct_parent_ids() {
    assert_eq!(unique_lineages(&vec![]), 0);
    assert_eq!(unique_lineages(&vec![-1, 0, 0, 3, -1]), 3);
    assert_eq!(unique_lineages(&vec![7, 7, 7]), 1);
}

#[test]
fn genome_stats_over_living_genomes() {
    let genomes = vec![
        vec![ra(), rb(), ra(), rb(), rc()],
        vec![rd()],
        vec![ra(), rb(), rc(), rd(), ra(), rd(), rc(), rb()],
        vec![],
    ];
    let alive = vec![true, true, false, true];
    // Assembly indices 4, 1 and 0; lengths 5, 1 and 0.
    assert_eq!(genome_stats(&genomes, &alive), (5, 4, 6, 5));
    assert_eq!(genome_stats(&genomes, &vec![false; 4]), (0, 0, 0, 0));
}
