use genesis::culture::{culture_round, innovated_meme, innovation_candidates, transmission_candidates};
use genesis::lineage::{detect_organisms, updated_registry, FormedOrganism};
use genesis::mating::mating_pairs;
use genesis::organism::meta_cognition_round;
use genesis::roles::{assign_roles, is_multicellular, OrganRole, ParticleType};
use genesis::schedule::{phases_due, tick_phases, Phase};
use genesis::symbiogenesis::{drop_contacts_of, resolve_merges, symbiogenesis_step, transfer_members};
use genesis::symbols::{active_channels, emit_symbols};

#[test]
fn roles_follow_types_and_alpha_neighbours() {
    let types = vec![ParticleType::Alpha, ParticleType::Catalyst, ParticleType::Catalyst, ParticleType::Motor, ParticleType::Beta];
    let bonds: Vec<Vec<usize>> = vec![vec![1, 2, 3], vec![0], vec![0], vec![0], vec![]];
    let roles = assign_roles(&types, &bonds);
    assert_eq!(
        roles,
        vec![OrganRole::Sensor, OrganRole::Sensor, OrganRole::Sensor, OrganRole::MotorCell, OrganRole::Digester]
    );
    assert!(!is_multicellular(&roles));
}

#[test]
fn alpha_without_neighbours_takes_last_most_common_type() {
    // All neighbour counts are equal (zero): the last type, Motor, wins.
    let types = vec![ParticleType::Alpha, ParticleType::Data, ParticleType::Data, ParticleType::Membrane, ParticleType::Membrane];
    let bonds: Vec<Vec<usize>> = vec![vec![], vec![], vec![], vec![], vec![]];
    let roles = assign_roles(&types, &bonds);
    assert_eq!(roles[0], OrganRole::MotorCell);
    assert!(is_multicellular(&roles));
}

#[test]
fn alpha_tie_goes_to_later_type_and_unknown_partners_are_ignored() {
    let types = vec![ParticleType::Alpha, ParticleType::Beta, ParticleType::Membrane, ParticleType::Alpha, ParticleType::Alpha];
    let bonds: Vec<Vec<usize>> = vec![vec![1, 2, 99], vec![], vec![], vec![], vec![]];
    let roles = assign_roles(&types, &bonds);
    assert_eq!(roles[0], OrganRole::Defense);
}

#[test]
fn small_organisms_get_no_roles() {
    let types = vec![ParticleType::Catalyst, ParticleType::Motor, ParticleType::Beta, ParticleType::Data];
    let bonds: Vec<Vec<usize>> = vec![vec![], vec![], vec![], vec![]];
    let roles = assign_roles(&types, &bonds);
    assert!(roles.iter().all(|r| *r == OrganRole::Unspecialised));
    assert!(!is_multicellular(&roles));
}

#[test]
fn tick_phase_cadences() {
    let p = tick_phases(40);
    assert!(p.signals && p.organisms && p.colonies && p.symbiogenesis && p.tools && p.construction);
    assert!(!p.immune && !p.cleanup);
    let p = tick_phases(150);
    assert!(p.cleanup && p.immune && p.symbiogenesis && p.tools && p.signals);
    assert!(!p.organisms && !p.colonies);
    let p = tick_phases(7);
    assert!(!p.signals && !p.organisms && !p.tools && !p.cleanup && !p.culture);
    let p = tick_phases(0);
    assert!(p.signals && p.organisms && p.cleanup && p.meta_cognition && p.niches);
}

#[test]
fn contacts_accumulate_and_merge_after_enough_ticks() {
    let contacts = vec![((1u32, 2u32), 190u32), ((3, 4), 50)];
    let touching = vec![(2u32, 1u32, 10usize, 5usize)];
    let (fresh, merges) = symbiogenesis_step(&contacts, &touching);
    assert_eq!(fresh, vec![((1, 2), 200)]);
    assert_eq!(merges, vec![(2, 1)]);
}

#[test]
fn new_contacts_start_at_one_step_and_large_pairs_do_not_merge() {
    let contacts = vec![((5u32, 9u32), 300u32)];
    let touching = vec![(9u32, 5u32, 30usize, 30usize), (7, 8, 1, 1)];
    let (fresh, merges) = symbiogenesis_step(&contacts, &touching);
    assert_eq!(fresh, vec![((5, 9), 310), ((7, 8), 10)]);
    assert!(merges.is_empty());
}

#[test]
fn merges_resolve_in_order() {
    let merges = vec![(1u32, 2u32), (3, 2), (2, 4), (5, 1)];
    let (done, gone) = resolve_merges(&merges);
    assert_eq!(done, vec![(1, 2), (5, 1)]);
    assert_eq!(gone, vec![2, 4, 1]);
}

#[test]
fn absorbed_organism_leaves_contacts_and_members_move() {
    let mut contacts = vec![((1u32, 2u32), 10u32), ((2, 3), 20), ((3, 4), 30)];
    drop_contacts_of(&mut contacts, 2);
    assert_eq!(contacts, vec![((3, 4), 30)]);
    let mut org_ids = vec![2, -1, 5, 2];
    transfer_members(&mut org_ids, 5, 2);
    assert_eq!(org_ids, vec![5, -1, 5, 5]);
}

#[test]
fn mating_takes_first_compatible_partner() {
    let sizes = vec![4usize, 4, 20, 5];
    let needs = vec![false; 4];
    let near = vec![vec![true; 4]; 4];
    let (pairs, draws) = mating_pairs(&sizes, &needs, &near, &vec![], 10, 100);
    assert_eq!(pairs, vec![(0, 1)]);
    assert_eq!(draws, 0);
}

#[test]
fn mating_draws_in_order_and_skips_failed_draws() {
    let sizes = vec![4usize, 4, 20, 5];
    let needs = vec![true, false, false, false];
    let near = vec![vec![true; 4]; 4];
    let (pairs, draws) = mating_pairs(&sizes, &needs, &near, &vec![false, true], 10, 100);
    assert_eq!(pairs, vec![(0, 3)]);
    assert_eq!(draws, 2);
}

#[test]
fn mating_respects_ratio_range_and_cap() {
    let sizes = vec![4usize, 10, 11];
    let needs = vec![false; 3];
    let mut near = vec![vec![true; 3]; 3];
    near[1][2] = false;
    // 10 is 2.5 times 4: compatible; 11 is not.
    let (pairs, _) = mating_pairs(&sizes, &needs, &near, &vec![], 0, 100);
    assert_eq!(pairs, vec![(0, 1)]);
    let (pairs, draws) = mating_pairs(&sizes, &needs, &near, &vec![], 80, 100);
    assert!(pairs.is_empty());
    assert_eq!(draws, 0);
}

#[test]
fn detection_forms_new_organisms_from_bonded_groups() {
    let alive = vec![true; 5];
    let deposit = vec![false, false, false, false, true];
    let bonds: Vec<Vec<(usize, ())>> =
        vec![vec![(1, ())], vec![(0, ()), (2, ())], vec![(1, ())], vec![(4, ())], vec![(3, ())]];
    let prev = vec![-1, -1, -1, -1, 6];
    let r = detect_organisms(&alive, &deposit, &bonds, &prev, &vec![], 10);
    assert_eq!(r.components, vec![0, 0, 0, 1, -1]);
    assert_eq!(r.org_ids, vec![10, 10, 10, -1, 6]);
    assert_eq!(r.formed, vec![FormedOrganism { id: 10, generation: 0, parent: -1, size: 3, split: false }]);
    assert_eq!(r.kept, vec![10]);
    assert_eq!(r.next_id, 11);
}

#[test]
fn detection_continues_and_splits_organisms() {
    let alive = vec![true; 4];
    let deposit = vec![false; 4];
    let bonds: Vec<Vec<(usize, ())>> = vec![vec![(1, ())], vec![(0, ())], vec![(3, ())], vec![(2, ())]];
    let prev = vec![7, 7, 7, 7];
    let r = detect_organisms(&alive, &deposit, &bonds, &prev, &vec![(7, 3)], 20);
    assert_eq!(r.org_ids, vec![7, 7, 20, 20]);
    assert_eq!(r.formed, vec![FormedOrganism { id: 20, generation: 4, parent: 7, size: 2, split: true }]);
    assert_eq!(r.kept, vec![7, 20]);
    assert_eq!(r.next_id, 21);
}

#[test]
fn detection_reuses_the_majority_organism() {
    let alive = vec![true; 3];
    let deposit = vec![false; 3];
    let bonds: Vec<Vec<(usize, ())>> = vec![vec![(1, ())], vec![(0, ()), (2, ())], vec![(1, ())]];
    let prev = vec![4, 9, 9];
    let r = detect_organisms(&alive, &deposit, &bonds, &prev, &vec![(4, 1), (9, 2)], 12);
    assert_eq!(r.org_ids, vec![9, 9, 9]);
    assert!(r.formed.is_empty());
    assert_eq!(r.kept, vec![9]);
}

#[test]
fn sensors_emit_on_context_channels() {
    let types = vec![ParticleType::Catalyst, ParticleType::Catalyst, ParticleType::Data, ParticleType::Alpha];
    let high = vec![true, false, true, true];
    let vent = vec![false; 4];
    let e = emit_symbols(&types, &high, &vent, 5, false);
    assert_eq!(e, vec![Some(2), None, None, None]);
    let e = emit_symbols(&types, &high, &vent, 0, false);
    // Dominant type is Catalyst (index 2): channel 2 % 7 + 1 = 3.
    assert_eq!(e, vec![Some(3), None, None, None]);
    let e = emit_symbols(&types, &high, &vec![true, false, false, false], 9, true);
    assert_eq!(e[0], Some(1));
    let a = active_channels(&e);
    assert_eq!(a, vec![false, true, false, false, false, false, false, false]);
}

#[test]
fn small_organisms_emit_nothing() {
    let e = emit_symbols(&vec![ParticleType::Catalyst, ParticleType::Catalyst, ParticleType::Catalyst], &vec![true; 3], &vec![true; 3], 0, false);
    assert_eq!(e, vec![None, None, None]);
    assert_eq!(active_channels(&e), vec![false; 8]);
}

#[test]
fn culture_candidates_and_round() {
    let sizes = vec![6usize, 6, 3, 10];
    let memes = vec![0u16, 4, 0, 0];
    assert_eq!(innovation_candidates(&sizes, &memes), vec![0, 3]);
    let near = vec![vec![true; 4]; 4];
    assert_eq!(transmission_candidates(&sizes, &memes, &near), vec![(1, 0), (1, 3)]);
    let mut memories: Vec<Vec<u16>> = vec![vec![], vec![4], vec![], vec![1, 2, 3, 5, 6, 7, 8, 9]];
    let (after, events) = culture_round(&memes, &vec![(0, 9)], &vec![(1, 0), (1, 3)], &mut memories);
    assert_eq!(after, vec![4, 4, 0, 4]);
    assert_eq!(events, 3);
    assert_eq!(memories[0], vec![9, 4]);
    assert_eq!(memories[3], vec![2, 3, 5, 6, 7, 8, 9, 4]);
    assert_eq!(memories[1], vec![4]);
}

#[test]
fn innovated_memes_fall_in_their_blocks() {
    assert_eq!(innovated_meme(3, false, false, 2), 11);
    assert_eq!(innovated_meme(0, true, true, 0), 5);
    assert_eq!(innovated_meme(0, false, true, 3), 16);
    assert_eq!(innovated_meme(0, false, false, 0), 1);
}

#[test]
fn meta_cognition_round_counts_and_first_achievers() {
    let counts = vec![7usize, 7, 3, 8];
    let chain: Vec<Vec<(usize, ())>> = vec![vec![(1, ())], vec![(0, ()), (2, ())], vec![(1, ())]];
    let loose: Vec<Vec<(usize, ())>> = vec![vec![], vec![], vec![]];
    let bonds = vec![chain.clone(), loose, chain.clone(), chain];
    let had = vec![false, false, false, true];
    let (depths, n, first) = meta_cognition_round(&counts, &bonds, &had);
    assert_eq!(depths, vec![Some(1), None, None, Some(1)]);
    assert_eq!(n, 2);
    assert_eq!(first, vec![0]);
}

#[test]
fn phases_run_in_order_at_their_cadence() {
    assert_eq!(
        phases_due(7),
        vec![Phase::Grid, Phase::Forces, Phase::Integration, Phase::Bonds, Phase::Metabolism, Phase::Reproduction]
    );
    assert_eq!(
        phases_due(40),
        vec![
            Phase::Grid,
            Phase::Forces,
            Phase::Integration,
            Phase::Bonds,
            Phase::Signals,
            Phase::Metabolism,
            Phase::Organisms,
            Phase::Advanced,
            Phase::Reproduction,
            Phase::Colonies,
            Phase::Fields,
            Phase::Symbiogenesis,
            Phase::SexualReproduction,
            Phase::Symbols,
            Phase::Tools,
            Phase::Construction,
            Phase::Culture,
            Phase::MetaCognition,
        ]
    );
    assert_eq!(phases_due(600).len(), 21);
}

#[test]
fn registry_drops_dissolved_and_adds_formed_organisms() {
    let alive = vec![true; 4];
    let deposit = vec![false; 4];
    let bonds: Vec<Vec<(usize, ())>> = vec![vec![(1, ())], vec![(0, ())], vec![(3, ())], vec![(2, ())]];
    let prev = vec![7, 7, 7, 7];
    let registry = vec![(3u32, 1u32), (7, 3)];
    let r = detect_organisms(&alive, &deposit, &bonds, &prev, &registry, 20);
    assert_eq!(updated_registry(&registry, &r), vec![(7, 3), (20, 4)]);
}
