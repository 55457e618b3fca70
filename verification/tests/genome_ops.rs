use genesis::genome::{crossover_reactions, cut_point, transpose};

#[test]
fn cut_point_reduces_modulo_length() {
    assert_eq!(cut_point(7, 0), 0);
    assert_eq!(cut_point(7, 3), 1);
    assert_eq!(cut_point(2, 3), 2);
}

#[test]
fn crossover_splices_parents() {
    let a = vec![1, 2, 3, 4];
    let b = vec![10, 20, 30];
    assert_eq!(crossover_reactions(&a, &b, 2, 1), vec![1, 2, 20, 30]);
    assert_eq!(crossover_reactions(&a, &b, 0, 2), vec![30]);
}

#[test]
fn crossover_falls_back_to_a_first_reaction() {
    let a = vec![String::from("r1"), String::from("r2")];
    let b: Vec<String> = vec![];
    assert_eq!(crossover_reactions(&a, &b, 0, 0), vec![String::from("r1")]);
    let empty: Vec<String> = vec![];
    assert_eq!(crossover_reactions(&empty, &a, 0, 2), vec![String::from("r1")]);
    assert!(crossover_reactions(&empty, &empty, 0, 0).is_empty());
}

#[test]
fn transpose_moves_one_reaction() {
    let mut v = vec![0, 1, 2, 3, 4];
    transpose(&mut v, 1, 3);
    assert_eq!(v, vec![0, 2, 3, 1, 4]);
    let mut w = vec![0, 1, 2, 3, 4];
    transpose(&mut w, 4, 0);
    assert_eq!(w, vec![4, 0, 1, 2, 3]);
    let mut z = vec![0, 1, 2];
    transpose(&mut z, 0, 2);
    assert_eq!(z, vec![1, 2, 0]);
    let mut same = vec![5, 6];
    transpose(&mut same, 1, 1);
    assert_eq!(same, vec![5, 6]);
}

#[test]
fn transpose_keeps_all_reactions() {
    let mut v = vec![3, 1, 4, 1, 5, 9, 2, 6];
    let mut before = v.clone();
    transpose(&mut v, 2, 6);
    let mut after = v.clone();
    before.sort();
    after.sort();
    assert_eq!(before, after);
}

#[test]
fn resize_genome_applies_edits_in_order() {
    let mut v = vec![10, 20, 30];
    genesis::genome::resize_genome(&mut v, Some(40), Some(5), Some(2));
    // 40 appended; position 5 mod 4 = 1 deleted; then a copy of position 2 mod 3.
    assert_eq!(v, vec![10, 30, 40, 40]);
    let mut one = vec![7];
    genesis::genome::resize_genome(&mut one, None, Some(0), None);
    assert_eq!(one, vec![7]);
    let mut empty: Vec<i32> = vec![];
    genesis::genome::resize_genome(&mut empty, None, Some(3), Some(3));
    assert!(empty.is_empty());
    let mut grow = vec![1, 2];
    genesis::genome::resize_genome(&mut grow, Some(3), None, Some(0));
    assert_eq!(grow, vec![1, 2, 3, 1]);
}

#[test]
fn deletion_and_duplication_guards() {
    assert!(!genesis::genome::deletion_allowed(1));
    assert!(genesis::genome::deletion_allowed(2));
    assert!(!genesis::genome::duplication_allowed(0));
    assert!(genesis::genome::duplication_allowed(1));
}
