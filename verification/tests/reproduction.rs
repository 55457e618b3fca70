use genesis::reproduction::select_parents;

#[test]
fn parents_are_alive_rich_and_old_enough() {
    let alive = vec![true, false, true, true, true];
    let rich = vec![true, true, false, true, true];
    let ages = vec![200, 200, 200, 50, 100];
    assert_eq!(select_parents(&alive, &rich, &ages, 100, 500), vec![0, 4]);
}

#[test]
fn parents_stop_at_the_particle_cap() {
    let alive = vec![true; 6];
    let rich = vec![true; 6];
    let ages = vec![1000; 6];
    assert_eq!(select_parents(&alive, &rich, &ages, 0, 8), vec![0, 1]);
    assert_eq!(select_parents(&alive, &rich, &ages, 0, 6), Vec::<usize>::new());
    assert_eq!(select_parents(&alive, &rich, &ages, 0, 5), Vec::<usize>::new());
    assert_eq!(select_parents(&alive, &rich, &ages, 0, 100), vec![0, 1, 2, 3, 4, 5]);
}
