use genesis::cell_role::CellRole;
use genesis::rng::SimRng;

#[test]
fn cell_role_index_round_trip() {
    for r in [CellRole::Undifferentiated, CellRole::Interior, CellRole::Border] {
        assert_eq!(CellRole::from_index(r.as_index()), r);
    }
    assert_eq!(CellRole::Undifferentiated.as_index(), 0);
    assert_eq!(CellRole::Interior.as_index(), 1);
    assert_eq!(CellRole::Border.as_index(), 2);
}

#[test]
fn cell_role_from_unknown_index_is_undifferentiated() {
    assert_eq!(CellRole::from_index(3), CellRole::Undifferentiated);
    assert_eq!(CellRole::from_index(usize::MAX), CellRole::Undifferentiated);
}

#[test]
fn cell_role_default_is_undifferentiated() {
    assert_eq!(CellRole::default(), CellRole::Undifferentiated);
}

#[test]
fn rng_xorshift_exact_values() {
    let mut r = SimRng::new(1);
    assert_eq!(r.next_u32(), 1082269761);
    assert_eq!(r.next_u32(), 201397313);
    assert_eq!(r.next_u32(), 1854285353);
}

#[test]
fn rng_zero_seed_behaves_as_seed_one() {
    let mut a = SimRng::new(0);
    let mut b = SimRng::new(1);
    for _ in 0..10 {
        assert_eq!(a.next_u32(), b.next_u32());
    }
}

#[test]
fn rng_default_seed() {
    let mut r = SimRng::default();
    assert_eq!(r.next_u32(), 4292058320);
}

#[test]
fn rng_is_deterministic_per_seed() {
    let mut a = SimRng::new(42);
    let mut b = SimRng::new(42);
    assert_eq!(a.next_u32(), 2505132714);
    assert_eq!(b.next_u32(), 2505132714);
    for _ in 0..100 {
        assert_eq!(a.next_u32(), b.next_u32());
    }
}
