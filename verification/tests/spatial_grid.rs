use genesis::spatial_grid::SpatialGrid;

/// The grid works on integer cells; positions map to cells by flooring
/// their quotient by the cell size, as the simulation does.
fn cell(v: f32, cell_size: f32) -> i32 {
    (v / cell_size).floor() as i32
}

fn insert_at(grid: &mut SpatialGrid, idx: usize, x: f32, y: f32, cs: f32) {
    grid.insert(idx, cell(x, cs), cell(y, cs));
}

fn query_at(grid: &SpatialGrid, x: f32, y: f32, cs: f32) -> Vec<usize> {
    grid.query(cell(x, cs), cell(y, cs))
}

#[test]
fn insert_and_query_finds_nearby() {
    let cs = 10.0;
    let mut grid = SpatialGrid::new();
    insert_at(&mut grid, 0, 5.0, 5.0, cs);
    insert_at(&mut grid, 1, 8.0, 8.0, cs);
    insert_at(&mut grid, 2, 500.0, 500.0, cs);

    let neighbors = query_at(&grid, 5.0, 5.0, cs);
    assert!(neighbors.contains(&0));
    assert!(neighbors.contains(&1));
    assert!(!neighbors.contains(&2));
}

#[test]
fn clear_removes_all() {
    let cs = 10.0;
    let mut grid = SpatialGrid::new();
    insert_at(&mut grid, 0, 0.0, 0.0, cs);
    grid.clear();
    let neighbors = query_at(&grid, 0.0, 0.0, cs);
    assert!(neighbors.is_empty());
}

#[test]
fn query_into_reuses_buffer() {
    let cs = 10.0;
    let mut grid = SpatialGrid::new();
    insert_at(&mut grid, 0, 10.0, 10.0, cs);
    insert_at(&mut grid, 1, 15.0, 15.0, cs);

    let mut buf = Vec::new();
    grid.query_into(cell(12.0, cs), cell(12.0, cs), &mut buf);
    assert!(buf.contains(&0));
    assert!(buf.contains(&1));
}

#[test]
fn query_into_replaces_previous_contents() {
    let mut grid = SpatialGrid::new();
    grid.insert(7, 3, 3);
    let mut buf = vec![99, 98, 97];
    grid.query_into(3, 3, &mut buf);
    assert_eq!(buf, vec![7]);
}

#[test]
fn pack_key_uses_ten_bits_per_axis() {
    assert_eq!(SpatialGrid::pack_key(0, 0), 0);
    assert_eq!(SpatialGrid::pack_key(1, 2), (1 << 10) | 2);
    assert_eq!(SpatialGrid::pack_key(1023, 1023), 0xFFFFF);
    // Negative coordinates and coordinates past 1023 wrap onto the torus.
    assert_eq!(SpatialGrid::pack_key(-1, 0), 1023 << 10);
    assert_eq!(SpatialGrid::pack_key(1024, 1025), 1);
}

#[test]
fn unpack_key_inverts_pack_key() {
    assert_eq!(SpatialGrid::unpack_key(SpatialGrid::pack_key(17, 900)), (17, 900));
    assert_eq!(SpatialGrid::unpack_key(SpatialGrid::pack_key(-1, -2)), (1023, 1022));
}

#[test]
fn query_wraps_around_the_torus() {
    let mut grid = SpatialGrid::new();
    grid.insert(4, 1023, 0);
    grid.insert(5, 0, 1023);
    let found = grid.query(0, 0);
    assert!(found.contains(&4));
    assert!(found.contains(&5));
}

#[test]
fn query_lists_buckets_in_block_order() {
    // x offset outer, y offset inner; within a cell, insertion order.
    let mut grid = SpatialGrid::new();
    grid.insert(10, 5, 5);
    grid.insert(11, 4, 4);
    grid.insert(12, 5, 5);
    grid.insert(13, 6, 6);
    grid.insert(14, 4, 6);
    assert_eq!(grid.query(5, 5), vec![11, 14, 10, 12, 13]);
}

#[test]
fn far_insert_does_not_change_query() {
    let mut grid = SpatialGrid::new();
    grid.insert(1, 10, 10);
    let before = grid.query(10, 10);
    grid.insert(2, 12, 10);
    grid.insert(3, 10, 200);
    assert_eq!(grid.query(10, 10), before);
}

#[test]
fn query_returns_each_insertion_once() {
    let mut grid = SpatialGrid::new();
    grid.insert(3, 10, 10);
    grid.insert(3, 11, 9);
    grid.insert(4, 13, 10);
    grid.insert(5, 9, 11);
    let mut found = grid.query(10, 10);
    found.sort();
    assert_eq!(found, vec![3, 3, 5]);
}
