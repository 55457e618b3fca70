use genesis::explore::IlluminationMap;

#[test]
fn new_map_is_empty() {
    let m: IlluminationMap<(u32, f32)> = IlluminationMap::new(4);
    assert_eq!(m.cells.len(), 16);
    assert_eq!(m.coverage(), 0);
}

#[test]
fn place_fills_cells_row_by_row() {
    let mut m: IlluminationMap<&str> = IlluminationMap::new(3);
    assert_eq!(m.cell_index(2, 1), 5);
    m.place(2, 1, "a");
    assert_eq!(m.cells[5], Some("a"));
    assert_eq!(m.coverage(), 1);
    m.place(2, 1, "b");
    assert_eq!(m.cells[5], Some("b"));
    assert_eq!(m.coverage(), 1);
    m.place(0, 0, "c");
    assert_eq!(m.coverage(), 2);
}
