//! Spatial hash grid for neighbour queries in 2D particle simulations.
//!
//! A cell is named by a pair of integer coordinates; the grid packs each into
//! 10 bits, so the cells form a 1024 × 1024 torus and a 20-bit key names each.
//! Insertion is O(1) and a query returns what the 3 × 3 block of cells around
//! a cell holds.
use vstd::prelude::*;
use std::collections::HashMap;

verus! {

broadcast use vstd::std_specs::hash::group_hash_axioms;

/// Number of cells along each axis of the key space.
pub open spec fn axis_cells() -> int {
    1024
}

/// A cell coordinate reduced onto the torus of 1024 cells.
pub open spec fn wrap_cell(a: int) -> int {
    a % axis_cells()
}

/// The key of the cell at `(cx, cy)`: 10 bits of each coordinate, x above y.
pub open spec fn cell_key(cx: int, cy: int) -> u32 {
    (wrap_cell(cx) * axis_cells() + wrap_cell(cy)) as u32
}

/// What a grid holds in the cell with key `k` (nothing where it holds no bucket).
pub open spec fn bucket(m: Map<u32, Seq<usize>>, k: u32) -> Seq<usize> {
    if m.contains_key(k) {
        m[k]
    } else {
        Seq::empty()
    }
}

/// What a query around `(cx, cy)` returns: the buckets of the 3 × 3 block of
/// cells around it, x offset outer and y offset inner, each from -1 to 1.
pub open spec fn neighborhood(m: Map<u32, Seq<usize>>, cx: int, cy: int) -> Seq<usize> {
    let x = wrap_cell(cx);
    let y = wrap_cell(cy);
    bucket(m, cell_key(x - 1, y - 1)) + bucket(m, cell_key(x - 1, y)) + bucket(
        m,
        cell_key(x - 1, y + 1),
    ) + bucket(m, cell_key(x, y - 1)) + bucket(m, cell_key(x, y)) + bucket(
        m,
        cell_key(x, y + 1),
    ) + bucket(m, cell_key(x + 1, y - 1)) + bucket(m, cell_key(x + 1, y)) + bucket(
        m,
        cell_key(x + 1, y + 1),
    )
}

/// Two cells are neighbours when each coordinate differs by at most one on the torus.
pub open spec fn is_neighbor_cell(ax: int, ay: int, qx: int, qy: int) -> bool {
    let dx = wrap_cell(ax - qx);
    let dy = wrap_cell(ay - qy);
    (dx == 0 || dx == 1 || dx == axis_cells() - 1) && (dy == 0 || dy == 1 || dy == axis_cells()
        - 1)
}

/// Two cells share a key exactly when they coincide on the torus.
proof fn lemma_key_eq(ax: int, ay: int, bx: int, by: int)
    ensures
        cell_key(ax, ay) == cell_key(bx, by) <==> (wrap_cell(ax) == wrap_cell(bx) && wrap_cell(
            ay,
        ) == wrap_cell(by)),
{
    lemma_wrap_idempotent(ax);
    lemma_wrap_idempotent(ay);
    lemma_wrap_idempotent(bx);
    lemma_wrap_idempotent(by);
}

/// A coordinate equals an offset from `q` on the torus exactly when its
/// distance from `q` equals that offset on the torus.
proof fn lemma_wrap_shift(a: int, q: int, d: int)
    ensures
        wrap_cell(a) == wrap_cell(wrap_cell(q) + d) <==> wrap_cell(a - q) == wrap_cell(d),
{
    vstd::arithmetic::div_mod::lemma_add_mod_noop(q, d, 1024);
    vstd::arithmetic::div_mod::lemma_mod_twice(q, 1024);
    vstd::arithmetic::div_mod::lemma_add_mod_noop(a - q, q, 1024);
    vstd::arithmetic::div_mod::lemma_add_mod_noop(d, q, 1024);
    vstd::arithmetic::div_mod::lemma_sub_mod_noop(a, q, 1024);
    vstd::arithmetic::div_mod::lemma_sub_mod_noop(q + d, q, 1024);
    assert(q + d - q == d);
    assert(a - q + q == a);
}

/// Whatever is filed in a cell next to `(qx, qy)` (the cell itself included)
/// is returned by a query around `(qx, qy)`.
pub proof fn lemma_query_finds_neighbor(
    m: Map<u32, Seq<usize>>,
    idx: usize,
    ax: int,
    ay: int,
    qx: int,
    qy: int,
)
    requires
        bucket(m, cell_key(ax, ay)).contains(idx),
        is_neighbor_cell(ax, ay, qx, qy),
    ensures
        neighborhood(m, qx, qy).contains(idx),
{
    let x = wrap_cell(qx);
    let y = wrap_cell(qy);
    let dx = wrap_cell(ax - qx);
    let dy = wrap_cell(ay - qy);
    let ox: int = if dx == 0 {
        0
    } else if dx == 1 {
        1
    } else {
        -1
    };
    let oy: int = if dy == 0 {
        0
    } else if dy == 1 {
        1
    } else {
        -1
    };
    assert(wrap_cell(ox) == dx);
    assert(wrap_cell(oy) == dy);
    lemma_wrap_shift(ax, qx, ox);
    lemma_wrap_shift(ay, qy, oy);
    lemma_key_eq(ax, ay, x + ox, y + oy);
    let k = cell_key(ax, ay);
    let b = bucket(m, k);
    let j = choose|j: int| 0 <= j < b.len() && b[j] == idx;
    let n = neighborhood(m, qx, qy);
    let s0 = bucket(m, cell_key(x - 1, y - 1));
    let s1 = bucket(m, cell_key(x - 1, y));
    let s2 = bucket(m, cell_key(x - 1, y + 1));
    let s3 = bucket(m, cell_key(x, y - 1));
    let s4 = bucket(m, cell_key(x, y));
    let s5 = bucket(m, cell_key(x, y + 1));
    let s6 = bucket(m, cell_key(x + 1, y - 1));
    let s7 = bucket(m, cell_key(x + 1, y));
    let s8 = bucket(m, cell_key(x + 1, y + 1));
    let pos: int = if ox == -1 && oy == -1 {
        j
    } else if ox == -1 && oy == 0 {
        s0.len() + j
    } else if ox == -1 && oy == 1 {
        s0.len() + s1.len() + j
    } else if ox == 0 && oy == -1 {
        s0.len() + s1.len() + s2.len() + j
    } else if ox == 0 && oy == 0 {
        s0.len() + s1.len() + s2.len() + s3.len() + j
    } else if ox == 0 && oy == 1 {
        s0.len() + s1.len() + s2.len() + s3.len() + s4.len() + j
    } else if ox == 1 && oy == -1 {
        s0.len() + s1.len() + s2.len() + s3.len() + s4.len() + s5.len() + j
    } else if ox == 1 && oy == 0 {
        s0.len() + s1.len() + s2.len() + s3.len() + s4.len() + s5.len() + s6.len() + j
    } else {
        s0.len() + s1.len() + s2.len() + s3.len() + s4.len() + s5.len() + s6.len() + s7.len()
            + j
    };
    assert(n[pos] == idx);
}

/// Filing a particle in a cell that is not next to `(qx, qy)` leaves the
/// result of a query around `(qx, qy)` unchanged.
pub proof fn lemma_query_ignores_far_cell(
    m: Map<u32, Seq<usize>>,
    idx: usize,
    ax: int,
    ay: int,
    qx: int,
    qy: int,
)
    requires
        !is_neighbor_cell(ax, ay, qx, qy),
    ensures
        neighborhood(
            m.insert(cell_key(ax, ay), bucket(m, cell_key(ax, ay)).push(idx)),
            qx,
            qy,
        ) == neighborhood(m, qx, qy),
{
    let x = wrap_cell(qx);
    let y = wrap_cell(qy);
    let k = cell_key(ax, ay);
    let m2 = m.insert(k, bucket(m, k).push(idx));
    assert forall|ox: int, oy: int|
        -1 <= ox <= 1 && -1 <= oy <= 1 implies #[trigger] cell_key(x + ox, y + oy) != k by {
        lemma_key_eq(ax, ay, x + ox, y + oy);
        lemma_wrap_shift(ax, qx, ox);
        lemma_wrap_shift(ay, qy, oy);
        assert(wrap_cell(-1) == 1023);
    }
    assert(cell_key(x - 1, y - 1) == cell_key(x + (-1), y + (-1)));
    assert(cell_key(x - 1, y) == cell_key(x + (-1), y + 0));
    assert(cell_key(x - 1, y + 1) == cell_key(x + (-1), y + 1));
    assert(cell_key(x, y - 1) == cell_key(x + 0, y + (-1)));
    assert(cell_key(x, y) == cell_key(x + 0, y + 0));
    assert(cell_key(x, y + 1) == cell_key(x + 0, y + 1));
    assert(cell_key(x + 1, y - 1) == cell_key(x + 1, y + (-1)));
    assert(cell_key(x + 1, y) == cell_key(x + 1, y + 0));
    assert(neighborhood(m2, qx, qy) =~= neighborhood(m, qx, qy));
}

proof fn lemma_concat_contains<A>(a: Seq<A>, b: Seq<A>, x: A)
    requires
        (a + b).contains(x),
    ensures
        a.contains(x) || b.contains(x),
{
    let i = choose|i: int| 0 <= i < (a + b).len() && (a + b)[i] == x;
    if i < a.len() {
        assert(a[i] == x);
    } else {
        assert(b[i - a.len()] == x);
    }
}

proof fn lemma_offset_is_neighbor(qx: int, qy: int, ox: int, oy: int)
    requires
        -1 <= ox <= 1,
        -1 <= oy <= 1,
    ensures
        is_neighbor_cell(wrap_cell(qx) + ox, wrap_cell(qy) + oy, qx, qy),
{
    lemma_wrap_shift(wrap_cell(qx) + ox, qx, ox);
    lemma_wrap_shift(wrap_cell(qy) + oy, qy, oy);
    lemma_wrap_idempotent(wrap_cell(qx) + ox);
    lemma_wrap_idempotent(wrap_cell(qy) + oy);
    assert(wrap_cell(-1) == 1023);
}

/// A query around `(qx, qy)` returns only particles filed in a cell next to
/// `(qx, qy)` (the cell itself included).
pub proof fn lemma_query_only_neighbors(m: Map<u32, Seq<usize>>, idx: usize, qx: int, qy: int)
    requires
        neighborhood(m, qx, qy).contains(idx),
    ensures
        exists|ax: int, ay: int|
            is_neighbor_cell(ax, ay, qx, qy) && #[trigger] bucket(m, cell_key(ax, ay)).contains(idx),
{
    let x = wrap_cell(qx);
    let y = wrap_cell(qy);
    let s0 = bucket(m, cell_key(x - 1, y - 1));
    let s1 = bucket(m, cell_key(x - 1, y));
    let s2 = bucket(m, cell_key(x - 1, y + 1));
    let s3 = bucket(m, cell_key(x, y - 1));
    let s4 = bucket(m, cell_key(x, y));
    let s5 = bucket(m, cell_key(x, y + 1));
    let s6 = bucket(m, cell_key(x + 1, y - 1));
    let s7 = bucket(m, cell_key(x + 1, y));
    let s8 = bucket(m, cell_key(x + 1, y + 1));
    let mut ox: int = 0;
    let mut oy: int = 0;
    lemma_concat_contains(s0 + s1 + s2 + s3 + s4 + s5 + s6 + s7, s8, idx);
    if s8.contains(idx) {
        ox = 1;
        oy = 1;
    } else {
        lemma_concat_contains(s0 + s1 + s2 + s3 + s4 + s5 + s6, s7, idx);
        if s7.contains(idx) {
            ox = 1;
            oy = 0;
        } else {
            lemma_concat_contains(s0 + s1 + s2 + s3 + s4 + s5, s6, idx);
            if s6.contains(idx) {
                ox = 1;
                oy = -1;
            } else {
                lemma_concat_contains(s0 + s1 + s2 + s3 + s4, s5, idx);
                if s5.contains(idx) {
                    ox = 0;
                    oy = 1;
                } else {
                    lemma_concat_contains(s0 + s1 + s2 + s3, s4, idx);
                    if s4.contains(idx) {
                        ox = 0;
                        oy = 0;
                    } else {
                        lemma_concat_contains(s0 + s1 + s2, s3, idx);
                        if s3.contains(idx) {
                            ox = 0;
                            oy = -1;
                        } else {
                            lemma_concat_contains(s0 + s1, s2, idx);
                            if s2.contains(idx) {
                                ox = -1;
                                oy = 1;
                            } else {
                                lemma_concat_contains(s0, s1, idx);
                                if s1.contains(idx) {
                                    ox = -1;
                                    oy = 0;
                                } else {
                                    ox = -1;
                                    oy = -1;
                                }
                            }
                        }
                    }
                }
            }
        }
    }
    lemma_offset_is_neighbor(qx, qy, ox, oy);
    assert(bucket(m, cell_key(x + ox, y + oy)).contains(idx));
}

/// Cell `(ax, ay)` has the key of the block cell at offset `(ox, oy)` from
/// `(qx, qy)` exactly when it lies at that offset on the torus.
proof fn lemma_block_key(ax: int, ay: int, qx: int, qy: int, ox: int, oy: int)
    requires
        -1 <= ox <= 1,
        -1 <= oy <= 1,
    ensures
        cell_key(wrap_cell(qx) + ox, wrap_cell(qy) + oy) == cell_key(ax, ay) <==> (wrap_cell(ax - qx)
            == wrap_cell(ox) && wrap_cell(ay - qy) == wrap_cell(oy)),
{
    lemma_key_eq(ax, ay, wrap_cell(qx) + ox, wrap_cell(qy) + oy);
    lemma_wrap_shift(ax, qx, ox);
    lemma_wrap_shift(ay, qy, oy);
}

/// The grid after filing particle `idx` in cell `(ax, ay)`.
pub open spec fn filed(m: Map<u32, Seq<usize>>, idx: usize, ax: int, ay: int) -> Map<u32, Seq<usize>> {
    m.insert(cell_key(ax, ay), bucket(m, cell_key(ax, ay)).push(idx))
}

/// Filing a particle adds it once to every query around a neighbouring cell
/// and leaves every other query unchanged (as multisets of indices).
pub proof fn lemma_query_after_filing(
    m: Map<u32, Seq<usize>>,
    idx: usize,
    ax: int,
    ay: int,
    qx: int,
    qy: int,
)
    ensures
        neighborhood(filed(m, idx, ax, ay), qx, qy).to_multiset() == if is_neighbor_cell(
            ax,
            ay,
            qx,
            qy,
        ) {
            neighborhood(m, qx, qy).to_multiset().insert(idx)
        } else {
            neighborhood(m, qx, qy).to_multiset()
        },
{
    broadcast use vstd::seq_lib::lemma_multiset_commutative, vstd::seq_lib::to_multiset_build,
        vstd::multiset::group_multiset_axioms;

    if !is_neighbor_cell(ax, ay, qx, qy) {
        lemma_query_ignores_far_cell(m, idx, ax, ay, qx, qy);
    } else {
        let x = wrap_cell(qx);
        let y = wrap_cell(qy);
        let k = cell_key(ax, ay);
        let m2 = filed(m, idx, ax, ay);
        assert(wrap_cell(-1) == 1023);
        assert(wrap_cell(0) == 0);
        assert(wrap_cell(1) == 1);
        lemma_block_key(ax, ay, qx, qy, -1, -1);
        lemma_block_key(ax, ay, qx, qy, -1, 0);
        lemma_block_key(ax, ay, qx, qy, -1, 1);
        lemma_block_key(ax, ay, qx, qy, 0, -1);
        lemma_block_key(ax, ay, qx, qy, 0, 0);
        lemma_block_key(ax, ay, qx, qy, 0, 1);
        lemma_block_key(ax, ay, qx, qy, 1, -1);
        lemma_block_key(ax, ay, qx, qy, 1, 0);
        lemma_block_key(ax, ay, qx, qy, 1, 1);
        assert(cell_key(x - 1, y - 1) == cell_key(x + (-1), y + (-1)));
        assert(cell_key(x - 1, y) == cell_key(x + (-1), y + 0));
        assert(cell_key(x - 1, y + 1) == cell_key(x + (-1), y + 1));
        assert(cell_key(x, y - 1) == cell_key(x + 0, y + (-1)));
        assert(cell_key(x, y) == cell_key(x + 0, y + 0));
        assert(cell_key(x, y + 1) == cell_key(x + 0, y + 1));
        assert(cell_key(x + 1, y - 1) == cell_key(x + 1, y + (-1)));
        assert(cell_key(x + 1, y) == cell_key(x + 1, y + 0));
        let keys = seq![
            cell_key(x - 1, y - 1),
            cell_key(x - 1, y),
            cell_key(x - 1, y + 1),
            cell_key(x, y - 1),
            cell_key(x, y),
            cell_key(x, y + 1),
            cell_key(x + 1, y - 1),
            cell_key(x + 1, y),
            cell_key(x + 1, y + 1),
        ];
        assert forall|j: int| 0 <= j < 9 implies #[trigger] bucket(m2, keys[j]) == if keys[j] == k {
            bucket(m, keys[j]).push(idx)
        } else {
            bucket(m, keys[j])
        } by {}
        let n1 = neighborhood(m, qx, qy);
        let n2 = neighborhood(m2, qx, qy);
        assert(n2.to_multiset() =~= n1.to_multiset().insert(idx));
    }
}

/// The grid after the insertions of `h` (particle, cell x, cell y), in order,
/// starting from an empty grid.
pub open spec fn grid_after(h: Seq<(usize, int, int)>) -> Map<u32, Seq<usize>>
    decreases h.len(),
{
    if h.len() == 0 {
        Map::empty()
    } else {
        let e = h.last();
        filed(grid_after(h.drop_last()), e.0, e.1, e.2)
    }
}

/// The particles of the insertions of `h` whose cell is next to `(qx, qy)`,
/// once per insertion.
pub open spec fn inserted_near(h: Seq<(usize, int, int)>, qx: int, qy: int) -> Seq<usize>
    decreases h.len(),
{
    if h.len() == 0 {
        Seq::empty()
    } else {
        let e = h.last();
        let rest = inserted_near(h.drop_last(), qx, qy);
        if is_neighbor_cell(e.1, e.2, qx, qy) {
            rest.push(e.0)
        } else {
            rest
        }
    }
}

/// After a clear and the insertions `h`, a query around `(qx, qy)` returns
/// every particle inserted in the 3 × 3 block of cells around it once per
/// insertion, and nothing else.
pub proof fn lemma_query_counts_insertions(h: Seq<(usize, int, int)>, qx: int, qy: int)
    ensures
        neighborhood(grid_after(h), qx, qy).to_multiset() == inserted_near(h, qx, qy).to_multiset(),
    decreases h.len(),
{
    broadcast use vstd::seq_lib::to_multiset_build, vstd::multiset::group_multiset_axioms;

    if h.len() == 0 {
        lemma_cleared_grid_is_empty(qx, qy);
        assert(inserted_near(h, qx, qy) =~= Seq::<usize>::empty());
    } else {
        let e = h.last();
        lemma_query_counts_insertions(h.drop_last(), qx, qy);
        lemma_query_after_filing(grid_after(h.drop_last()), e.0, e.1, e.2, qx, qy);
    }
}

/// A cleared grid answers every query with nothing.
pub proof fn lemma_cleared_grid_is_empty(qx: int, qy: int)
    ensures
        neighborhood(Map::<u32, Seq<usize>>::empty(), qx, qy) == Seq::<usize>::empty(),
{
    assert(neighborhood(Map::<u32, Seq<usize>>::empty(), qx, qy) =~= Seq::<usize>::empty());
}

/// Spatial hash grid for O(1) neighbour lookups in 2D.
pub struct SpatialGrid {
    cells: HashMap<u32, Vec<usize>>,
}

impl View for SpatialGrid {
    type V = Map<u32, Seq<usize>>;

    closed spec fn view(&self) -> Map<u32, Seq<usize>> {
        self.cells@.map_values(|b: Vec<usize>| b@)
    }
}

proof fn lemma_low_bits_are_wrap(a: i32)
    ensures
        ((a as u32) & 0x3FFu32) as int == wrap_cell(a as int),
{
    let u = a as u32;
    assert((u & 0x3FFu32) == u % 1024) by (bit_vector);
    if a >= 0 {
        assert(u as int == a as int) by (bit_vector)
            requires
                a >= 0,
                u == a as u32,
        ;
    } else {
        assert(u as int == a as int + 0x1_0000_0000) by (bit_vector)
            requires
                a < 0,
                u == a as u32,
        ;
        vstd::arithmetic::div_mod::lemma_mod_add_multiples_vanish(a as int, 1024);
        assert(0x1_0000_0000 == 1024 * 0x40_0000);
        vstd::arithmetic::div_mod::lemma_mod_multiples_vanish(0x40_0000, a as int, 1024);
    }
}

proof fn lemma_pack_bits(p: u32, q: u32)
    requires
        p < 1024,
        q < 1024,
    ensures
        ((p << 10) | q) as int == p as int * 1024 + q as int,
{
    assert(((p << 10) | q) == p * 1024 + q) by (bit_vector)
        requires
            p < 1024,
            q < 1024,
    ;
}

proof fn lemma_unpack_bits(k: u32, p: u32, q: u32)
    requires
        p < 1024,
        q < 1024,
        k as int == p as int * 1024 + q as int,
    ensures
        (k >> 10) & 0x3FFu32 == p,
        k & 0x3FFu32 == q,
{
    assert((k >> 10) & 0x3FFu32 == p && k & 0x3FFu32 == q) by (bit_vector)
        requires
            p < 1024,
            q < 1024,
            k == p * 1024 + q,
    ;
}

/// Reducing a coordinate onto the torus twice changes nothing more.
proof fn lemma_wrap_idempotent(a: int)
    ensures
        wrap_cell(wrap_cell(a)) == wrap_cell(a),
        0 <= wrap_cell(a) < axis_cells(),
{
    vstd::arithmetic::div_mod::lemma_mod_twice(a, 1024);
}

impl SpatialGrid {
    /// An empty grid.
    pub fn new() -> (g: Self)
        ensures
            g@ == Map::<u32, Seq<usize>>::empty(),
    {
        let g = SpatialGrid { cells: HashMap::new() };
        assert(g@ =~= Map::<u32, Seq<usize>>::empty());
        g
    }

    /// The key of cell `(cx, cy)`: the low 10 bits of each coordinate, x above y.
    pub fn pack_key(cx: i32, cy: i32) -> (k: u32)
        ensures
            k == cell_key(cx as int, cy as int),
    {
        proof {
            lemma_low_bits_are_wrap(cx);
            lemma_low_bits_are_wrap(cy);
            lemma_wrap_idempotent(cx as int);
            lemma_wrap_idempotent(cy as int);
            lemma_pack_bits((cx as u32) & 0x3FFu32, (cy as u32) & 0x3FFu32);
        }
        (((cx as u32) & 0x3FF) << 10) | ((cy as u32) & 0x3FF)
    }

    /// The cell coordinates, each in `0..1024`, that a key packs.
    pub fn unpack_key(key: u32) -> (c: (i32, i32))
        ensures
            c.0 as u32 == (key >> 10u32) & 0x3FFu32,
            c.1 as u32 == key & 0x3FFu32,
            0 <= c.0 < 1024,
            0 <= c.1 < 1024,
            forall|cx: int, cy: int|
                key == cell_key(cx, cy) ==> c.0 == wrap_cell(cx) && c.1 == wrap_cell(cy),
    {
        let x = (key >> 10) & 0x3FF;
        let y = key & 0x3FF;
        assert(x < 1024 && y < 1024) by (bit_vector)
            requires
                x == (key >> 10) & 0x3FFu32,
                y == key & 0x3FFu32,
        ;
        assert forall|cx: int, cy: int| key == cell_key(cx, cy) implies x == wrap_cell(cx) && y
            == wrap_cell(cy) by {
            lemma_wrap_idempotent(cx);
            lemma_wrap_idempotent(cy);
            lemma_unpack_bits(key, wrap_cell(cx) as u32, wrap_cell(cy) as u32);
        }
        (x as i32, y as i32)
    }

    /// Empties every cell.
    pub fn clear(&mut self)
        ensures
            final(self)@ == Map::<u32, Seq<usize>>::empty(),
    {
        self.cells.clear();
        assert(self@ =~= Map::<u32, Seq<usize>>::empty());
    }

    /// Files particle `idx` under cell `(cx, cy)`, after what that cell already holds.
    pub fn insert(&mut self, idx: usize, cx: i32, cy: i32)
        ensures
            final(self)@ == filed(old(self)@, idx, cx as int, cy as int),
    {
        let k = Self::pack_key(cx, cy);
        let mut b = match self.cells.remove(&k) {
            Some(v) => v,
            None => Vec::new(),
        };
        b.push(idx);
        self.cells.insert(k, b);
        assert(self@ =~= old(self)@.insert(k, bucket(old(self)@, k).push(idx)));
    }

    /// Appends to `out` what the cell with key `k` holds.
    fn append_bucket(&self, k: u32, out: &mut Vec<usize>)
        ensures
            final(out)@ == old(out)@ + bucket(self@, k),
    {
        match self.cells.get(&k) {
            Some(b) => {
                let mut i: usize = 0;
                while i < b.len()
                    invariant
                        0 <= i <= b@.len(),
                        out@ == old(out)@ + b@.subrange(0, i as int),
                    decreases b@.len() - i,
                {
                    out.push(b[i]);
                    i = i + 1;
                    assert(out@ =~= old(out)@ + b@.subrange(0, i as int));
                }
                assert(b@.subrange(0, b@.len() as int) =~= b@);
            },
            None => {
                assert(out@ =~= old(out)@ + bucket(self@, k));
            },
        }
    }

    /// All particles filed in the 3 × 3 block of cells around `(cx, cy)`.
    pub fn query(&self, cx: i32, cy: i32) -> (out: Vec<usize>)
        ensures
            out@ == neighborhood(self@, cx as int, cy as int),
    {
        let mut out = Vec::new();
        self.query_into(cx, cy, &mut out);
        out
    }

    /// Replaces what `out` holds with all particles filed in the 3 × 3 block of
    /// cells around `(cx, cy)`.
    pub fn query_into(&self, cx: i32, cy: i32, out: &mut Vec<usize>)
        ensures
            final(out)@ == neighborhood(self@, cx as int, cy as int),
    {
        out.clear();
        let k = Self::pack_key(cx, cy);
        let (x, y) = Self::unpack_key(k);
        self.append_bucket(Self::pack_key(x - 1, y - 1), out);
        self.append_bucket(Self::pack_key(x - 1, y), out);
        self.append_bucket(Self::pack_key(x - 1, y + 1), out);
        self.append_bucket(Self::pack_key(x, y - 1), out);
        self.append_bucket(Self::pack_key(x, y), out);
        self.append_bucket(Self::pack_key(x, y + 1), out);
        self.append_bucket(Self::pack_key(x + 1, y - 1), out);
        self.append_bucket(Self::pack_key(x + 1, y), out);
        self.append_bucket(Self::pack_key(x + 1, y + 1), out);
        assert(out@ =~= neighborhood(self@, cx as int, cy as int));
    }
}

} // verus!
