//! Indexing of the environment's chemical field grids.
//!
//! Each field is a `width × height` grid stored row by row; the values are
//! real numbers and stay with the caller.
use vstd::prelude::*;

verus! {

/// Flat position of cell `(gx, gy)` in a row-major grid `width` cells wide,
/// when the cell lies inside a `width × height` grid.
pub open spec fn spec_cell_index(width: int, height: int, gx: int, gy: int) -> Option<int> {
    if gx < width && gy < height {
        Some(gy * width + gx)
    } else {
        None
    }
}

/// The flat index of cell `(gx, gy)`, or `None` for a cell outside the grid.
pub fn cell_index(width: usize, height: usize, gx: usize, gy: usize) -> (i: Option<usize>)
    requires
        width * height <= usize::MAX,
    ensures
        match spec_cell_index(width as int, height as int, gx as int, gy as int) {
            Some(k) => i == Some(k as usize),
            None => i is None,
        },
        i is Some ==> i.unwrap() < width * height,
{
    if gx < width && gy < height {
        proof {
            vstd::arithmetic::mul::lemma_mul_inequality(gy as int + 1, height as int, width as int);
            assert((gy as int + 1) * width == gy * width + width) by (nonlinear_arith);
            assert(height as int * width == width as int * height) by (nonlinear_arith);
        }
        Some(gy * width + gx)
    } else {
        None
    }
}

/// Distinct cells of a grid have distinct flat indices.
pub proof fn lemma_cell_index_injective(width: int, height: int, ax: int, ay: int, bx: int, by: int)
    requires
        0 <= ax < width,
        0 <= bx < width,
        0 <= ay < height,
        0 <= by < height,
        spec_cell_index(width, height, ax, ay) == spec_cell_index(width, height, bx, by),
    ensures
        ax == bx && ay == by,
{
    let ka = ay * width + ax;
    let kb = by * width + bx;
    assert(ka == kb);
    vstd::arithmetic::div_mod::lemma_fundamental_div_mod_converse(ka, width, ay, ax);
    vstd::arithmetic::div_mod::lemma_fundamental_div_mod_converse(kb, width, by, bx);
}

/// A cell coordinate clamped into a grid of `n` cells: at most `n - 1` (0 when
/// the grid is empty).
pub fn clamp_to_grid(raw: usize, n: usize) -> (c: usize)
    ensures
        c == if n == 0 {
            0
        } else if raw < n - 1 {
            raw as int
        } else {
            n - 1
        },
        n > 0 ==> c < n,
{
    let last = n.saturating_sub(1);
    if raw < last {
        raw
    } else {
        last
    }
}

} // verus!
