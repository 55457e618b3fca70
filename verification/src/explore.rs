//! The illumination map of MAP-Elites style search: a square grid of cells,
//! each holding at most one elite.
//!
//! Where a descriptor falls and whether a candidate beats the elite in its
//! cell are decided with real numbers by the caller; the map keeps the cells.
use vstd::prelude::*;

verus! {

/// Number of cells holding an elite among the first `k` of `cells`.
pub open spec fn filled<E>(cells: Seq<Option<E>>, k: int) -> nat
    decreases k,
{
    if k <= 0 {
        0
    } else {
        filled(cells, k - 1) + if cells[k - 1] is Some {
            1nat
        } else {
            0nat
        }
    }
}

/// A square grid of `grid_size × grid_size` cells stored row by row.
pub struct IlluminationMap<E> {
    pub grid_size: usize,
    pub cells: Vec<Option<E>>,
}

impl<E> IlluminationMap<E> {
    /// The map holds one cell per grid position.
    pub open spec fn wf(&self) -> bool {
        self.cells@.len() == self.grid_size * self.grid_size
    }

    /// An empty map of `grid_size × grid_size` cells.
    pub fn new(grid_size: usize) -> (m: Self)
        requires
            grid_size * grid_size <= usize::MAX,
        ensures
            m.wf(),
            m.grid_size == grid_size,
            forall|i: int| 0 <= i < m.cells@.len() ==> #[trigger] m.cells@[i] is None,
    {
        let total = grid_size * grid_size;
        let mut cells: Vec<Option<E>> = Vec::new();
        let mut i: usize = 0;
        while i < total
            invariant
                0 <= i <= total,
                cells@.len() == i,
                forall|j: int| 0 <= j < i ==> #[trigger] cells@[j] is None,
            decreases total - i,
        {
            cells.push(None);
            i = i + 1;
        }
        IlluminationMap { grid_size, cells }
    }

    /// Index of the cell at column `x`, row `y`.
    pub fn cell_index(&self, x: usize, y: usize) -> (i: usize)
        requires
            self.wf(),
            x < self.grid_size,
            y < self.grid_size,
        ensures
            i == y * self.grid_size + x,
            i < self.cells@.len(),
    {
        proof {
            assert(self.cells.len() == self.cells@.len());
            vstd::arithmetic::mul::lemma_mul_inequality(
                y as int + 1,
                self.grid_size as int,
                self.grid_size as int,
            );
            assert((y as int + 1) * self.grid_size == y * self.grid_size + self.grid_size)
                by (nonlinear_arith);
        }
        y * self.grid_size + x
    }

    /// Puts `elite` in the cell at column `x`, row `y`, replacing what it held.
    pub fn place(&mut self, x: usize, y: usize, elite: E)
        requires
            old(self).wf(),
            x < old(self).grid_size,
            y < old(self).grid_size,
        ensures
            final(self).wf(),
            final(self).grid_size == old(self).grid_size,
            final(self).cells@ == old(self).cells@.update(
                y * old(self).grid_size + x,
                Some(elite),
            ),
    {
        let i = self.cell_index(x, y);
        self.cells.set(i, Some(elite));
    }

    /// Number of cells holding an elite.
    pub fn coverage(&self) -> (n: usize)
        ensures
            n == filled(self.cells@, self.cells@.len() as int),
    {
        let mut n: usize = 0;
        let mut i: usize = 0;
        while i < self.cells.len()
            invariant
                0 <= i <= self.cells@.len(),
                n == filled(self.cells@, i as int),
                n <= i,
            decreases self.cells@.len() - i,
        {
            if self.cells[i].is_some() {
                n = n + 1;
            }
            i = i + 1;
        }
        n
    }
}

/// Placing an elite in an empty cell raises the coverage by one; placing it
/// in a filled cell leaves the coverage unchanged.
pub proof fn lemma_place_coverage<E>(cells: Seq<Option<E>>, i: int, e: E)
    requires
        0 <= i < cells.len(),
    ensures
        filled(cells.update(i, Some(e)), cells.len() as int) == filled(cells, cells.len() as int)
            + if cells[i] is None {
            1nat
        } else {
            0nat
        },
{
    lemma_filled_update(cells, i, e, cells.len() as int);
}

proof fn lemma_filled_update<E>(cells: Seq<Option<E>>, i: int, e: E, k: int)
    requires
        0 <= i < cells.len(),
        0 <= k <= cells.len(),
    ensures
        filled(cells.update(i, Some(e)), k) == filled(cells, k) + if i < k && cells[i] is None {
            1nat
        } else {
            0nat
        },
    decreases k,
{
    if k > 0 {
        lemma_filled_update(cells, i, e, k - 1);
    }
}

} // verus!
