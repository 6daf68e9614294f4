//! The search-local board: occupancy from the engine's point of view, the
//! set of legal cells, and tables that stay fixed for the whole search.
use crate::connect::{connects_all_sides, owned_by};
use crate::geometry::{
    adjacent, col_of, index_of, is_valid_cell, lemma_index_of, lemma_row_col, num_cells, row_of,
    side_mask, MAX_BOARD_SIZE,
};
use vstd::prelude::*;

verus! {

/// Occupant token of a cell: empty.
pub const EMPTY: u8 = 0;

/// Occupant token of a cell: the player the search plays for.
pub const OWN: u8 = 1;

/// Occupant token of a cell: the other player.
pub const OPPONENT: u8 = 2;

/// A cell as seen by the player holding `own` (1 or 2): 0 empty, 1 own, 2 opponent.
pub open spec fn relabel(c: u8, own: u8) -> u8 {
    if c == 0 {
        0
    } else if c == own {
        1
    } else {
        2
    }
}

pub open spec fn other_token(t: u8) -> u8 {
    if t == 1 {
        2
    } else {
        1
    }
}

/// A well-formed occupancy for a board of side `n`: a token per cell of the
/// square index space, stones only on valid cells.
pub open spec fn occupancy_ok(n: nat, cells: Seq<u8>) -> bool {
    &&& cells.len() == num_cells(n)
    &&& forall|i: int| 0 <= i < cells.len() ==> #[trigger] cells[i] <= 2
    &&& forall|i: int| 0 <= i < cells.len() && #[trigger] cells[i] != 0 ==> is_valid_cell(n, i)
}

pub struct BoardState {
    /// Side of the board.
    pub size: usize,
    /// Token per cell: `EMPTY`, `OWN` or `OPPONENT`.
    pub occupancy: Vec<u8>,
    /// Set exactly for the valid empty cells.
    pub available: Vec<bool>,
    /// For each cell, its valid neighbours.
    pub neighbors: Vec<Vec<usize>>,
    /// For each cell, the mask of sides it lies on.
    pub edges: Vec<u8>,
    /// Scratch buffer of the win detector.
    pub visited: Vec<bool>,
    /// Scratch buffer of the win detector.
    pub stack: Vec<usize>,
}

impl BoardState {
    pub open spec fn n(&self) -> nat {
        self.size as nat
    }

    pub open spec fn wf(&self) -> bool {
        &&& 0 < self.size <= MAX_BOARD_SIZE
        &&& num_cells(self.n()) <= 250000
        &&& occupancy_ok(self.n(), self.occupancy@)
        &&& self.available@.len() == num_cells(self.n())
        &&& self.neighbors@.len() == num_cells(self.n())
        &&& self.edges@.len() == num_cells(self.n())
        &&& self.visited@.len() == num_cells(self.n())
        &&& forall|i: int|
            0 <= i < num_cells(self.n()) ==> #[trigger] self.available@[i] == (is_valid_cell(
                self.n(),
                i,
            ) && self.occupancy@[i] == EMPTY)
        &&& forall|i: int|
            0 <= i < num_cells(self.n()) ==> #[trigger] self.edges@[i] == side_mask(self.n(), i)
        &&& forall|i: int, k: int|
            0 <= i < num_cells(self.n()) && 0 <= k < self.neighbors@[i]@.len() ==> adjacent(
                self.n(),
                i,
                #[trigger] self.neighbors@[i]@[k] as int,
            )
        &&& forall|i: int, j: int|
            0 <= i < num_cells(self.n()) && #[trigger] adjacent(self.n(), i, j)
                ==> self.neighbors@[i]@.contains(j as usize)
    }

    /// The position and the fixed tables agree; scratch buffers may differ.
    pub open spec fn same_position(&self, other: BoardState) -> bool {
        &&& self.size == other.size
        &&& self.occupancy@ == other.occupancy@
        &&& self.available@ == other.available@
        &&& self.neighbors@ == other.neighbors@
        &&& self.edges@ == other.edges@
    }

    /// The player holding `token` has won.
    pub open spec fn wins(&self, token: u8) -> bool {
        connects_all_sides(self.n(), owned_by(self.occupancy@, token))
    }
}

proof fn lemma_cells_bound(n: nat)
    requires
        0 < n <= 500,
    ensures
        num_cells(n) <= 250000,
{
    assert(n * n <= 500 * 500) by (nonlinear_arith)
        requires
            n <= 500,
    ;
}

fn push_cell(v: &mut Vec<usize>, x: usize)
    ensures
        final(v)@ == old(v)@.push(x),
        final(v)@.contains(x),
        forall|y: usize| old(v)@.contains(y) ==> #[trigger] final(v)@.contains(y),
{
    let ghost before = v@;
    v.push(x);
    assert(v@[v@.len() - 1] == x);
    assert forall|y: usize| before.contains(y) implies #[trigger] v@.contains(y) by {
        let k = choose|k: int| 0 <= k < before.len() && before[k] == y;
        assert(v@[k] == y);
    }
}

/// The valid neighbours of cell `i`.
fn cell_neighbors(n: usize, i: usize) -> (v: Vec<usize>)
    requires
        0 < n <= MAX_BOARD_SIZE,
        i < n * n,
    ensures
        forall|k: int| 0 <= k < v@.len() ==> adjacent(n as nat, i as int, #[trigger] v@[k] as int),
        forall|j: int| #[trigger] adjacent(n as nat, i as int, j) ==> v@.contains(j as usize),
{
    let ghost nn = n as nat;
    proof {
        reveal(adjacent);
        lemma_cells_bound(nn);
        lemma_row_col(nn, i as int);
    }
    let r = i / n;
    let c = i % n;
    let mut v: Vec<usize> = Vec::new();
    if c > r {
        assert forall|j: int| #[trigger] adjacent(nn, i as int, j) implies v@.contains(
            j as usize,
        ) by {}
        return v;
    }
    assert(r < n);
    // Same row.
    if c >= 1 {
        proof { lemma_index_of(nn, r as int, c - 1); }
        assert((r * n) + c - 1 < n * n) by (nonlinear_arith) requires r < n, c < n, c >= 1;
        push_cell(&mut v, r * n + c - 1);
    }
    if c + 1 <= r {
        proof { lemma_index_of(nn, r as int, c + 1); }
        assert((r * n) + c + 1 < n * n) by (nonlinear_arith) requires r < n, c + 1 < n;
        push_cell(&mut v, r * n + c + 1);
    }
    // Row above.
    if r >= 1 && c + 1 <= r {
        proof { lemma_index_of(nn, r - 1, c as int); }
        assert(((r - 1) * n) + c < n * n) by (nonlinear_arith) requires r < n, c < n, r >= 1;
        push_cell(&mut v, (r - 1) * n + c);
    }
    if r >= 1 && c >= 1 {
        proof { lemma_index_of(nn, r - 1, c - 1); }
        assert(((r - 1) * n) + c - 1 < n * n) by (nonlinear_arith) requires r < n, c < n, r >= 1, c >= 1;
        push_cell(&mut v, (r - 1) * n + c - 1);
    }
    // Row below.
    if r + 1 < n {
        proof { lemma_index_of(nn, r + 1, c as int); }
        assert(((r + 1) * n) + c < n * n) by (nonlinear_arith) requires r + 1 < n, c < n;
        push_cell(&mut v, (r + 1) * n + c);
        proof { lemma_index_of(nn, r + 1, c + 1); }
        assert(((r + 1) * n) + c + 1 < n * n) by (nonlinear_arith) requires r + 1 < n, c + 1 < n;
        push_cell(&mut v, (r + 1) * n + c + 1);
    }
    assert forall|j: int| #[trigger] adjacent(nn, i as int, j) implies v@.contains(j as usize) by {
        lemma_row_col(nn, j);
        let rj = row_of(nn, j);
        let cj = col_of(nn, j);
        assert(j == index_of(nn, rj, cj));
        assert(v@.contains(j as usize));
    }
    v
}

/// The side mask of cell `i`.
fn cell_side_mask(n: usize, i: usize) -> (m: u8)
    requires
        0 < n <= MAX_BOARD_SIZE,
        i < n * n,
    ensures
        m == side_mask(n as nat, i as int),
{
    let r = i / n;
    let c = i % n;
    let valid = c <= r;
    let a: u8 = if valid && r == n - 1 { 1 } else { 0 };
    let b: u8 = if valid && c == 0 { 2 } else { 0 };
    let z: u8 = if valid && c == r { 4 } else { 0 };
    a | b | z
}

/// The indices `i < k` for which `p(i)` holds, in ascending order.
pub open spec fn indices_where(p: spec_fn(int) -> bool, k: int) -> Seq<usize>
    decreases k,
{
    if k <= 0 {
        Seq::empty()
    } else if p(k - 1) {
        indices_where(p, k - 1).push((k - 1) as usize)
    } else {
        indices_where(p, k - 1)
    }
}

pub proof fn lemma_indices_where(p: spec_fn(int) -> bool, k: int)
    requires
        0 <= k <= usize::MAX + 1,
    ensures
        forall|j: int|
            0 <= j < indices_where(p, k).len() ==> 0 <= #[trigger] indices_where(p, k)[j] < k
                && p(indices_where(p, k)[j] as int),
        forall|i: int| 0 <= i < k && p(i) ==> #[trigger] indices_where(p, k).contains(i as usize),
        forall|a: int, b: int|
            0 <= a < b < indices_where(p, k).len() ==> #[trigger] indices_where(p, k)[a]
                < #[trigger] indices_where(p, k)[b],
    decreases k,
{
    if k > 0 {
        lemma_indices_where(p, k - 1);
        let prev = indices_where(p, k - 1);
        if p(k - 1) {
            let cur = prev.push((k - 1) as usize);
            assert forall|i: int| 0 <= i < k && p(i) implies #[trigger] cur.contains(i as usize) by {
                if i < k - 1 {
                    assert(prev.contains(i as usize));
                    let j = choose|j: int| 0 <= j < prev.len() && prev[j] == i as usize;
                    assert(cur[j] == i as usize);
                } else {
                    assert(cur[prev.len() as int] == i as usize);
                }
            }
        }
    }
}

impl BoardState {
    /// The search board of a position given by `cells` (0 empty, 1 and 2 the
    /// two players), seen by the player whose stones are `own`.
    pub fn from_cells(size: u32, cells: &Vec<u8>, own: u8) -> (b: BoardState)
        requires
            0 < size <= MAX_BOARD_SIZE,
            occupancy_ok(size as nat, cells@),
            own == 1 || own == 2,
        ensures
            b.wf(),
            b.size == size,
            b.occupancy@ == cells@.map_values(|c: u8| relabel(c, own)),
    {
        let n = size as usize;
        let ghost nn = n as nat;
        proof {
            lemma_cells_bound(nn);
        }
        let total = n * n;
        let mut occupancy: Vec<u8> = Vec::new();
        let mut available: Vec<bool> = Vec::new();
        let mut neighbors: Vec<Vec<usize>> = Vec::new();
        let mut edges: Vec<u8> = Vec::new();
        let mut visited: Vec<bool> = Vec::new();
        let mut i: usize = 0;
        while i < total
            invariant
                total == num_cells(nn),
                total == n * n,
                nn == n as nat,
                nn == size,
                0 < n <= MAX_BOARD_SIZE,
                cells@.len() == total,
                occupancy_ok(nn, cells@),
                own == 1 || own == 2,
                i <= total,
                occupancy@.len() == i,
                available@.len() == i,
                neighbors@.len() == i,
                edges@.len() == i,
                visited@.len() == i,
                forall|k: int| 0 <= k < i ==> #[trigger] occupancy@[k] == relabel(cells@[k], own),
                forall|k: int|
                    0 <= k < i ==> #[trigger] available@[k] == (is_valid_cell(nn, k)
                        && occupancy@[k] == EMPTY),
                forall|k: int| 0 <= k < i ==> #[trigger] edges@[k] == side_mask(nn, k),
                forall|k: int, m: int|
                    0 <= k < i && 0 <= m < neighbors@[k]@.len() ==> adjacent(
                        nn,
                        k,
                        #[trigger] neighbors@[k]@[m] as int,
                    ),
                forall|k: int, j: int|
                    0 <= k < i && #[trigger] adjacent(nn, k, j) ==> neighbors@[k]@.contains(
                        j as usize,
                    ),
            decreases total - i,
        {
            let c = cells[i];
            let t: u8 = if c == 0 {
                EMPTY
            } else if c == own {
                OWN
            } else {
                OPPONENT
            };
            let ghost (o0, a0, n0, e0) = (occupancy@, available@, neighbors@, edges@);
            occupancy.push(t);
            let r = i / n;
            let col = i % n;
            available.push(col <= r && t == EMPTY);
            let nb = cell_neighbors(n, i);
            neighbors.push(nb);
            edges.push(cell_side_mask(n, i));
            visited.push(false);
            assert(available@[i as int] == (is_valid_cell(nn, i as int) && occupancy@[i as int]
                == EMPTY));
            assert(neighbors@[i as int] == nb);
            assert(forall|k: int| 0 <= k < i ==> occupancy@[k] == o0[k] && available@[k] == a0[k]
                && neighbors@[k] == n0[k] && edges@[k] == e0[k]);
            i = i + 1;
        }
        let b = BoardState {
            size: n,
            occupancy,
            available,
            neighbors,
            edges,
            visited,
            stack: Vec::new(),
        };
        assert(b.occupancy@ =~= cells@.map_values(|c: u8| relabel(c, own)));
        b
    }

    /// Places `token` on the legal cell `cell`.
    pub fn make_move(&mut self, cell: usize, token: u8)
        requires
            old(self).wf(),
            cell < old(self).available@.len(),
            old(self).available@[cell as int],
            token == OWN || token == OPPONENT,
        ensures
            final(self).wf(),
            final(self).size == old(self).size,
            final(self).occupancy@ == old(self).occupancy@.update(cell as int, token),
            final(self).available@ == old(self).available@.update(cell as int, false),
            final(self).neighbors@ == old(self).neighbors@,
            final(self).edges@ == old(self).edges@,
    {
        self.occupancy.set(cell, token);
        self.available.set(cell, false);
    }

    /// Takes back the stone on `cell`.
    pub fn undo_move(&mut self, cell: usize)
        requires
            old(self).wf(),
            cell < old(self).occupancy@.len(),
            old(self).occupancy@[cell as int] != EMPTY,
        ensures
            final(self).wf(),
            final(self).size == old(self).size,
            final(self).occupancy@ == old(self).occupancy@.update(cell as int, EMPTY),
            final(self).available@ == old(self).available@.update(cell as int, true),
            final(self).neighbors@ == old(self).neighbors@,
            final(self).edges@ == old(self).edges@,
    {
        self.occupancy.set(cell, EMPTY);
        self.available.set(cell, true);
    }

    /// The legal cells, in ascending order.
    pub fn available_moves(&self) -> (r: Vec<usize>)
        requires
            self.wf(),
        ensures
            r@ == indices_where(|i: int| self.available@[i], self.available@.len() as int),
    {
        let ghost p = |i: int| self.available@[i];
        let mut r: Vec<usize> = Vec::new();
        let mut i: usize = 0;
        while i < self.available.len()
            invariant
                i <= self.available@.len(),
                r@ == indices_where(p, i as int),
                forall|j: int| #[trigger] p(j) == self.available@[j],
            decreases self.available@.len() - i,
        {
            assert(indices_where(p, i + 1) == if p(i as int) {
                indices_where(p, i as int).push(i)
            } else {
                indices_where(p, i as int)
            });
            assert(p(i as int) == self.available@[i as int]);
            if self.available[i] {
                r.push(i);
            }
            i = i + 1;
        }
        r
    }

    /// The cells that hold a stone, in ascending order.
    pub fn occupied_cells(&self) -> (r: Vec<usize>)
        requires
            self.wf(),
        ensures
            r@ == indices_where(|i: int| self.occupancy@[i] != EMPTY, self.occupancy@.len() as int),
    {
        let ghost p = |i: int| self.occupancy@[i] != EMPTY;
        let mut r: Vec<usize> = Vec::new();
        let mut i: usize = 0;
        while i < self.occupancy.len()
            invariant
                i <= self.occupancy@.len(),
                r@ == indices_where(p, i as int),
                forall|j: int| #[trigger] p(j) == (self.occupancy@[j] != EMPTY),
            decreases self.occupancy@.len() - i,
        {
            assert(indices_where(p, i + 1) == if p(i as int) {
                indices_where(p, i as int).push(i)
            } else {
                indices_where(p, i as int)
            });
            assert(p(i as int) == (self.occupancy@[i as int] != EMPTY));
            if self.occupancy[i] != EMPTY {
                r.push(i);
            }
            i = i + 1;
        }
        r
    }
}

} // verus!
