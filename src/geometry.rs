//! Board geometry: how a triangular board of side `n` is packed into the
//! square index space `[0, n * n)`, which cells are adjacent, and which
//! cells lie on which side.
//!
//! Cell `i` sits at row `i / n` and column `i % n`; it is on the board when
//! its column does not exceed its row. The coordinate triple of that cell
//! is `(n - 1 - row, column, row - column)`.
use vstd::arithmetic::div_mod::{lemma_fundamental_div_mod, lemma_fundamental_div_mod_converse};
use vstd::prelude::*;

verus! {

/// The largest board side that the engine accepts; it keeps every score
/// within `i32`.
pub const MAX_BOARD_SIZE: u32 = 500;

pub open spec fn num_cells(n: nat) -> nat {
    n * n
}

pub open spec fn row_of(n: nat, i: int) -> int {
    i / (n as int)
}

pub open spec fn col_of(n: nat, i: int) -> int {
    i % (n as int)
}

/// Cell `i` is a position of the triangular board.
pub open spec fn is_valid_cell(n: nat, i: int) -> bool {
    &&& n > 0
    &&& 0 <= i < num_cells(n)
    &&& col_of(n, i) <= row_of(n, i)
}

pub open spec fn coord_x(n: nat, i: int) -> int {
    n - 1 - row_of(n, i)
}

pub open spec fn coord_y(n: nat, i: int) -> int {
    col_of(n, i)
}

pub open spec fn coord_z(n: nat, i: int) -> int {
    row_of(n, i) - col_of(n, i)
}

/// Cell index of the position with row `r` and column `c`.
pub open spec fn index_of(n: nat, r: int, c: int) -> int {
    r * n + c
}

/// Two distinct valid cells that share a side of their hexagons.
#[verifier::opaque]
pub open spec fn adjacent(n: nat, i: int, j: int) -> bool {
    let dr = row_of(n, j) - row_of(n, i);
    let dc = col_of(n, j) - col_of(n, i);
    &&& is_valid_cell(n, i)
    &&& is_valid_cell(n, j)
    &&& {
        ||| dr == 0 && (dc == 1 || dc == -1)
        ||| dc == 0 && (dr == 1 || dr == -1)
        ||| dr == 1 && dc == 1
        ||| dr == -1 && dc == -1
    }
}

/// Side `k` of the board: side 0 is `x == 0`, side 1 is `y == 0`, side 2 is `z == 0`.
pub open spec fn on_side(n: nat, i: int, k: int) -> bool {
    &&& is_valid_cell(n, i)
    &&& if k == 0 {
        coord_x(n, i) == 0
    } else if k == 1 {
        coord_y(n, i) == 0
    } else {
        k == 2 && coord_z(n, i) == 0
    }
}

/// The three-bit mask of the sides a cell lies on (bit `k` for side `k`).
pub open spec fn side_mask(n: nat, i: int) -> u8 {
    ((if on_side(n, i, 0) { 1u8 } else { 0u8 }) | (if on_side(n, i, 1) { 2u8 } else { 0u8 }) | (
    if on_side(n, i, 2) { 4u8 } else { 0u8 }))
}

pub open spec fn has_side_bit(m: u8, k: int) -> bool {
    if k == 0 {
        m & 1 != 0
    } else if k == 1 {
        m & 2 != 0
    } else {
        k == 2 && m & 4 != 0
    }
}

pub proof fn lemma_side_bits(a: bool, b: bool, c: bool)
    ensures
        ({
            let m = (if a { 1u8 } else { 0u8 }) | (if b { 2u8 } else { 0u8 }) | (if c {
                4u8
            } else {
                0u8
            });
            &&& has_side_bit(m, 0) == a
            &&& has_side_bit(m, 1) == b
            &&& has_side_bit(m, 2) == c
            &&& m < 8
        }),
{
    let x: u8 = if a { 1u8 } else { 0u8 };
    let y: u8 = if b { 2u8 } else { 0u8 };
    let z: u8 = if c { 4u8 } else { 0u8 };
    assert((x == 1u8 || x == 0u8) && (y == 2u8 || y == 0u8) && (z == 4u8 || z == 0u8) ==> ((
    x | y | z) & 1 != 0) == (x == 1u8) && ((x | y | z) & 2 != 0) == (y == 2u8) && ((x | y | z)
        & 4 != 0) == (z == 4u8) && (x | y | z) < 8) by (bit_vector);
}

/// The side bits of a cell's mask are exactly the sides it lies on.
pub proof fn lemma_side_mask(n: nat, i: int)
    ensures
        forall|k: int| 0 <= k < 3 ==> has_side_bit(side_mask(n, i), k) == on_side(n, i, k),
        side_mask(n, i) < 8,
{
    lemma_side_bits(on_side(n, i, 0), on_side(n, i, 1), on_side(n, i, 2));
}

/// Or-ing masks unites their side bits; a mask below 8 with all three bits is 7.
pub proof fn lemma_or_bits(a: u8, b: u8)
    ensures
        forall|k: int| 0 <= k < 3 ==> has_side_bit(a | b, k) == (has_side_bit(a, k) || has_side_bit(b, k)),
        a < 8 && b < 8 ==> (a | b) < 8,
        a < 8 ==> (a == 7 <==> (has_side_bit(a, 0) && has_side_bit(a, 1) && has_side_bit(a, 2))),
        forall|k: int| 0 <= k < 3 && has_side_bit(a, k) ==> a != 0,
{
    assert(a & 1 != 0 ==> a != 0) by (bit_vector);
    assert(a & 2 != 0 ==> a != 0) by (bit_vector);
    assert(a & 4 != 0 ==> a != 0) by (bit_vector);
    assert(((a | b) & 1 != 0) == (a & 1 != 0 || b & 1 != 0)) by (bit_vector);
    assert(((a | b) & 2 != 0) == (a & 2 != 0 || b & 2 != 0)) by (bit_vector);
    assert(((a | b) & 4 != 0) == (a & 4 != 0 || b & 4 != 0)) by (bit_vector);
    assert(a < 8 && b < 8 ==> (a | b) < 8) by (bit_vector);
    assert(a < 8 ==> (a == 7 <==> (a & 1 != 0 && a & 2 != 0 && a & 4 != 0))) by (bit_vector);
}

/// Row and column of a cell given by row and column.
pub proof fn lemma_index_of(n: nat, r: int, c: int)
    requires
        n > 0,
        r >= 0,
        0 <= c < n,
    ensures
        row_of(n, index_of(n, r, c)) == r,
        col_of(n, index_of(n, r, c)) == c,
{
    lemma_fundamental_div_mod_converse(r * n + c, n as int, r, c);
}

/// A cell is rebuilt from its row and column.
pub proof fn lemma_row_col(n: nat, i: int)
    requires
        n > 0,
        0 <= i,
    ensures
        index_of(n, row_of(n, i), col_of(n, i)) == i,
        0 <= col_of(n, i) < n,
        0 <= row_of(n, i),
        i < num_cells(n) ==> row_of(n, i) < n,
{
    lemma_fundamental_div_mod(i, n as int);
    assert(i == (n as int) * (i / (n as int)) + i % (n as int));
    assert((n as int) * (i / (n as int)) == (i / (n as int)) * (n as int)) by (nonlinear_arith);
    if i < num_cells(n) {
        let r = i / (n as int);
        if r >= n {
            assert(r * n >= n * n) by (nonlinear_arith)
                requires
                    r >= n,
                    n > 0,
            ;
        }
    }
}

/// Adjacency is symmetric.
pub proof fn lemma_adjacent_symmetric(n: nat, i: int, j: int)
    ensures
        adjacent(n, i, j) == adjacent(n, j, i),
{
    reveal(adjacent);
}

/// Adjacent cells are valid cells.
pub proof fn lemma_adjacent_valid(n: nat, i: int, j: int)
    requires
        adjacent(n, i, j),
    ensures
        is_valid_cell(n, i),
        is_valid_cell(n, j),
        0 <= i < num_cells(n),
        0 <= j < num_cells(n),
{
    reveal(adjacent);
}

/// A position on the triangular grid: `x + y + z == n - 1` on a board of side `n`.
#[derive(Clone, Copy, Debug, PartialEq, Eq, Structural)]
pub struct Coordinates {
    pub x: u32,
    pub y: u32,
    pub z: u32,
}

/// Coordinates of a valid cell.
pub open spec fn coords_of(n: nat, i: int) -> Coordinates {
    Coordinates { x: coord_x(n, i) as u32, y: coord_y(n, i) as u32, z: coord_z(n, i) as u32 }
}

impl Coordinates {
    pub fn new(x: u32, y: u32, z: u32) -> (r: Coordinates)
        ensures
            r == (Coordinates { x, y, z }),
    {
        Coordinates { x, y, z }
    }

    pub fn x(&self) -> (r: u32)
        ensures
            r == self.x,
    {
        self.x
    }

    pub fn y(&self) -> (r: u32)
        ensures
            r == self.y,
    {
        self.y
    }

    pub fn z(&self) -> (r: u32)
        ensures
            r == self.z,
    {
        self.z
    }

    /// The coordinates lie on a board of side `n`.
    pub open spec fn on_board(self, n: nat) -> bool {
        n > 0 && self.x + self.y + self.z == n - 1
    }

    /// `x` and `y` name a cell of a board of side `n`; `z` is implied by them.
    pub open spec fn names_cell(self, n: nat) -> bool {
        n > 0 && self.x + self.y <= n - 1
    }

    /// Cell index of these coordinates on a board of side `n`.
    pub open spec fn index_spec(self, n: nat) -> int {
        index_of(n, n - 1 - self.x, self.y as int)
    }

    /// Cell index of the cell named by `x` and `y` on a board of side
    /// `board_size`.
    pub fn to_index(&self, board_size: u32) -> (r: u32)
        requires
            board_size <= MAX_BOARD_SIZE,
            self.names_cell(board_size as nat),
        ensures
            r == self.index_spec(board_size as nat),
            is_valid_cell(board_size as nat, r as int),
            self.on_board(board_size as nat) ==> coords_of(board_size as nat, r as int) == *self,
    {
        let n = board_size;
        let r = n - 1 - self.x;
        assert(r * n <= (n - 1) * n) by (nonlinear_arith)
            requires
                r <= n - 1,
        ;
        assert((n - 1) * n + n == n * n) by (nonlinear_arith);
        assert(n * n <= 500 * 500) by (nonlinear_arith)
            requires
                n <= 500,
        ;
        proof {
            lemma_index_of(n as nat, r as int, self.y as int);
        }
        r * n + self.y
    }

    /// Coordinates of the valid cell `index` on a board of side `board_size`.
    pub fn from_index(index: u32, board_size: u32) -> (r: Coordinates)
        requires
            board_size <= MAX_BOARD_SIZE,
            is_valid_cell(board_size as nat, index as int),
        ensures
            r == coords_of(board_size as nat, index as int),
            r.on_board(board_size as nat),
            r.index_spec(board_size as nat) == index,
    {
        proof {
            lemma_row_col(board_size as nat, index as int);
        }
        let row = index / board_size;
        let col = index % board_size;
        Coordinates { x: board_size - 1 - row, y: col, z: row - col }
    }
}

} // verus!
