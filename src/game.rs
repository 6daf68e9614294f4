//! The live game: board size, stones, legal cells, and whose turn it is.
use crate::board::{indices_where, occupancy_ok, relabel, BoardState, OWN};
use crate::connect::{connects_all_sides, group_touches_all_sides, lemma_linked_ends, linked, owned_by};
use crate::geometry::{is_valid_cell, num_cells, Coordinates, MAX_BOARD_SIZE};
use vstd::prelude::*;

verus! {

/// One of the two players, 0 or 1.
#[derive(Clone, Copy, Debug, PartialEq, Eq, Structural)]
pub struct PlayerId {
    pub id: u32,
}

impl PlayerId {
    pub fn new(id: u32) -> (r: PlayerId)
        requires
            id < 2,
        ensures
            r.id == id,
    {
        PlayerId { id }
    }

    pub fn id(&self) -> (r: u32)
        ensures
            r == self.id,
    {
        self.id
    }
}

/// The cell token of a player's stones: 1 for player 0, 2 for player 1.
pub open spec fn token_of(p: PlayerId) -> u8 {
    if p.id == 0 {
        1
    } else {
        2
    }
}

pub open spec fn other_spec(p: PlayerId) -> PlayerId {
    PlayerId { id: if p.id == 0 { 1 } else { 0 } }
}

/// The opponent of `p`.
pub fn other_player(p: PlayerId) -> (r: PlayerId)
    requires
        p.id < 2,
    ensures
        r == other_spec(p),
{
    PlayerId { id: if p.id == 0 { 1 } else { 0 } }
}

#[derive(Clone, Copy, Debug, PartialEq, Eq, Structural)]
pub enum GameStatus {
    Ongoing { next_player: PlayerId },
    Finished { winner: PlayerId },
}

#[derive(Clone, Copy, Debug, PartialEq, Eq, Structural)]
pub enum Movement {
    Placement { player: PlayerId, coords: Coordinates },
}

#[derive(Clone, Copy, Debug, PartialEq, Eq, Structural)]
pub enum GameError {
    /// The game already has a winner.
    GameOver,
    /// The stone belongs to the player who is not to move.
    NotYourTurn,
    /// The coordinates name no cell of the board.
    OffBoard,
    /// The cell already holds a stone.
    Occupied,
}

/// Player `p`'s stones on `cells` connect all three sides.
pub open spec fn has_won(n: nat, cells: Seq<u8>, p: PlayerId) -> bool {
    connects_all_sides(n, owned_by(cells, token_of(p)))
}

/// The valid empty cells, in ascending order.
pub open spec fn free_cells(n: nat, cells: Seq<u8>) -> Seq<usize> {
    indices_where(|i: int| is_valid_cell(n, i) && cells[i] == 0, num_cells(n) as int)
}

#[derive(Clone, Debug)]
pub struct GameY {
    pub size: u32,
    /// Per cell: 0 empty, 1 a stone of player 0, 2 a stone of player 1.
    pub cells: Vec<u8>,
    /// The valid empty cells, in ascending order.
    pub available: Vec<u32>,
    pub status: GameStatus,
}

impl GameY {
    pub open spec fn n(&self) -> nat {
        self.size as nat
    }

    pub open spec fn wf(&self) -> bool {
        &&& 0 < self.size <= MAX_BOARD_SIZE
        &&& num_cells(self.n()) <= 250000
        &&& occupancy_ok(self.n(), self.cells@)
        &&& self.available@.len() == free_cells(self.n(), self.cells@).len()
        &&& forall|k: int|
            0 <= k < self.available@.len() ==> #[trigger] self.available@[k] as usize == free_cells(
                self.n(),
                self.cells@,
            )[k]
        &&& match self.status {
            GameStatus::Finished { winner } => winner.id < 2 && has_won(self.n(), self.cells@, winner),
            GameStatus::Ongoing { next_player } => next_player.id < 2 && !has_won(
                self.n(),
                self.cells@,
                PlayerId { id: 0 },
            ) && !has_won(self.n(), self.cells@, PlayerId { id: 1 }),
        }
    }

    /// The player to move, or `None` once the game has a winner.
    pub open spec fn next_spec(&self) -> Option<PlayerId> {
        match self.status {
            GameStatus::Ongoing { next_player } => Some(next_player),
            GameStatus::Finished { .. } => None,
        }
    }

    /// An empty board of side `size`; player 0 moves first.
    pub fn new(size: u32) -> (g: GameY)
        requires
            0 < size <= MAX_BOARD_SIZE,
        ensures
            g.wf(),
            g.size == size,
            g.cells@ == Seq::new(num_cells(size as nat), |i: int| 0u8),
            g.status == (GameStatus::Ongoing { next_player: PlayerId { id: 0 } }),
    {
        proof {
            crate::geometry::lemma_row_col(size as nat, 0);
        }
        let n = size as usize;
        assert(n * n <= 250000) by (nonlinear_arith)
            requires
                n <= 500,
        ;
        let total = n * n;
        let mut cells: Vec<u8> = Vec::new();
        let mut i: usize = 0;
        while i < total
            invariant
                i <= total,
                total == num_cells(size as nat),
                cells@ == Seq::new(i as nat, |k: int| 0u8),
            decreases total - i,
        {
            cells.push(0);
            i = i + 1;
            assert(cells@ =~= Seq::new(i as nat, |k: int| 0u8));
        }
        let available = free_cell_list(size, &cells);
        proof {
            lemma_nobody_won(size as nat, cells@, PlayerId { id: 0 });
            lemma_nobody_won(size as nat, cells@, PlayerId { id: 1 });
        }
        GameY { size, cells, available, status: GameStatus::Ongoing { next_player: PlayerId { id: 0 } } }
    }

    pub fn board_size(&self) -> (r: u32)
        ensures
            r == self.size,
    {
        self.size
    }

    pub fn status(&self) -> (r: &GameStatus)
        ensures
            *r == self.status,
    {
        &self.status
    }

    /// The valid empty cells, in ascending order.
    pub fn available_cells(&self) -> (r: &Vec<u32>)
        ensures
            r == &self.available,
    {
        &self.available
    }

    /// The player to move, or `None` once the game has a winner.
    pub fn next_player(&self) -> (r: Option<PlayerId>)
        ensures
            r == self.next_spec(),
    {
        match self.status {
            GameStatus::Ongoing { next_player } => Some(next_player),
            GameStatus::Finished { .. } => None,
        }
    }

    /// The game has a winner.
    pub fn check_game_over(&self) -> (r: bool)
        ensures
            r == (self.status is Finished),
    {
        match self.status {
            GameStatus::Ongoing { .. } => false,
            GameStatus::Finished { .. } => true,
        }
    }

    /// What keeps `m` from being played, if anything.
    pub open spec fn move_error(&self, m: Movement) -> Option<GameError> {
        match m {
            Movement::Placement { player, coords } => {
                if self.status is Finished {
                    Some(GameError::GameOver)
                } else if self.next_spec() != Some(player) {
                    Some(GameError::NotYourTurn)
                } else if !coords.names_cell(self.n()) {
                    Some(GameError::OffBoard)
                } else if self.cells@[coords.index_spec(self.n())] != 0 {
                    Some(GameError::Occupied)
                } else {
                    None
                }
            },
        }
    }

    /// Plays `m`: the stone is placed, the legal cells and the status follow.
    pub fn add_move(&mut self, m: Movement) -> (r: Result<(), GameError>)
        requires
            old(self).wf(),
        ensures
            final(self).wf(),
            final(self).size == old(self).size,
            r is Err <==> old(self).move_error(m) is Some,
            r is Err ==> r == Err::<(), GameError>(old(self).move_error(m).unwrap()) && *final(self)
                == *old(self),
            r is Ok ==> ({
                let Movement::Placement { player, coords } = m;
                let after = old(self).cells@.update(
                    coords.index_spec(old(self).n()),
                    token_of(player),
                );
                &&& final(self).cells@ == after
                &&& final(self).status == if has_won(old(self).n(), after, player) {
                    GameStatus::Finished { winner: player }
                } else {
                    GameStatus::Ongoing { next_player: other_spec(player) }
                }
            }),
    {
        let Movement::Placement { player, coords } = m;
        let next = match self.status {
            GameStatus::Finished { .. } => {
                return Err(GameError::GameOver);
            },
            GameStatus::Ongoing { next_player } => next_player,
        };
        if next != player {
            return Err(GameError::NotYourTurn);
        }
        let n = self.size;
        if coords.x >= n || coords.y > n - 1 - coords.x {
            return Err(GameError::OffBoard);
        }
        let idx = coords.to_index(n) as usize;
        if self.cells[idx] != 0 {
            return Err(GameError::Occupied);
        }
        let token: u8 = if player.id == 0 {
            1
        } else {
            2
        };
        let ghost before = self.cells@;
        self.cells.set(idx, token);
        self.available = free_cell_list(n, &self.cells);
        let mut board = BoardState::from_cells(n, &self.cells, token);
        let won = board.has_connected_all_sides(OWN);
        proof {
            lemma_relabel_own(self.cells@, token);
            let other = other_spec(player);
            assert(owned_by(self.cells@, token_of(other)) =~= owned_by(before, token_of(other)));
        }
        if won {
            self.status = GameStatus::Finished { winner: player };
        } else {
            self.status = GameStatus::Ongoing { next_player: other_player(player) };
        }
        Ok(())
    }
}

impl GameY {
    /// An independent copy of the game.
    pub fn snapshot(&self) -> (r: GameY)
        ensures
            r.size == self.size,
            r.cells@ == self.cells@,
            r.available@ == self.available@,
            r.status == self.status,
    {
        let mut cells: Vec<u8> = Vec::new();
        let mut i: usize = 0;
        while i < self.cells.len()
            invariant
                i <= self.cells@.len(),
                cells@ == self.cells@.subrange(0, i as int),
            decreases self.cells@.len() - i,
        {
            cells.push(self.cells[i]);
            i = i + 1;
            assert(cells@ =~= self.cells@.subrange(0, i as int));
        }
        let mut available: Vec<u32> = Vec::new();
        let mut j: usize = 0;
        while j < self.available.len()
            invariant
                j <= self.available@.len(),
                available@ == self.available@.subrange(0, j as int),
            decreases self.available@.len() - j,
        {
            available.push(self.available[j]);
            j = j + 1;
            assert(available@ =~= self.available@.subrange(0, j as int));
        }
        assert(cells@ =~= self.cells@);
        assert(available@ =~= self.available@);
        GameY { size: self.size, cells, available, status: self.status }
    }
}

/// The stones of `own` are the cells that read 1 after relabelling for `own`.
pub proof fn lemma_relabel_own(cells: Seq<u8>, own: u8)
    requires
        own == 1 || own == 2,
    ensures
        owned_by(cells.map_values(|c: u8| relabel(c, own)), OWN) == owned_by(cells, own),
{
    assert(owned_by(cells.map_values(|c: u8| relabel(c, own)), OWN) =~= owned_by(cells, own));
}

/// After relabelling for `own`, the opponent's stones are those of the other token.
pub proof fn lemma_relabel_opponent(cells: Seq<u8>, own: u8)
    requires
        own == 1 || own == 2,
        forall|i: int| 0 <= i < cells.len() ==> #[trigger] cells[i] <= 2,
    ensures
        owned_by(cells.map_values(|c: u8| relabel(c, own)), crate::board::OPPONENT) == owned_by(
            cells,
            crate::board::other_token(own),
        ),
{
    assert(owned_by(cells.map_values(|c: u8| relabel(c, own)), crate::board::OPPONENT) =~= owned_by(
        cells,
        crate::board::other_token(own),
    ));
}

/// On a board with no stone of `p`, `p` has not won.
proof fn lemma_nobody_won(n: nat, cells: Seq<u8>, p: PlayerId)
    requires
        forall|i: int| 0 <= i < cells.len() ==> cells[i] == 0,
        forall|i: int| is_valid_cell(n, i) ==> i < cells.len(),
    ensures
        !has_won(n, cells, p),
{
    let owned = owned_by(cells, token_of(p));
    if connects_all_sides(n, owned) {
        let s = choose|s: int| #[trigger] group_touches_all_sides(n, owned, s);
        let (a, b, c) = choose|a: int, b: int, c: int|
            #![trigger linked(n, owned, s, a), linked(n, owned, s, b), linked(n, owned, s, c)]
            linked(n, owned, s, a) && crate::geometry::on_side(n, a, 0) && linked(n, owned, s, b)
                && crate::geometry::on_side(n, b, 1) && linked(n, owned, s, c)
                && crate::geometry::on_side(n, c, 2);
        lemma_linked_ends(n, owned, s, a);
    }
}

/// The valid empty cells of `cells`, in ascending order.
fn free_cell_list(size: u32, cells: &Vec<u8>) -> (r: Vec<u32>)
    requires
        0 < size <= MAX_BOARD_SIZE,
        cells@.len() == num_cells(size as nat),
    ensures
        r@.len() == free_cells(size as nat, cells@).len(),
        forall|k: int|
            0 <= k < r@.len() ==> #[trigger] r@[k] as usize == free_cells(size as nat, cells@)[k],
{
    let n = size as usize;
    let ghost nn = size as nat;
    let ghost p = |i: int| is_valid_cell(nn, i) && cells@[i] == 0;
    assert(n * n <= 250000) by (nonlinear_arith)
        requires
            n <= 500,
    ;
    let total = n * n;
    let mut r: Vec<u32> = Vec::new();
    let mut i: usize = 0;
    while i < total
        invariant
            0 < n <= MAX_BOARD_SIZE,
            nn == n as nat,
            total == num_cells(nn),
            total <= 250000,
            cells@.len() == total,
            i <= total,
            forall|j: int| #[trigger] p(j) == (is_valid_cell(nn, j) && cells@[j] == 0),
            r@.len() == indices_where(p, i as int).len(),
            forall|k: int| 0 <= k < r@.len() ==> #[trigger] r@[k] as usize == indices_where(p, i as int)[k],
        decreases total - i,
    {
        assert(indices_where(p, i + 1) == if p(i as int) {
            indices_where(p, i as int).push(i)
        } else {
            indices_where(p, i as int)
        });
        let valid = i % n <= i / n;
        assert(valid == is_valid_cell(nn, i as int));
        if valid && cells[i] == 0 {
            r.push(i as u32);
        }
        i = i + 1;
    }
    r
}

} // verus!
