//! The board and rules engine: a fixed 15x15 grid, legal placement,
//! and detection of line-of-five wins.

use vstd::prelude::*;

verus! {

/// A board coordinate: column then row, each in 0..15.
pub type Point = (usize, usize);

/// The state of one cell, or the side that owns a piece.
#[derive(Clone, Copy, Debug, PartialEq, Eq, Structural)]
pub enum Piece {
    Empty,
    White,
    Black,
}

/// The outcome of a successful move: the game goes on, the mover has
/// completed a run of five or more, or the board is full with no winner.
#[derive(Clone, Copy, Debug, PartialEq, Eq, Structural)]
pub enum GameEnd {
    NotEnd,
    Win,
    Draw,
}

/// The single recoverable error: a move onto an occupied or
/// out-of-bounds coordinate.
#[derive(Clone, Copy, Debug, PartialEq, Eq, Structural)]
pub enum MoveError {
    InvalidMove,
}

/// The mathematical model of a game state: the 225 cells of the board in
/// column-major order (cell (x, y) sits at index x * 15 + y), and the side
/// that moves next.
#[verifier::ext_equal]
pub struct BoardModel {
    pub cells: Seq<Piece>,
    pub turn: Piece,
}

/// Both coordinates lie on the board.
pub open spec fn in_bounds(x: int, y: int) -> bool {
    0 <= x < 15 && 0 <= y < 15
}

/// The cell of `m` at coordinate (x, y).
pub open spec fn cell(m: BoardModel, x: int, y: int) -> Piece {
    m.cells[x * 15 + y]
}

/// `p` denotes one of the two players, not an empty cell.
pub open spec fn is_side(p: Piece) -> bool {
    p == Piece::White || p == Piece::Black
}

/// The other player.
pub open spec fn opponent(p: Piece) -> Piece {
    match p {
        Piece::White => Piece::Black,
        Piece::Black => Piece::White,
        Piece::Empty => Piece::Empty,
    }
}

/// A well-formed model: exactly 225 cells and a real side to move.
pub open spec fn wf(m: BoardModel) -> bool {
    m.cells.len() == 225 && is_side(m.turn)
}

/// A unit step in one of the eight compass directions.
pub open spec fn is_dir(dx: int, dy: int) -> bool {
    -1 <= dx <= 1 && -1 <= dy <= 1 && !(dx == 0 && dy == 0)
}

/// The number of contiguous cells equal to `p` strictly beyond (x, y) in
/// direction (dx, dy); `fuel` bounds the walk and 15 exceeds any line on
/// the board.
pub open spec fn run_len(m: BoardModel, p: Piece, x: int, y: int, dx: int, dy: int, fuel: nat) -> nat
    decreases fuel,
{
    if fuel == 0 {
        0
    } else if !in_bounds(x + dx, y + dy) {
        0
    } else if cell(m, x + dx, y + dy) != p {
        0
    } else {
        1 + run_len(m, p, x + dx, y + dy, dx, dy, (fuel - 1) as nat)
    }
}

/// The length of the maximal contiguous run of `p` through (x, y) along
/// the axis (dx, dy): the cell itself plus both opposite senses.
pub open spec fn axis_run(m: BoardModel, p: Piece, x: int, y: int, dx: int, dy: int) -> nat {
    (1 + run_len(m, p, x, y, dx, dy, 15) + run_len(m, p, x, y, -dx, -dy, 15)) as nat
}

/// The longest run of `p` through (x, y) over the four axes:
/// horizontal, vertical, and the two diagonals.
pub open spec fn max_run(m: BoardModel, p: Piece, x: int, y: int) -> nat {
    let a = axis_run(m, p, x, y, 1, 0);
    let b = axis_run(m, p, x, y, 0, 1);
    let c = axis_run(m, p, x, y, 1, 1);
    let d = axis_run(m, p, x, y, 1, -1);
    if a >= b && a >= c && a >= d {
        a
    } else if b >= c && b >= d {
        b
    } else if c >= d {
        c
    } else {
        d
    }
}

/// Every cell is occupied.
pub open spec fn board_full(m: BoardModel) -> bool {
    forall|i: int| 0 <= i < 225 ==> m.cells[i] != Piece::Empty
}

/// A move is legal when its target is on the board and empty.
pub open spec fn move_valid(m: BoardModel, x: int, y: int) -> bool {
    in_bounds(x, y) && cell(m, x, y) == Piece::Empty
}

/// The state after the side to move places at (x, y): the cell is filled
/// and the turn flips.
pub open spec fn apply_move(m: BoardModel, x: int, y: int) -> BoardModel {
    BoardModel { cells: m.cells.update(x * 15 + y, m.turn), turn: opponent(m.turn) }
}

/// The outcome of a legal move at (x, y): a win when the placement
/// completes a run of five or more, a draw when it fills the board,
/// and otherwise the game continues.
pub open spec fn move_outcome(m: BoardModel, x: int, y: int) -> GameEnd {
    let m2 = apply_move(m, x, y);
    if max_run(m2, m.turn, x, y) >= 5 {
        GameEnd::Win
    } else if board_full(m2) {
        GameEnd::Draw
    } else {
        GameEnd::NotEnd
    }
}

/// A legal placement that completes a run of five or more for the mover
/// reports a win on exactly that move.
pub proof fn lemma_completing_run_wins(m: BoardModel, x: int, y: int)
    requires
        wf(m),
        move_valid(m, x, y),
        max_run(apply_move(m, x, y), m.turn, x, y) >= 5,
    ensures
        move_outcome(m, x, y) == GameEnd::Win,
{
}

/// A legal placement whose longest run through the placed cell stays
/// below five, on a board that is not yet full, lets the game continue.
pub proof fn lemma_short_run_continues(m: BoardModel, x: int, y: int)
    requires
        wf(m),
        move_valid(m, x, y),
        max_run(apply_move(m, x, y), m.turn, x, y) < 5,
        !board_full(apply_move(m, x, y)),
    ensures
        move_outcome(m, x, y) == GameEnd::NotEnd,
{
}

/// The grid and the turn marker. Mutated exclusively through `make_move`;
/// coordinates are always checked against the 15x15 bounds.
pub struct GameState {
    board: Vec<Piece>,
    current_turn: Piece,
}

impl View for GameState {
    type V = BoardModel;

    closed spec fn view(&self) -> BoardModel {
        BoardModel { cells: self.board@, turn: self.current_turn }
    }
}

impl GameState {
    /// An empty board; Black moves first.
    pub fn new() -> (r: Self)
        ensures
            wf(r@),
            r@.turn == Piece::Black,
            forall|i: int| 0 <= i < 225 ==> r@.cells[i] == Piece::Empty,
    {
        let mut board: Vec<Piece> = Vec::new();
        let mut i: usize = 0;
        while i < 225
            invariant
                i <= 225,
                board@.len() == i,
                forall|j: int| 0 <= j < i ==> board@[j] == Piece::Empty,
            decreases 225 - i,
        {
            board.push(Piece::Empty);
            i = i + 1;
        }
        GameState { board, current_turn: Piece::Black }
    }

    /// The side that moves next.
    pub fn current_turn(&self) -> (r: Piece)
        ensures
            r == self@.turn,
    {
        self.current_turn
    }

    /// The piece at `point`.
    pub fn piece(&self, point: Point) -> (r: Piece)
        requires
            wf(self@),
            in_bounds(point.0 as int, point.1 as int),
        ensures
            r == cell(self@, point.0 as int, point.1 as int),
    {
        self.board[point.0 * 15 + point.1]
    }

    /// An exact copy of the state.
    pub fn duplicate(&self) -> (r: Self)
        requires
            wf(self@),
        ensures
            r@ == self@,
    {
        let mut board: Vec<Piece> = Vec::new();
        let mut i: usize = 0;
        while i < 225
            invariant
                wf(self@),
                i <= 225,
                board@.len() == i,
                forall|j: int| 0 <= j < i ==> board@[j] == self@.cells[j],
            decreases 225 - i,
        {
            board.push(self.board[i]);
            i = i + 1;
        }
        let r = GameState { board, current_turn: self.current_turn };
        proof {
            assert(r@ =~= self@);
        }
        r
    }

    /// Whether two states have the same board contents and the same turn.
    pub fn same_state(&self, other: &GameState) -> (r: bool)
        requires
            wf(self@),
            wf(other@),
        ensures
            r == (self@ =~= other@),
    {
        if self.current_turn != other.current_turn {
            return false;
        }
        let mut i: usize = 0;
        while i < 225
            invariant
                wf(self@),
                wf(other@),
                i <= 225,
                self@.turn == other@.turn,
                forall|j: int| 0 <= j < i ==> self@.cells[j] == other@.cells[j],
            decreases 225 - i,
        {
            if self.board[i] != other.board[i] {
                return false;
            }
            i = i + 1;
        }
        proof {
            assert(self@ =~= other@);
        }
        true
    }

    /// The number of contiguous cells equal to `p` strictly beyond (x, y)
    /// in direction (dx, dy).
    fn walk(&self, p: Piece, x: usize, y: usize, dx: i32, dy: i32) -> (c: u32)
        requires
            wf(self@),
            in_bounds(x as int, y as int),
            is_dir(dx as int, dy as int),
        ensures
            c == run_len(self@, p, x as int, y as int, dx as int, dy as int, 15),
            c <= 14,
    {
        let mut c: u32 = 0;
        let mut cx: i32 = x as i32;
        let mut cy: i32 = y as i32;
        loop
            invariant
                wf(self@),
                is_dir(dx as int, dy as int),
                in_bounds(x as int, y as int),
                in_bounds(cx as int, cy as int),
                c <= 14,
                (dx == 1 ==> cx as int == x + c) && (dx == 0 ==> cx as int == x as int) && (dx
                    == -1 ==> cx as int == x - c),
                (dy == 1 ==> cy as int == y + c) && (dy == 0 ==> cy as int == y as int) && (dy
                    == -1 ==> cy as int == y - c),
                run_len(self@, p, x as int, y as int, dx as int, dy as int, 15) == c + run_len(
                    self@,
                    p,
                    cx as int,
                    cy as int,
                    dx as int,
                    dy as int,
                    (15 - c) as nat,
                ),
            ensures
                c <= 14,
                c == run_len(self@, p, x as int, y as int, dx as int, dy as int, 15),
            decreases 15 - c,
        {
            let nx = cx + dx;
            let ny = cy + dy;
            if nx < 0 || ny < 0 || nx >= 15 || ny >= 15 {
                proof {
                    assert(run_len(self@, p, cx as int, cy as int, dx as int, dy as int, (15
                        - c) as nat) == 0);
                }
                break;
            }
            if self.piece((nx as usize, ny as usize)) != p {
                proof {
                    assert(run_len(self@, p, cx as int, cy as int, dx as int, dy as int, (15
                        - c) as nat) == 0);
                }
                break;
            }
            c = c + 1;
            cx = nx;
            cy = ny;
        }
        c
    }

    /// The length of the contiguous run of `p` through `point` along the
    /// axis (dx, dy), counting the cell itself once.
    pub fn run_count(&self, p: Piece, point: Point, dx: i32, dy: i32) -> (r: u32)
        requires
            wf(self@),
            in_bounds(point.0 as int, point.1 as int),
            is_dir(dx as int, dy as int),
        ensures
            r as int == axis_run(self@, p, point.0 as int, point.1 as int, dx as int, dy as int),
            1 <= r <= 29,
    {
        let (x, y) = point;
        1 + self.walk(p, x, y, dx, dy) + self.walk(p, x, y, -dx, -dy)
    }

    /// The longest contiguous run through `point` of the piece standing
    /// there, taken over the four axes; the win check reports `Win` when
    /// this reaches 5.
    pub fn get_max_link_count(&self, point: Point) -> (r: u32)
        requires
            wf(self@),
            in_bounds(point.0 as int, point.1 as int),
        ensures
            r == max_run(self@, cell(self@, point.0 as int, point.1 as int), point.0 as int,
                point.1 as int),
    {
        let p = self.piece(point);
        let (x, y) = point;
        let a = 1 + self.walk(p, x, y, 1, 0) + self.walk(p, x, y, -1, 0);
        let b = 1 + self.walk(p, x, y, 0, 1) + self.walk(p, x, y, 0, -1);
        let cc = 1 + self.walk(p, x, y, 1, 1) + self.walk(p, x, y, -1, -1);
        let d = 1 + self.walk(p, x, y, 1, -1) + self.walk(p, x, y, -1, 1);
        let mut m = a;
        if b > m {
            m = b;
        }
        if cc > m {
            m = cc;
        }
        if d > m {
            m = d;
        }
        m
    }

    /// Whether every cell is occupied.
    pub fn board_is_full(&self) -> (r: bool)
        requires
            wf(self@),
        ensures
            r == board_full(self@),
    {
        let mut i: usize = 0;
        while i < 225
            invariant
                wf(self@),
                i <= 225,
                forall|j: int| 0 <= j < i ==> self@.cells[j] != Piece::Empty,
            decreases 225 - i,
        {
            if self.board[i] == Piece::Empty {
                return false;
            }
            i = i + 1;
        }
        true
    }

    /// Apply a move for the side to move. Fails, leaving the state
    /// unchanged, when the target is out of bounds or occupied; otherwise
    /// places the piece, flips the turn, and reports the outcome of the
    /// win check centered on the placement.
    pub fn make_move(&mut self, point: Point) -> (r: Result<GameEnd, MoveError>)
        requires
            wf(old(self)@),
        ensures
            wf(final(self)@),
            (move_valid(old(self)@, point.0 as int, point.1 as int) ==> final(self)@
                == apply_move(old(self)@, point.0 as int, point.1 as int) && r
                == Result::<GameEnd, MoveError>::Ok(move_outcome(old(self)@, point.0 as int,
                point.1 as int))),
            (!move_valid(old(self)@, point.0 as int, point.1 as int) ==> final(self)@ == old(
                self,
            )@ && r == Result::<GameEnd, MoveError>::Err(MoveError::InvalidMove)),
    {
        let (x, y) = point;
        if x >= 15 || y >= 15 {
            return Err(MoveError::InvalidMove);
        }
        if self.piece(point) != Piece::Empty {
            return Err(MoveError::InvalidMove);
        }
        let mover = self.current_turn;
        self.board.set(x * 15 + y, mover);
        self.current_turn = match mover {
            Piece::Black => Piece::White,
            Piece::White => Piece::Black,
            Piece::Empty => Piece::Empty,
        };
        proof {
            assert(self@ =~= apply_move(old(self)@, x as int, y as int));
        }
        let run = self.get_max_link_count(point);
        if run >= 5 {
            return Ok(GameEnd::Win);
        }
        if self.board_is_full() {
            return Ok(GameEnd::Draw);
        }
        Ok(GameEnd::NotEnd)
    }
}

} // verus!
