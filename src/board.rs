//! The 3x3 board, its moves, and how a game ends.
use vstd::prelude::*;
use vstd::string::StringExecFns;

verus! {

/// One of the two sides. `A` plays "X" and moves first.
#[derive(Clone, Copy, Debug, PartialEq, Eq, Structural)]
pub enum Player {
    A,
    B,
}

/// The content of one square.
#[derive(Clone, Copy, Debug, PartialEq, Eq, Structural)]
pub enum Cell {
    Empty,
    Filled(Player),
}

/// Where a game stands.
#[derive(Clone, Copy, Debug, PartialEq, Eq, Structural)]
pub enum Outcome {
    InProgress,
    Won(Player),
    Draw,
}

impl Player {
    pub open spec fn spec_other(self) -> Player {
        match self {
            Player::A => Player::B,
            Player::B => Player::A,
        }
    }

    /// The side that moves after this one.
    pub fn other(self) -> (r: Player)
        ensures
            r == self.spec_other(),
    {
        match self {
            Player::A => Player::B,
            Player::B => Player::A,
        }
    }
}

/// The three squares of winning line `n` (rows, then columns, then the two diagonals).
pub open spec fn line(n: int) -> (int, int, int) {
    if n == 0 {
        (0, 1, 2)
    } else if n == 1 {
        (3, 4, 5)
    } else if n == 2 {
        (6, 7, 8)
    } else if n == 3 {
        (0, 3, 6)
    } else if n == 4 {
        (1, 4, 7)
    } else if n == 5 {
        (2, 5, 8)
    } else if n == 6 {
        (0, 4, 8)
    } else {
        (2, 4, 6)
    }
}

/// Line `n` of `c` is held entirely by `p`.
pub open spec fn line_full_of(c: Seq<Cell>, n: int, p: Player) -> bool {
    let (i, j, k) = line(n);
    &&& c[i] == Cell::Filled(p)
    &&& c[j] == Cell::Filled(p)
    &&& c[k] == Cell::Filled(p)
}

/// The player holding all of line `n`, if one does.
pub open spec fn line_owner(c: Seq<Cell>, n: int) -> Option<Player> {
    let (i, j, k) = line(n);
    if c[i] == c[j] && c[j] == c[k] {
        match c[i] {
            Cell::Filled(p) => Some(p),
            Cell::Empty => None,
        }
    } else {
        None
    }
}

/// The owner of the first completed line among lines `n..8`.
pub open spec fn winner_from(c: Seq<Cell>, n: int) -> Option<Player>
    decreases 8 - n,
{
    if n >= 8 {
        None
    } else if line_owner(c, n) is Some {
        line_owner(c, n)
    } else {
        winner_from(c, n + 1)
    }
}

/// The owner of a completed line of `c`, if any.
pub open spec fn winner(c: Seq<Cell>) -> Option<Player> {
    winner_from(c, 0)
}

/// The empty squares among `k..9`, ascending.
pub open spec fn empties_from(c: Seq<Cell>, k: int) -> Seq<i8>
    decreases 9 - k,
{
    if k >= 9 {
        Seq::empty()
    } else if c[k] == Cell::Empty {
        seq![k as i8] + empties_from(c, k + 1)
    } else {
        empties_from(c, k + 1)
    }
}

/// The legal moves on cells `c`: every empty square, ascending.
pub open spec fn legal(c: Seq<Cell>) -> Seq<i8> {
    empties_from(c, 0)
}

/// The number of filled squares.
pub open spec fn ply(c: Seq<Cell>) -> int {
    9 - legal(c).len()
}

/// The outcome that cells `c` call for: a completed line wins, else a full grid is a draw.
pub open spec fn outcome_of(c: Seq<Cell>) -> Outcome {
    match winner(c) {
        Some(p) => Outcome::Won(p),
        None => if legal(c).len() == 0 {
            Outcome::Draw
        } else {
            Outcome::InProgress
        },
    }
}

/// The squares of winning line `n`, as in `line`.
fn line_cells(n: usize) -> (r: (usize, usize, usize))
    requires
        n < 8,
    ensures
        r.0 as int == line(n as int).0,
        r.1 as int == line(n as int).1,
        r.2 as int == line(n as int).2,
{
    if n == 0 {
        (0, 1, 2)
    } else if n == 1 {
        (3, 4, 5)
    } else if n == 2 {
        (6, 7, 8)
    } else if n == 3 {
        (0, 3, 6)
    } else if n == 4 {
        (1, 4, 7)
    } else if n == 5 {
        (2, 5, 8)
    } else if n == 6 {
        (0, 4, 8)
    } else {
        (2, 4, 6)
    }
}

/// The three characters that show a square: blank, " X " for `A`, " O " for `B`.
pub open spec fn symbol(c: Cell) -> Seq<char> {
    match c {
        Cell::Empty => seq![' ', ' ', ' '],
        Cell::Filled(Player::A) => seq![' ', 'X', ' '],
        Cell::Filled(Player::B) => seq![' ', 'O', ' '],
    }
}

/// Row `r` of the grid as text: three symbols separated by bars.
pub open spec fn row_text(c: Seq<Cell>, r: int) -> Seq<char> {
    symbol(c[3 * r]) + seq!['|'] + symbol(c[3 * r + 1]) + seq!['|'] + symbol(c[3 * r + 2])
}

/// The rule drawn between rows.
pub open spec fn rule_text() -> Seq<char> {
    seq!['-', '-', '-', '-', '-', '-', '-', '-', '-', '-', '-']
}

/// The whole grid as text, starting with a line break and ending each row with one.
pub open spec fn board_text(c: Seq<Cell>) -> Seq<char> {
    seq!['\n'] + row_text(c, 0) + seq!['\n'] + rule_text() + seq!['\n'] + row_text(c, 1) + seq![
        '\n',
    ] + rule_text() + seq!['\n'] + row_text(c, 2) + seq!['\n']
}

/// The model of a board: its squares, the side to move, the outcome, and the bot's side.
pub struct BoardState {
    pub cells: Seq<Cell>,
    pub to_move: Player,
    pub outcome: Outcome,
    pub bot: Option<Player>,
}

/// The board after the side to move fills empty square `m` of `b`.
pub open spec fn play(b: BoardState, m: int) -> BoardState {
    let cells = b.cells.update(m, Cell::Filled(b.to_move));
    BoardState { cells, to_move: b.to_move.spec_other(), outcome: outcome_of(cells), bot: b.bot }
}

/// A snapshot of a game: the grid in row-major order, whose turn it is, how the game
/// stands, and which side (if any) the computer plays.
#[derive(Clone, Copy, Debug)]
pub struct Board {
    pub cells: [Cell; 9],
    pub to_move: Player,
    pub outcome: Outcome,
    pub bot: Option<Player>,
}

/// Why a chosen square cannot be played.
#[derive(Clone, Copy, Debug, PartialEq, Eq, Structural)]
pub enum MoveError {
    OutOfRange,
    Occupied,
}

/// The error of a move onto a square that is already taken.
#[derive(Debug)]
pub struct SpaceOccupied {
    pub details: String,
}

impl SpaceOccupied {
    pub fn new(msg: &str) -> (r: SpaceOccupied)
        ensures
            r.details@ == msg@,
    {
        SpaceOccupied { details: msg.to_owned() }
    }
}

impl View for Board {
    type V = BoardState;

    open spec fn view(&self) -> BoardState {
        BoardState { cells: self.cells@, to_move: self.to_move, outcome: self.outcome, bot: self.bot }
    }
}

/// `x` is a legal move on `c` exactly when it names an empty square.
pub proof fn lemma_empties_from(c: Seq<Cell>, k: int)
    requires
        0 <= k <= 9,
        c.len() == 9,
    ensures
        empties_from(c, k).len() <= 9 - k,
        forall|x: int|
            #![trigger empties_from(c, k).contains(x as i8)]
            0 <= x < 9 ==> (empties_from(c, k).contains(x as i8) <==> (k <= x && c[x]
                == Cell::Empty)),
        forall|i: int|
            0 <= i < empties_from(c, k).len() ==> k <= #[trigger] empties_from(c, k)[i] < 9,
        forall|i: int, j: int|
            0 <= i < j < empties_from(c, k).len() ==> #[trigger] empties_from(c, k)[i]
                < #[trigger] empties_from(c, k)[j],
    decreases 9 - k,
{
    if k < 9 {
        lemma_empties_from(c, k + 1);
        let rest = empties_from(c, k + 1);
        if c[k] == Cell::Empty {
            let s = seq![k as i8] + rest;
            assert forall|x: int| 0 <= x < 9 implies (#[trigger] s.contains(x as i8) <==> (k <= x
                && c[x] == Cell::Empty)) by {
                if x == k {
                    assert(s[0] == x as i8);
                }
                if rest.contains(x as i8) {
                    let i = choose|i: int| 0 <= i < rest.len() && rest[i] == x as i8;
                    assert(s[i + 1] == x as i8);
                }
                if s.contains(x as i8) && x != k {
                    let i = choose|i: int| 0 <= i < s.len() && s[i] == x as i8;
                    assert(rest[i - 1] == x as i8);
                }
            }
        }
    }
}

/// Filling an empty square removes exactly one legal move.
pub proof fn lemma_fill_one(c: Seq<Cell>, m: int, p: Player, k: int)
    requires
        c.len() == 9,
        0 <= m < 9,
        0 <= k <= 9,
        c[m] == Cell::Empty,
    ensures
        k <= m ==> empties_from(c.update(m, Cell::Filled(p)), k).len() == empties_from(c, k).len()
            - 1,
        k > m ==> empties_from(c.update(m, Cell::Filled(p)), k) == empties_from(c, k),
    decreases 9 - k,
{
    if k < 9 {
        lemma_fill_one(c, m, p, k + 1);
    }
}

/// `winner_from` names a player only for a line that player fully holds, and names
/// none only when no line from `n` on is fully held.
proof fn lemma_winner_from(c: Seq<Cell>, n: int)
    requires
        0 <= n <= 8,
    ensures
        winner_from(c, n) matches Some(p) ==> exists|m: int| n <= m < 8 && line_full_of(c, m, p),
        winner_from(c, n) is None ==> forall|m: int, p: Player|
            n <= m < 8 ==> !line_full_of(c, m, p),
    decreases 8 - n,
{
    if n < 8 {
        lemma_winner_from(c, n + 1);
        if let Some(p) = line_owner(c, n) {
            assert(line_full_of(c, n, p));
        }
        assert forall|m: int, p: Player| n <= m < 8 && line_full_of(c, m, p) implies line_owner(
            c,
            m,
        ) == Some(p) by {}
    }
}

/// A board recorded as won by `p` has a row, column or diagonal held entirely by `p`.
pub proof fn lemma_won_has_line(b: Board, p: Player)
    requires
        b.wf(),
        b.outcome == Outcome::Won(p),
    ensures
        exists|n: int| 0 <= n < 8 && line_full_of(b.cells@, n, p),
{
    lemma_winner_from(b.cells@, 0);
}

/// A board recorded as drawn has no legal move left and no completed line.
pub proof fn lemma_draw_is_full_without_line(b: Board)
    requires
        b.wf(),
        b.outcome == Outcome::Draw,
    ensures
        legal(b.cells@).len() == 0,
        forall|n: int, p: Player| 0 <= n < 8 ==> !line_full_of(b.cells@, n, p),
{
    lemma_winner_from(b.cells@, 0);
}

impl Board {
    /// This board's model is consistent: its outcome is what its squares call for.
    pub open spec fn wf(&self) -> bool {
        self.outcome == outcome_of(self.cells@)
    }

    /// A fresh game: all squares empty, `A` to move, the computer playing `bot`.
    pub fn new(bot: Option<Player>) -> (r: Board)
        ensures
            r.wf(),
            r@.cells == Seq::new(9, |i: int| Cell::Empty),
            r.to_move == Player::A,
            r.outcome == Outcome::InProgress,
            r.bot == bot,
    {
        let r = Board { cells: [Cell::Empty; 9], to_move: Player::A, outcome: Outcome::InProgress, bot };
        proof {
            assert(r@.cells =~= Seq::new(9, |i: int| Cell::Empty));
            assert(line_owner(r@.cells, 0) is None);
            assert(winner_from(r@.cells, 0) == None::<Player>) by {
                reveal_with_fuel(winner_from, 9);
            }
            lemma_empties_from(r@.cells, 0);
            assert(legal(r@.cells).contains(0));
        }
        r
    }

    /// The side to move.
    pub fn to_move(&self) -> (r: Player)
        ensures
            r == self.to_move,
    {
        self.to_move
    }

    /// How the game stands.
    pub fn outcome(&self) -> (r: Outcome)
        ensures
            r == self.outcome,
    {
        self.outcome
    }

    /// The owner of a completed line, if any.
    pub fn check_for_win(&self) -> (r: Option<Player>)
        ensures
            r == winner(self.cells@),
    {
        let mut n: usize = 0;
        while n < 8
            invariant
                n <= 8,
                winner_from(self.cells@, n as int) == winner(self.cells@),
            decreases 8 - n,
        {
            let (i, j, k) = line_cells(n);
            if self.cells[i] == self.cells[j] && self.cells[j] == self.cells[k] {
                if let Cell::Filled(p) = self.cells[i] {
                    return Some(p);
                }
            }
            n = n + 1;
        }
        None
    }

    /// Every empty square, ascending.
    pub fn get_moves(&self) -> (r: Vec<i8>)
        ensures
            r@ == legal(self.cells@),
    {
        let mut moves: Vec<i8> = Vec::new();
        let mut k: usize = 0;
        while k < 9
            invariant
                k <= 9,
                moves@ + empties_from(self.cells@, k as int) == legal(self.cells@),
            decreases 9 - k,
        {
            if self.cells[k] == Cell::Empty {
                proof {
                    assert(moves@ + empties_from(self.cells@, k as int) =~= moves@.push(k as i8)
                        + empties_from(self.cells@, k + 1));
                }
                moves.push(k as i8);
            }
            k = k + 1;
        }
        proof {
            assert(moves@ + empties_from(self.cells@, 9) =~= moves@);
        }
        moves
    }

    /// The number of filled squares.
    pub fn get_depth(&self) -> (r: i8)
        ensures
            r == ply(self.cells@),
            0 <= r <= 9,
    {
        let mut empty: i8 = 0;
        let mut k: usize = 0;
        proof {
            lemma_empties_from(self.cells@, 0);
        }
        while k < 9
            invariant
                k <= 9,
                empty + empties_from(self.cells@, k as int).len() == legal(self.cells@).len(),
                0 <= empty <= k,
            decreases 9 - k,
        {
            if self.cells[k] == Cell::Empty {
                empty = empty + 1;
            }
            k = k + 1;
        }
        9 - empty
    }

    /// Sets the outcome to what the squares call for: a completed line wins, even on a
    /// full grid; otherwise a full grid is a draw.
    pub fn check_for_end(&mut self)
        ensures
            final(self).cells == old(self).cells,
            final(self).to_move == old(self).to_move,
            final(self).bot == old(self).bot,
            final(self).wf(),
    {
        match self.check_for_win() {
            Some(p) => {
                self.outcome = Outcome::Won(p);
            },
            None => {
                let moves = self.get_moves();
                if moves.len() == 0 {
                    self.outcome = Outcome::Draw;
                } else {
                    self.outcome = Outcome::InProgress;
                }
            },
        }
    }

    /// Fills square `index` (row `index / 3`, column `index % 3`) with the mover's mark
    /// and hands the turn over, in a new board; fails when the square is taken.
    pub fn make_move(&self, index: i8) -> (r: Result<Board, SpaceOccupied>)
        requires
            0 <= index < 9,
        ensures
            self.cells[index as int] != Cell::Empty <==> r is Err,
            r matches Ok(b) ==> b@ == play(self@, index as int) && b.wf(),
            r matches Err(e) ==> e.details@ == "Space already occupied!"@,
    {
        let y: usize = (index / 3) as usize;
        let x: usize = (index % 3) as usize;
        let at: usize = y * 3 + x;
        if self.cells[at] != Cell::Empty {
            proof {
                reveal_strlit("Space already occupied!");
            }
            return Err(SpaceOccupied::new("Space already occupied!"));
        }
        let mut next = *self;
        next.cells[at] = Cell::Filled(self.to_move);
        next.to_move = self.to_move.other();
        next.check_for_end();
        Ok(next)
    }
}

/// Appends the symbol of `c` to `out`.
fn push_symbol(out: &mut String, c: Cell)
    ensures
        final(out)@ == old(out)@ + symbol(c),
{
    match c {
        Cell::Empty => {
            proof {
                reveal_strlit("   ");
            }
            out.append("   ");
        },
        Cell::Filled(Player::A) => {
            proof {
                reveal_strlit(" X ");
            }
            out.append(" X ");
        },
        Cell::Filled(Player::B) => {
            proof {
                reveal_strlit(" O ");
            }
            out.append(" O ");
        },
    }
}

/// Appends row `r` of `cells` to `out`.
fn push_row(out: &mut String, cells: &[Cell; 9], r: usize)
    requires
        r < 3,
    ensures
        final(out)@ == old(out)@ + row_text(cells@, r as int),
{
    proof {
        reveal_strlit("|");
    }
    let ghost start = out@;
    let c0 = cells[3 * r];
    let c1 = cells[3 * r + 1];
    let c2 = cells[3 * r + 2];
    push_symbol(out, c0);
    out.append("|");
    let ghost mid = out@;
    assert(mid =~= start + symbol(c0) + seq!['|']);
    push_symbol(out, c1);
    out.append("|");
    let ghost late = out@;
    assert(late =~= mid + symbol(c1) + seq!['|']);
    push_symbol(out, c2);
    assert(out@ =~= start + row_text(cells@, r as int));
}

impl Board {
    /// The grid as text, one line per row and a rule between rows.
    pub fn render(&self) -> (r: String)
        ensures
            r@ == board_text(self.cells@),
    {
        proof {
            reveal_strlit("\n");
            reveal_strlit("-----------");
        }
        let mut out = String::from_str("\n");
        push_row(&mut out, &self.cells, 0);
        out.append("\n");
        out.append("-----------");
        out.append("\n");
        push_row(&mut out, &self.cells, 1);
        out.append("\n");
        out.append("-----------");
        out.append("\n");
        push_row(&mut out, &self.cells, 2);
        out.append("\n");
        proof {
            assert("-----------"@ =~= rule_text());
            assert(out@ =~= board_text(self.cells@));
        }
        out
    }
}

impl Board {
    /// Checks a square chosen by a player: it must lie in `0..9` and be empty.
    pub fn validate_move(&self, index: i8) -> (r: Result<(), MoveError>)
        ensures
            !(0 <= index < 9) <==> r == Err::<(), MoveError>(MoveError::OutOfRange),
            0 <= index < 9 ==> (r == Err::<(), MoveError>(MoveError::Occupied) <==> self.cells[index as int]
                != Cell::Empty),
            r is Ok <==> legal(self.cells@).contains(index),
    {
        proof {
            lemma_empties_from(self.cells@, 0);
            assert(legal(self.cells@).contains(index) ==> 0 <= index < 9);
            if 0 <= index < 9 {
                assert(legal(self.cells@).contains((index as int) as i8) <==> self.cells[index as int] == Cell::Empty);
            }
        }
        if index < 0 || index >= 9 {
            return Err(MoveError::OutOfRange);
        }
        if self.cells[index as usize] != Cell::Empty {
            return Err(MoveError::Occupied);
        }
        Ok(())
    }
}

} // verus!
