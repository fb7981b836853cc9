//! Colors, cell contents, positions and directions of the padded board.
//!
//! For an 8x8 board the cells live in an array of 46 slots; the playable
//! squares are found at these indices (top of the picture is line 1):
//!
//! ```text
//!    37  38  39  40
//!  32  33  34  35
//!    28  29  30  31
//!  23  24  25  26
//!    19  20  21  22
//!  14  15  16  17
//!    10  11  12  13
//!  05  06  07  08
//! ```
//!
//! Every other slot is padding, so that adding a direction offset to the
//! index of a square lands on padding exactly when the step leaves the board.
use vstd::prelude::*;

verus! {

/// Size of the board.
pub const N: usize = 8;

/// Maximum number of ply (moves) before declaring the game a draw.
pub const MAX_PLY: u16 = 100;

/// How many slots of the array are taken by the first (and by the last) padding line.
pub const PADDING_LINE_SIZE: usize = 5;

/// Number of playable squares on a line.
pub const CELLS_PER_ROW: usize = 4;

/// Distance between two consecutive internal padding slots.
pub const RECURRENCE_PADDING_CELL: usize = 9;

/// Number of slots of the padded array.
pub const NUM_CELLS: usize = 46;

/// Number of empty lines of the initial board, in squares.
pub const NUM_EMPTY_CELLS: usize = 8;

/// Number of pawns of each player in the initial board.
pub const NUM_PAWNS: usize = 12;

/// Longest straight move of a queen.
pub const QUEEN_MAX_MOVE_LENGTH: usize = 7;

#[derive(PartialEq, Eq, PartialOrd, Ord, Hash, Debug, Clone, Copy, Structural)]
pub enum Color {
    White,
    Black,
}

#[derive(PartialEq, Eq, PartialOrd, Ord, Hash, Debug, Clone, Copy, Structural)]
pub enum Cell {
    WhiteQueen,
    WhitePawn,
    Empty,
    BlackPawn,
    BlackQueen,
}

/// The other player.
pub open spec fn opponent(c: Color) -> Color {
    match c {
        Color::White => Color::Black,
        Color::Black => Color::White,
    }
}

pub open spec fn pawn_of(c: Color) -> Cell {
    match c {
        Color::White => Cell::WhitePawn,
        Color::Black => Cell::BlackPawn,
    }
}

pub open spec fn queen_of(c: Color) -> Cell {
    match c {
        Color::White => Cell::WhiteQueen,
        Color::Black => Cell::BlackQueen,
    }
}

/// The rank of a cell value in the order `W w . b B`.
pub open spec fn cell_rank(c: Cell) -> int {
    match c {
        Cell::WhiteQueen => 0,
        Cell::WhitePawn => 1,
        Cell::Empty => 2,
        Cell::BlackPawn => 3,
        Cell::BlackQueen => 4,
    }
}

/// The cell holds a piece of the opponent of `player`.
pub open spec fn is_adversary(c: Cell, player: Color) -> bool {
    match player {
        Color::White => c == Cell::BlackPawn || c == Cell::BlackQueen,
        Color::Black => c == Cell::WhitePawn || c == Cell::WhiteQueen,
    }
}

/// The cell holds a piece of `player`.
pub open spec fn is_own(c: Cell, player: Color) -> bool {
    c == pawn_of(player) || c == queen_of(player)
}

impl Color {
    pub fn pawn(&self) -> (r: Cell)
        ensures
            r == pawn_of(*self),
    {
        match self {
            Color::White => Cell::WhitePawn,
            Color::Black => Cell::BlackPawn,
        }
    }

    pub fn queen(&self) -> (r: Cell)
        ensures
            r == queen_of(*self),
    {
        match self {
            Color::White => Cell::WhiteQueen,
            Color::Black => Cell::BlackQueen,
        }
    }

    pub fn invert(&mut self)
        ensures
            *final(self) == opponent(*old(self)),
    {
        *self = match *self {
            Color::White => Color::Black,
            Color::Black => Color::White,
        };
    }
}

impl Cell {
    /// The rank of the cell value in the order `W=0 w=1 .=2 b=3 B=4`.
    pub fn rank(self) -> (r: i8)
        ensures
            r == cell_rank(self),
    {
        match self {
            Cell::WhiteQueen => 0,
            Cell::WhitePawn => 1,
            Cell::Empty => 2,
            Cell::BlackPawn => 3,
            Cell::BlackQueen => 4,
        }
    }

    /// True if the cell holds a piece of the opponent of `curr_player`.
    pub fn adversary(self, curr_player: Color) -> (r: bool)
        ensures
            r == is_adversary(self, curr_player),
    {
        match curr_player {
            Color::White => self.rank() >= 3,
            Color::Black => self.rank() <= 1,
        }
    }
}

/// The slot holds a playable square (not padding).
pub open spec fn is_playable(i: int) -> bool {
    5 <= i < 41 && i % 9 != 0
}

/// Line of a playable square, counted from the top (0) to the bottom (7).
pub open spec fn line_of(i: int) -> int {
    8 - ((if i % 9 < 5 { 0int } else { 1int }) + (i / 9) * 2)
}

/// Column of a playable square, from the left (0) to the right (7).
pub open spec fn column_of(i: int) -> int {
    if i % 9 < 5 {
        (i % 9) * 2 - 1
    } else {
        (i % 9 - 5) * 2
    }
}

/// The offset that a direction adds to an index.
pub open spec fn dir_offset(d: Dir) -> int {
    match d {
        Dir::UpLeft => 4,
        Dir::UpRight => 5,
        Dir::DownLeft => -5,
        Dir::DownRight => -4,
    }
}

/// The index reached from `i` after `k` steps in direction `d`.
pub open spec fn ray(i: int, d: Dir, k: int) -> int {
    match d {
        Dir::UpLeft => i + 4 * k,
        Dir::UpRight => i + 5 * k,
        Dir::DownLeft => i - 5 * k,
        Dir::DownRight => i - 4 * k,
    }
}

/// The four directions in the order in which moves are generated.
pub open spec fn all_dirs() -> Seq<Dir> {
    seq![Dir::UpLeft, Dir::UpRight, Dir::DownLeft, Dir::DownRight]
}

/// The directions in which the pawns of a player move.
pub open spec fn pawn_dirs(c: Color) -> Seq<Dir> {
    match c {
        Color::White => seq![Dir::UpLeft, Dir::UpRight],
        Color::Black => seq![Dir::DownLeft, Dir::DownRight],
    }
}

/// The playable indices below `k`, in increasing order.
pub open spec fn playable_below(k: int) -> Seq<int>
    decreases k,
{
    if k <= 0 {
        Seq::empty()
    } else if is_playable(k - 1) {
        playable_below(k - 1).push(k - 1)
    } else {
        playable_below(k - 1)
    }
}

/// All playable indices, in increasing order.
pub open spec fn playable_indices() -> Seq<int> {
    playable_below(41)
}

/// The playable indices below `k` are playable, below `k`, and increasing.
pub proof fn lemma_playable_below(k: int)
    ensures
        forall|j: int|
            0 <= j < playable_below(k).len() ==> is_playable(#[trigger] playable_below(k)[j])
                && playable_below(k)[j] < k,
        forall|i: int, j: int|
            0 <= i < j < playable_below(k).len() ==> playable_below(k)[i] < playable_below(k)[j],
    decreases k,
{
    if k > 0 {
        lemma_playable_below(k - 1);
        let p = playable_below(k - 1);
        if is_playable(k - 1) {
            assert forall|j: int| 0 <= j < playable_below(k).len() implies is_playable(
                #[trigger] playable_below(k)[j],
            ) && playable_below(k)[j] < k by {
                if j < p.len() {
                    assert(playable_below(k)[j] == p[j]);
                }
            }
            assert forall|i: int, j: int|
                0 <= i < j < playable_below(k).len() implies playable_below(k)[i] < playable_below(k)[j] by {
                assert(playable_below(k)[i] == p[i]);
                if j < p.len() {
                    assert(playable_below(k)[j] == p[j]);
                }
            }
        }
    }
}

/// There are 32 playable squares, each a slot of the padded array.
pub proof fn lemma_playable_indices()
    ensures
        playable_indices().len() == 32,
        forall|j: int|
            0 <= j < 32 ==> is_playable(#[trigger] playable_indices()[j]) && 5 <= playable_indices()[j] < 41,
        forall|i: int, j: int| 0 <= i < j < 32 ==> playable_indices()[i] < playable_indices()[j],
{
    lemma_playable_rows(8, 0);
    lemma_playable_below(41);
}

/// The index of the first playable square of line `m` (from the top).
pub open spec fn row_start(m: int) -> int {
    5 + ((7 - m) / 2) * 9 + ((7 - m) % 2) * 5
}

/// The squares listed by line (from the top), then by column.
pub proof fn lemma_row_square(m: int, j: int)
    requires
        0 <= m < 8,
        0 <= j < 4,
    ensures
        is_playable(row_start(m) + j),
        line_of(row_start(m) + j) == m,
        column_of(row_start(m) + j) == 2 * j + if m % 2 == 0 {
            1int
        } else {
            0int
        },
{
}

/// The square of a value read in `k`-th place: line `7 - k / 4` (from the
/// top), `k % 4`-th square of it.
pub open spec fn read_square(k: int) -> int {
    row_start(7 - k / 4) + k % 4
}

/// The playable indices, line by line from the bottom: the first `q` lines
/// and `t` squares of the next one.
pub proof fn lemma_playable_rows(q: int, t: int)
    requires
        0 <= q <= 8,
        0 <= t <= 4,
        q == 8 ==> t == 0,
    ensures
        playable_below(row_start(7 - q) + t) == Seq::new((4 * q + t) as nat, |k: int| read_square(k)),
    decreases q, t,
{
    if t > 0 {
        lemma_playable_rows(q, t - 1);
        let x = row_start(7 - q) + t - 1;
        lemma_row_square(7 - q, t - 1);
        assert((4 * q + t - 1) / 4 == q);
        assert((4 * q + t - 1) % 4 == t - 1);
        assert(playable_below(x + 1) =~= Seq::new((4 * q + t) as nat, |k: int| read_square(k)));
    } else if q > 0 {
        lemma_playable_rows(q - 1, 4);
        let a = row_start(7 - (q - 1)) + 4;
        let b = row_start(7 - q);
        if b != a {
            assert(b == a + 1);
            assert(!is_playable(a));
        }
    } else {
        reveal_with_fuel(playable_below, 6);
        assert(playable_below(5) =~= Seq::<int>::empty());
    }
}

/// The `k`-th playable index is the square of the `k`-th value read.
pub proof fn lemma_playable_indices_read()
    ensures
        playable_indices() == Seq::new(32, |k: int| read_square(k)),
{
    lemma_playable_rows(8, 0);
}

/// An index into the padded array (possibly a padding slot).
#[derive(Clone, Copy, Debug, Hash, PartialEq, Eq, PartialOrd, Ord, Structural)]
pub struct Index(pub usize);

impl Index {
    /// The index one step away in direction `rhs`.
    pub fn add_dir(self, rhs: Dir) -> (r: Index)
        requires
            0 <= self.0 + dir_offset(rhs) <= usize::MAX,
        ensures
            r.0 == self.0 + dir_offset(rhs),
    {
        match rhs {
            Dir::UpLeft => Index(self.0 + 4),
            Dir::UpRight => Index(self.0 + 5),
            Dir::DownLeft => Index(self.0 - 5),
            Dir::DownRight => Index(self.0 - 4),
        }
    }
}

/// A square of the board, given by its index into the padded array.
#[derive(PartialEq, Eq, PartialOrd, Ord, Hash, Debug, Clone, Copy)]
pub struct Position(i8);

impl View for Position {
    type V = int;

    closed spec fn view(&self) -> int {
        self.0 as int
    }
}

impl Position {
    /// All playable positions, in increasing index order.
    pub fn all() -> (r: Vec<Position>)
        ensures
            r@.len() == playable_indices().len(),
            forall|k: int| 0 <= k < r@.len() ==> r@[k]@ == #[trigger] playable_indices()[k],
    {
        let mut r: Vec<Position> = Vec::new();
        let mut i: usize = 0;
        while i < 41
            invariant
                i <= 41,
                r@.len() == playable_below(i as int).len(),
                forall|k: int| 0 <= k < r@.len() ==> r@[k]@ == #[trigger] playable_below(i as int)[k],
            decreases 41 - i,
        {
            if 5 <= i && i % 9 != 0 {
                r.push(Position::new(i as i8));
            }
            i += 1;
        }
        r
    }

    pub fn new(pos: i8) -> (r: Position)
        requires
            0 <= pos < 46,
        ensures
            r@ == pos,
    {
        Position(pos)
    }

    /// The index of the position in the padded array.
    pub fn index(self) -> (r: i8)
        ensures
            r == self@,
    {
        self.0
    }

    /// Line of the position, from the top (0) to the bottom (7).
    pub fn line(self) -> (r: u8)
        requires
            is_playable(self@),
        ensures
            r == line_of(self@),
            0 <= r < 8,
    {
        let i = self.0 as usize;
        let base: usize = if i % RECURRENCE_PADDING_CELL < PADDING_LINE_SIZE {
            0
        } else {
            1
        };
        let line_from_bottom = base + (i / RECURRENCE_PADDING_CELL) * 2 - 1;
        let line_from_top = N - line_from_bottom - 1;
        line_from_top as u8
    }

    /// Column of the position, from the left (0) to the right (7).
    pub fn column(self) -> (r: u8)
        requires
            is_playable(self@),
        ensures
            r == column_of(self@),
            0 <= r < 8,
    {
        let i = self.0 as usize % RECURRENCE_PADDING_CELL;
        let col = if i < PADDING_LINE_SIZE {
            (i - 1) * 2 + 1
        } else {
            (i - PADDING_LINE_SIZE) * 2
        };
        col as u8
    }

    pub fn coords(self) -> (r: (u8, u8))
        requires
            is_playable(self@),
        ensures
            r.0 == line_of(self@),
            r.1 == column_of(self@),
    {
        (self.line(), self.column())
    }

    /// The index one step away in direction `rhs`.
    pub fn add_dir(self, rhs: Dir) -> (r: Index)
        requires
            0 <= self@ < 46,
            0 <= self@ + dir_offset(rhs),
        ensures
            r.0 == self@ + dir_offset(rhs),
    {
        let i: i8 = match rhs {
            Dir::UpLeft => self.0 + 4,
            Dir::UpRight => self.0 + 5,
            Dir::DownLeft => self.0 - 5,
            Dir::DownRight => self.0 - 4,
        };
        Index(i as usize)
    }

    /// The position reached after the move `rhs`.
    pub fn add_move(self, rhs: Move) -> (r: Position)
        requires
            0 <= self@ < 46,
            0 <= ray(self@, rhs.dir, rhs.repeat as int) < 46,
        ensures
            r@ == ray(self@, rhs.dir, rhs.repeat as int),
    {
        let rep = rhs.repeat as i8;
        let i: i8 = match rhs.dir {
            Dir::UpLeft => self.0 + 4 * rep,
            Dir::UpRight => self.0 + 5 * rep,
            Dir::DownLeft => self.0 - 5 * rep,
            Dir::DownRight => self.0 - 4 * rep,
        };
        Position::new(i)
    }
}

/// A diagonal direction; "up" goes towards line 1 (higher indices).
#[derive(PartialEq, Eq, PartialOrd, Ord, Hash, Debug, Clone, Copy, Structural)]
pub enum Dir {
    UpLeft,
    UpRight,
    DownLeft,
    DownRight,
}

impl Dir {
    pub fn repeat(self, n: u8) -> (r: Move)
        ensures
            r.dir == self,
            r.repeat == n,
    {
        Move { dir: self, repeat: n }
    }

    /// The offset that the direction adds to an index.
    pub fn offset(self) -> (r: i8)
        ensures
            r == dir_offset(self),
    {
        match self {
            Dir::UpLeft => 4,
            Dir::UpRight => 5,
            Dir::DownLeft => -5,
            Dir::DownRight => -4,
        }
    }
}

/// A straight move: `repeat` steps in direction `dir`.
#[derive(PartialEq, Eq, PartialOrd, Ord, Hash, Debug, Clone, Copy, Structural)]
pub struct Move {
    pub dir: Dir,
    pub repeat: u8,
}

} // verus!
