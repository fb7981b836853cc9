//! The board: the piece in each slot of the padded array, the player to
//! move, and the number of plies played.
use vstd::prelude::*;
use crate::action::Action;
use crate::geometry::{
    Cell, Color, Index, Move, Position, is_adversary, is_playable, opponent, ray, CELLS_PER_ROW,
    MAX_PLY, NUM_CELLS, PADDING_LINE_SIZE,
};
use crate::rules::{
    ActionModel, after_move, applicable, applied, apply_moves, cleared, end_pos, move_ok,
    moves_ok,
};

verus! {

/// Board representation:
///  - the piece in each cell of the board (`None` for a padding slot)
///  - which player is the next to play
///  - how many plies have been played since the beginning.
#[derive(PartialEq, Eq, PartialOrd, Ord, Hash, Debug, Clone)]
pub struct Board {
    cells: [Option<Cell>; NUM_CELLS],
    /// Indicates the color of the next player to move
    pub turn: Color,
    /// How many ply (actions) have been played since the beginning
    pub num_ply: u16,
}

impl View for Board {
    type V = Seq<Option<Cell>>;

    /// The content of the 46 slots of the padded array.
    closed spec fn view(&self) -> Seq<Option<Cell>> {
        self.cells@
    }
}

impl Board {
    /// The player to move.
    pub closed spec fn spec_turn(&self) -> Color {
        self.turn
    }

    /// The number of plies played.
    pub closed spec fn spec_num_ply(&self) -> int {
        self.num_ply as int
    }
}

pub broadcast proof fn lemma_board_len(b: Board)
    ensures
        #[trigger] b@.len() == 46,
        0 <= b.spec_num_ply() <= u16::MAX,
{
    broadcast use vstd::array::array_len_matches_n;

    assert(b.cells@.len() == 46);
}

/// Every padding slot is `None`: the representation invariant that the move
/// generation relies on.
pub open spec fn padding_free(cells: Seq<Option<Cell>>) -> bool {
    &&& cells.len() == 46
    &&& forall|i: int| 0 <= i < 46 && !is_playable(i) ==> #[trigger] cells[i] is None
}

/// Every playable square holds a value.
pub open spec fn filled(cells: Seq<Option<Cell>>) -> bool {
    &&& cells.len() == 46
    &&& forall|i: int| 0 <= i < 46 && is_playable(i) ==> #[trigger] cells[i] is Some
}

/// Padding slots are `None` and every playable square holds a value.
pub open spec fn complete(cells: Seq<Option<Cell>>) -> bool {
    &&& padding_free(cells)
    &&& forall|i: int| 0 <= i < 46 && is_playable(i) ==> #[trigger] cells[i] is Some
}

/// The content of the initial board: three lines of white pawns at the
/// bottom (low indices), two empty lines, three lines of black pawns.
pub open spec fn initial_cells() -> Seq<Option<Cell>> {
    Seq::new(
        46,
        |i: int|
            if !is_playable(i) {
                None
            } else if i < 18 {
                Some(Cell::WhitePawn)
            } else if i < 27 {
                Some(Cell::Empty)
            } else {
                Some(Cell::BlackPawn)
            },
    )
}

/// Number of slots that hold `x`.
pub open spec fn occurrences(s: Seq<Option<Cell>>, x: Option<Cell>) -> nat
    decreases s.len(),
{
    if s.len() == 0 {
        0
    } else {
        occurrences(s.drop_last(), x) + if s.last() == x {
            1nat
        } else {
            0nat
        }
    }
}

/// The indices below `k` (from 5 on) whose slot holds `Some(x)`, in increasing order.
pub open spec fn indices_with_below(cells: Seq<Option<Cell>>, x: Cell, k: int) -> Seq<int>
    decreases k,
{
    if k <= PADDING_LINE_SIZE {
        Seq::empty()
    } else if 0 <= k - 1 < cells.len() && cells[k - 1] == Some(x) {
        indices_with_below(cells, x, k - 1).push(k - 1)
    } else {
        indices_with_below(cells, x, k - 1)
    }
}

/// The indices of the board (padding lines excluded) whose slot holds `Some(x)`.
pub open spec fn indices_with(cells: Seq<Option<Cell>>, x: Cell) -> Seq<int> {
    indices_with_below(cells, x, 41)
}

impl Board {
    /// Creates the initial board
    pub fn init() -> (r: Board)
        ensures
            r@ == initial_cells(),
            r.spec_turn() == Color::White,
            r.spec_num_ply() == 0,
    {
        let mut cells: [Option<Cell>; NUM_CELLS] = [None; NUM_CELLS];
        let mut i: usize = 0;
        while i < NUM_CELLS - PADDING_LINE_SIZE
            invariant
                i <= 41,
                cells@.len() == 46,
                forall|k: int| 0 <= k < i ==> cells@[k] == #[trigger] initial_cells()[k],
                forall|k: int| i <= k < 46 ==> #[trigger] cells@[k] is None,
            decreases 41 - i,
        {
            if i < PADDING_LINE_SIZE || i % 9 == 0 {
                cells[i] = None;
            } else if i < 18 {
                cells[i] = Some(Cell::WhitePawn);
            } else if i < 27 {
                cells[i] = Some(Cell::Empty);
            } else {
                cells[i] = Some(Cell::BlackPawn);
            }
            i += 1;
        }
        assert(cells@ =~= initial_cells());
        Board { cells, turn: Color::White, num_ply: 0 }
    }

    /// A board with no value in any slot, White to play, no ply played.
    pub(crate) fn blank() -> (r: Board)
        ensures
            r@ == Seq::new(46, |i: int| None::<Cell>),
            r.spec_turn() == Color::White,
            r.spec_num_ply() == 0,
    {
        let cells: [Option<Cell>; NUM_CELLS] = [None; NUM_CELLS];
        let r = Board { cells, turn: Color::White, num_ply: 0 };
        assert(r@ =~= Seq::new(46, |i: int| None::<Cell>));
        r
    }

    /// Count the number of cells with the given value
    pub fn count(&self, cell: Cell) -> (r: u8)
        ensures
            r == occurrences(self@, Some(cell)),
    {
        let mut n: u8 = 0;
        let mut i: usize = 0;
        while i < NUM_CELLS
            invariant
                i <= 46,
                self.cells@.len() == 46,
                n == occurrences(self.cells@.take(i as int), Some(cell)),
                n <= i,
            decreases 46 - i,
        {
            assert(self.cells@.take(i + 1).drop_last() =~= self.cells@.take(i as int));
            if self.cells[i] == Some(cell) {
                n += 1;
            }
            i += 1;
        }
        assert(self.cells@.take(46) =~= self.cells@);
        n
    }

    /// The positions (padding lines excluded) holding the given cell value, in increasing order.
    pub fn positions_with(&self, cell: Cell) -> (r: Vec<Position>)
        ensures
            r@.len() == indices_with(self@, cell).len(),
            forall|k: int| 0 <= k < r@.len() ==> r@[k]@ == #[trigger] indices_with(self@, cell)[k],
    {
        let mut r: Vec<Position> = Vec::new();
        let mut i: usize = PADDING_LINE_SIZE;
        while i < NUM_CELLS - PADDING_LINE_SIZE
            invariant
                5 <= i <= 41,
                self.cells@.len() == 46,
                r@.len() == indices_with_below(self.cells@, cell, i as int).len(),
                forall|k: int|
                    0 <= k < r@.len() ==> r@[k]@ == #[trigger] indices_with_below(
                        self.cells@,
                        cell,
                        i as int,
                    )[k],
            decreases 41 - i,
        {
            if self.cells[i] == Some(cell) {
                r.push(Position::new(i as i8));
            }
            i += 1;
        }
        r
    }

    /// Return the value at the given position
    pub fn at(&self, pos: Position) -> (r: Cell)
        requires
            0 <= pos@ < 46,
            self@[pos@] is Some,
        ensures
            r == self@[pos@]->0,
    {
        self.cells[pos.index() as usize].unwrap()
    }

    /// Sets the position to the given cell value
    pub fn set(&mut self, pos: Position, cell: Cell)
        requires
            0 <= pos@ < 46,
        ensures
            final(self)@ == old(self)@.update(pos@, Some(cell)),
            final(self).spec_turn() == old(self).spec_turn(),
            final(self).spec_num_ply() == old(self).spec_num_ply(),
    {
        self.cells[pos.index() as usize] = Some(cell);
    }

    /// Makes the indicated cell empty
    pub fn clear(&mut self, pos: Position)
        requires
            0 <= pos@ < 46,
        ensures
            final(self)@ == old(self)@.update(pos@, Some(Cell::Empty)),
            final(self).spec_turn() == old(self).spec_turn(),
            final(self).spec_num_ply() == old(self).spec_num_ply(),
    {
        self.cells[pos.index() as usize] = Some(Cell::Empty);
    }

    pub(crate) fn at_index(&self, index: Index) -> (r: Option<Cell>)
        requires
            index.0 < 46,
        ensures
            r == self@[index.0 as int],
    {
        self.cells[index.0]
    }

    /// Returns true of the given cell is empty
    pub fn empty(&self, pos: Position) -> (r: bool)
        requires
            0 <= pos@ < 46,
            self@[pos@] is Some,
        ensures
            r == (self@[pos@] == Some(Cell::Empty)),
    {
        self.at(pos) == Cell::Empty
    }

    /// Returns true if the given cell is occupied by an adversary of the current player.
    pub fn adv(&self, pos: Position) -> (r: bool)
        requires
            0 <= pos@ < 46,
            self@[pos@] is Some,
        ensures
            r == is_adversary(self@[pos@]->0, self.spec_turn()),
    {
        self.at(pos).adversary(self.turn)
    }

    /// The maximal number of plies has been reached: no more play, the
    /// game is a draw.
    pub fn is_draw(&self) -> (r: bool)
        ensures
            r == (self.spec_num_ply() >= MAX_PLY),
    {
        self.num_ply >= MAX_PLY
    }

    /// The player to move.
    pub fn current_turn(&self) -> (r: Color)
        ensures
            r == self.spec_turn(),
    {
        self.turn
    }

    /// The number of plies played.
    pub fn plies(&self) -> (r: u16)
        ensures
            r == self.spec_num_ply(),
    {
        self.num_ply
    }

    /// Sets the player to move and the number of plies played.
    pub fn set_turn_and_plies(&mut self, turn: Color, num_ply: u16)
        ensures
            final(self)@ == old(self)@,
            final(self).spec_turn() == turn,
            final(self).spec_num_ply() == num_ply,
    {
        self.turn = turn;
        self.num_ply = num_ply;
    }

    /// The same board, as a new value.
    pub fn duplicate(&self) -> (r: Board)
        ensures
            r@ == self@,
            r.spec_turn() == self.spec_turn(),
            r.spec_num_ply() == self.spec_num_ply(),
    {
        Board { cells: self.cells, turn: self.turn, num_ply: self.num_ply }
    }
}

/// A prefix of a playable sequence of moves is playable.
pub proof fn lemma_moves_ok_prefix(cells: Seq<Option<Cell>>, start: int, moves: Seq<Move>, k: int)
    requires
        moves_ok(cells, start, moves),
        0 <= k <= moves.len(),
    ensures
        moves_ok(cells, start, moves.take(k)),
    decreases moves.len(),
{
    if k < moves.len() {
        assert(moves.drop_last().take(k) =~= moves.take(k));
        lemma_moves_ok_prefix(cells, start, moves.drop_last(), k);
    } else {
        assert(moves.take(k) =~= moves);
    }
}

/// Clearing the squares of a move keeps the length of the array.
pub proof fn lemma_cleared_len(cells: Seq<Option<Cell>>, pos: int, d: crate::geometry::Dir, k: int)
    requires
        forall|j: int| 0 <= j < k ==> 0 <= #[trigger] ray(pos, d, j) < cells.len(),
    ensures
        cleared(cells, pos, d, k).len() == cells.len(),
    decreases k,
{
    if k > 0 {
        lemma_cleared_len(cells, pos, d, k - 1);
    }
}

/// Clearing squares never takes the value out of a slot.
proof fn lemma_cleared_keeps(cells: Seq<Option<Cell>>, pos: int, d: crate::geometry::Dir, k: int)
    requires
        forall|j: int| 0 <= j < k ==> 0 <= #[trigger] ray(pos, d, j) < cells.len(),
    ensures
        cleared(cells, pos, d, k).len() == cells.len(),
        forall|i: int| 0 <= i < cells.len() && cells[i] is Some ==> #[trigger] cleared(cells, pos, d, k)[i] is Some,
    decreases k,
{
    if k > 0 {
        lemma_cleared_keeps(cells, pos, d, k - 1);
    }
}

/// Playing moves never takes the value out of a slot.
proof fn lemma_apply_moves_keeps(cells: Seq<Option<Cell>>, start: int, moves: Seq<Move>)
    requires
        moves_ok(cells, start, moves),
    ensures
        apply_moves(cells, start, moves).len() == cells.len(),
        forall|i: int| 0 <= i < cells.len() && cells[i] is Some ==> #[trigger] apply_moves(cells, start, moves)[i] is Some,
    decreases moves.len(),
{
    if moves.len() > 0 {
        lemma_apply_moves_keeps(cells, start, moves.drop_last());
        let m = moves.last();
        let before = apply_moves(cells, start, moves.drop_last());
        let p = end_pos(start, moves.drop_last());
        assert(0 <= ray(p, m.dir, 0) < before.len());
        lemma_cleared_keeps(before, p, m.dir, m.repeat as int);
        assert forall|i: int| 0 <= i < cells.len() && cells[i] is Some implies #[trigger] apply_moves(cells, start, moves)[i] is Some by {
            assert(before[i] is Some);
            assert(cleared(before, p, m.dir, m.repeat as int)[i] is Some);
        }
    }
}

/// The landing square of an applicable action lies in the array.
proof fn lemma_end_in_array(cells: Seq<Option<Cell>>, start: int, moves: Seq<Move>)
    requires
        0 <= start < cells.len(),
        moves_ok(cells, start, moves),
    ensures
        0 <= end_pos(start, moves) < cells.len(),
{
    if moves.len() > 0 {
        let m = moves.last();
        lemma_apply_moves_keeps(cells, start, moves.drop_last());
        assert(0 <= ray(end_pos(start, moves.drop_last()), m.dir, m.repeat as int) < cells.len());
    }
}

/// Law: playing an applicable action never takes the value out of a slot;
/// on a board whose playable squares all hold a value, they still do.
pub proof fn law_applied_keeps_values(cells: Seq<Option<Cell>>, turn: Color, a: ActionModel)
    requires
        applicable(cells, a),
    ensures
        applied(cells, turn, a).len() == cells.len(),
        forall|i: int| 0 <= i < cells.len() && cells[i] is Some ==> #[trigger] applied(cells, turn, a)[i] is Some,
        filled(cells) ==> filled(applied(cells, turn, a)),
{
    lemma_apply_moves_keeps(cells, a.0, a.1);
    lemma_end_in_array(cells, a.0, a.1);
    let moved = apply_moves(cells, a.0, a.1);
    assert forall|i: int| 0 <= i < cells.len() && cells[i] is Some implies #[trigger] applied(cells, turn, a)[i] is Some by {
        assert(moved[i] is Some);
    }
    if filled(cells) {
        assert forall|i: int| 0 <= i < 46 && is_playable(i) implies #[trigger] applied(cells, turn, a)[i] is Some by {
            assert(cells[i] is Some);
        }
    }
}

pub proof fn lemma_apply_moves_len(cells: Seq<Option<Cell>>, start: int, moves: Seq<Move>)
    requires
        moves_ok(cells, start, moves),
    ensures
        apply_moves(cells, start, moves).len() == cells.len(),
    decreases moves.len(),
{
    if moves.len() > 0 {
        lemma_apply_moves_len(cells, start, moves.drop_last());
        let m = moves.last();
        lemma_cleared_len(
            apply_moves(cells, start, moves.drop_last()),
            end_pos(start, moves.drop_last()),
            m.dir,
            m.repeat as int,
        );
    }
}

impl Board {
    /// Applies a single move (subpart of an action over a single direction)
    /// and returns the landing position.
    fn apply_move(&mut self, pos: Position, mv: Move) -> (r: Position)
        requires
            move_ok(old(self)@, pos@, mv),
        ensures
            final(self)@ == after_move(old(self)@, pos@, mv),
            r@ == ray(pos@, mv.dir, mv.repeat as int),
            final(self).spec_turn() == old(self).spec_turn(),
            final(self).spec_num_ply() == old(self).spec_num_ply(),
    {
        let ghost start = self@;
        let mut cur = pos;
        let piece = self.at(cur);
        let mut k: u8 = 0;
        while k < mv.repeat
            invariant
                k <= mv.repeat,
                start.len() == 46,
                move_ok(start, pos@, mv),
                cur@ == ray(pos@, mv.dir, k as int),
                self@ == cleared(start, pos@, mv.dir, k as int),
                self.spec_turn() == old(self).spec_turn(),
                self.spec_num_ply() == old(self).spec_num_ply(),
            decreases mv.repeat - k,
        {
            assert(0 <= ray(pos@, mv.dir, k + 1) < 46);
            self.clear(cur);
            cur = Position::new(cur.add_dir(mv.dir).0 as i8);
            k += 1;
        }
        assert(0 <= ray(pos@, mv.dir, mv.repeat as int) < 46);
        self.set(cur, piece);
        cur
    }

    /// Modifies the current board to be the result of the action.
    pub fn apply_mut(&mut self, action: &Action)
        requires
            applicable(old(self)@, action@),
            old(self).spec_num_ply() < u16::MAX,
        ensures
            final(self)@ == applied(old(self)@, old(self).spec_turn(), action@),
            final(self).spec_turn() == opponent(old(self).spec_turn()),
            final(self).spec_num_ply() == old(self).spec_num_ply() + 1,
            filled(old(self)@) ==> filled(final(self)@),
    {
        proof {
            law_applied_keeps_values(self@, self.spec_turn(), action@);
        }
        let ghost start = self@;
        let ghost s = action@.0;
        let moves = action.moves();
        let mut cur = action.start();
        let mut k: usize = 0;
        while k < moves.len()
            invariant
                k <= moves@.len(),
                moves@ == action@.1,
                s == action@.0,
                applicable(start, action@),
                self@ == apply_moves(start, s, moves@.take(k as int)),
                cur@ == end_pos(s, moves@.take(k as int)),
                self.spec_turn() == old(self).spec_turn(),
                self.spec_num_ply() == old(self).spec_num_ply(),
            decreases moves@.len() - k,
        {
            proof {
                lemma_moves_ok_prefix(start, s, moves@, k + 1);
                lemma_moves_ok_prefix(start, s, moves@, k as int);
                lemma_apply_moves_len(start, s, moves@.take(k as int));
                assert(moves@.take(k + 1).drop_last() =~= moves@.take(k as int));
            }
            cur = self.apply_move(cur, moves[k]);
            k += 1;
        }
        assert(moves@.take(moves@.len() as int) =~= moves@);
        proof {
            lemma_apply_moves_len(start, s, moves@);
            if moves@.len() > 0 {
                lemma_moves_ok_prefix(start, s, moves@, moves@.len() - 1);
                assert(moves@.take(moves@.len() - 1) =~= moves@.drop_last());
                lemma_apply_moves_len(start, s, moves@.drop_last());
                assert(moves@.drop_last().take(moves@.len() - 1) =~= moves@.drop_last());
                assert(0 <= ray(end_pos(s, moves@.drop_last()), moves@.last().dir, moves@.last().repeat as int) < 46);
            }
        }
        // promote to queen if on the last line
        let turn = self.current_turn();
        let idx = cur.index();
        if turn == Color::White && idx as usize >= NUM_CELLS - PADDING_LINE_SIZE - CELLS_PER_ROW {
            self.set(cur, Cell::WhiteQueen);
        } else if turn == Color::Black && (idx as usize) < PADDING_LINE_SIZE + CELLS_PER_ROW {
            self.set(cur, Cell::BlackQueen);
        }
        // update turn and number of ply
        let mut next = turn;
        next.invert();
        let plies = self.plies() + 1;
        self.set_turn_and_plies(next, plies);
    }

    /// Returns the result of applying the action in the state.
    pub fn apply(&self, action: &Action) -> (r: Board)
        requires
            applicable(self@, action@),
            self.spec_num_ply() < u16::MAX,
        ensures
            r@ == applied(self@, self.spec_turn(), action@),
            r.spec_turn() == opponent(self.spec_turn()),
            r.spec_num_ply() == self.spec_num_ply() + 1,
            filled(self@) ==> filled(r@),
    {
        let mut next = self.duplicate();
        next.apply_mut(action);
        next
    }
}

} // verus!
