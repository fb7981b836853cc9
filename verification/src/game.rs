//! Playing games: boards reached by legal play, random play, the result of a
//! finished game.
use vstd::prelude::*;
use rand::seq::IndexedRandom;
use crate::action::Action;
use crate::board::{Board, complete, padding_free, law_applied_keeps_values, initial_cells, occurrences, lemma_board_len};
use crate::geometry::{Cell, Color, Index, is_playable, opponent, playable_below, lemma_playable_rows, MAX_PLY};
use crate::laws::{pieces, lemma_chains_fit, lemma_legal_lengths, lemma_legal_paths, lemma_path_applied};
use crate::movegen::models;
use crate::rules::{ActionModel, all_jumps, applicable, applied, chains_fit, legal_actions, max_moves, with_num_moves};
use crate::text::{action_of_text, action_text, squares_playable, law_action_text_roundtrip};

verus! {

broadcast use lemma_board_len;

/// A board on which play can go on: no stray padding value, and at most
/// twelve pieces on each side.
pub open spec fn sound(cells: Seq<Option<Cell>>) -> bool {
    &&& padding_free(cells)
    &&& pieces(cells, Color::White) <= 12
    &&& pieces(cells, Color::Black) <= 12
}

/// The state of a game as a value: the slots, the player to move, the number of plies.
pub type GameState = (Seq<Option<Cell>>, Color, int);

pub open spec fn state_of(b: Board) -> GameState {
    (b@, b.spec_turn(), b.spec_num_ply())
}

pub open spec fn initial_state() -> GameState {
    (initial_cells(), Color::White, 0)
}

/// The actions available in a state.
pub open spec fn legal_in(s: GameState) -> Seq<ActionModel> {
    legal_actions(s.0, s.1, s.2)
}

/// The state after the player to move plays `a`.
pub open spec fn next_state(s: GameState, a: ActionModel) -> GameState {
    (applied(s.0, s.1, a), opponent(s.1), s.2 + 1)
}

/// The state reached by playing the actions one after the other, each a
/// legal action of the state it is played in; `None` if one is not.
pub open spec fn play_through(s: GameState, steps: Seq<ActionModel>) -> Option<GameState>
    decreases steps.len(),
{
    if steps.len() == 0 {
        Some(s)
    } else {
        match play_through(s, steps.drop_last()) {
            Some(t) => if legal_in(t).contains(steps.last()) {
                Some(next_state(t, steps.last()))
            } else {
                None
            },
            None => None,
        }
    }
}

/// The game is over: the maximal number of plies has been played, or the
/// player to move has no action.
pub open spec fn is_final(s: GameState) -> bool {
    s.2 >= MAX_PLY || legal_in(s).len() == 0
}

/// The result of a finished game, seen from White.
#[derive(PartialEq, Eq, Debug, Clone, Copy, Structural)]
pub enum Outcome {
    /// White won.
    WhiteWins,
    /// The game is a draw (half a point each).
    Draw,
    /// Black won.
    BlackWins,
}

/// The result of a finished game: a draw once the maximal number of plies is
/// played, otherwise the player who cannot move loses.
pub open spec fn outcome_of(s: GameState) -> Outcome {
    if s.2 >= MAX_PLY {
        Outcome::Draw
    } else if s.1 == Color::White {
        Outcome::BlackWins
    } else {
        Outcome::WhiteWins
    }
}

// ------------------------------------------------------------------
// Laws of play
// ------------------------------------------------------------------
/// Law: on a sound board, every action that `actions` offers can be played;
/// it leaves a sound board (complete if the board was), keeps the number of
/// pieces of the player who moves, and does not add any piece to the
/// opponent.
pub proof fn law_legal_action_sound(cells: Seq<Option<Cell>>, turn: Color, num_ply: int, k: int)
    requires
        sound(cells),
        0 <= k < legal_actions(cells, turn, num_ply).len(),
    ensures
        applicable(cells, legal_actions(cells, turn, num_ply)[k]),
        sound(applied(cells, turn, legal_actions(cells, turn, num_ply)[k])),
        pieces(applied(cells, turn, legal_actions(cells, turn, num_ply)[k]), turn) == pieces(cells, turn),
        pieces(applied(cells, turn, legal_actions(cells, turn, num_ply)[k]), opponent(turn)) <= pieces(
            cells,
            opponent(turn),
        ),
        complete(cells) ==> complete(applied(cells, turn, legal_actions(cells, turn, num_ply)[k])),
{
    lemma_legal_paths(cells, turn, num_ply);
    lemma_path_applied(cells, turn, legal_actions(cells, turn, num_ply)[k]);
    law_applied_keeps_values(cells, turn, legal_actions(cells, turn, num_ply)[k]);
    assert(opponent(opponent(turn)) == turn);
    assert(turn == Color::White || turn == Color::Black);
}

/// Law: on a sound board no capture sequence is longer than an action can
/// hold, so `actions` can be computed.
pub proof fn law_sound_chains_fit(cells: Seq<Option<Cell>>, turn: Color)
    requires
        sound(cells),
    ensures
        chains_fit(cells, turn),
{
    assert(turn == Color::White || turn == Color::Black);
    lemma_chains_fit(cells, turn);
}

/// Law: once the maximal number of plies is played, no action is available.
pub proof fn law_no_action_after_max_ply(cells: Seq<Option<Cell>>, turn: Color, num_ply: int)
    requires
        num_ply >= MAX_PLY,
    ensures
        legal_actions(cells, turn, num_ply).len() == 0,
{
}

/// Law: the text of an action offered on a sound board names playable
/// squares only, and reading that text gives the action back.
pub proof fn law_legal_action_text(cells: Seq<Option<Cell>>, turn: Color, num_ply: int, k: int)
    requires
        sound(cells),
        0 <= k < legal_actions(cells, turn, num_ply).len(),
    ensures
        squares_playable(legal_actions(cells, turn, num_ply)[k]),
        action_of_text(action_text(legal_actions(cells, turn, num_ply)[k])) == Ok::<ActionModel, ()>(
            legal_actions(cells, turn, num_ply)[k],
        ),
{
    law_sound_chains_fit(cells, turn);
    lemma_legal_paths(cells, turn, num_ply);
    lemma_legal_lengths(cells, turn, num_ply);
    let a = legal_actions(cells, turn, num_ply)[k];
    law_action_text_roundtrip(cells, turn, a.0, a.1);
}

proof fn lemma_max_moves(s: Seq<ActionModel>)
    ensures
        forall|k: int| 0 <= k < s.len() ==> #[trigger] s[k].1.len() <= max_moves(s),
        s.len() > 0 ==> exists|k: int| 0 <= k < s.len() && #[trigger] s[k].1.len() == max_moves(s),
    decreases s.len(),
{
    if s.len() > 0 {
        lemma_max_moves(s.drop_last());
        assert forall|k: int| 0 <= k < s.len() implies #[trigger] s[k].1.len() <= max_moves(s) by {
            if k < s.len() - 1 {
                assert(s[k] == s.drop_last()[k]);
            }
        }
        if s.drop_last().len() > 0 && s.last().1.len() <= max_moves(s.drop_last()) {
            let k = choose|k: int| 0 <= k < s.drop_last().len() && #[trigger] s.drop_last()[k].1.len() == max_moves(s.drop_last());
            assert(s[k] == s.drop_last()[k]);
        } else {
            assert(s[s.len() - 1].1.len() == max_moves(s));
        }
    }
}

proof fn lemma_with_num_moves_members(s: Seq<ActionModel>, m: int)
    ensures
        forall|k: int| 0 <= k < with_num_moves(s, m).len() ==> s.contains(#[trigger] with_num_moves(s, m)[k])
            && with_num_moves(s, m)[k].1.len() == m,
        forall|k: int| 0 <= k < s.len() && #[trigger] s[k].1.len() == m ==> with_num_moves(s, m).contains(s[k]),
    decreases s.len(),
{
    if s.len() > 0 {
        lemma_with_num_moves_members(s.drop_last(), m);
        let w = with_num_moves(s, m);
        let w0 = with_num_moves(s.drop_last(), m);
        assert forall|k: int| 0 <= k < w.len() implies s.contains(#[trigger] w[k]) && w[k].1.len() == m by {
            if k < w0.len() {
                assert(w[k] == w0[k]);
                let j = s.drop_last().index_of(w0[k]);
                assert(s[j] == s.drop_last()[j]);
            } else {
                assert(w[k] == s[s.len() - 1]);
            }
        }
        assert forall|k: int| 0 <= k < s.len() && #[trigger] s[k].1.len() == m implies w.contains(s[k]) by {
            if k < s.len() - 1 {
                assert(s[k] == s.drop_last()[k]);
                let j = w0.index_of(s[k]);
                assert(w[j] == w0[j]);
            } else {
                assert(w[w.len() - 1] == s[k]);
            }
        }
    }
}

/// Law: when a capture is possible (and the maximal number of plies is not
/// reached), the actions offered are exactly the capture sequences with the
/// largest number of captures.
pub proof fn law_captures_mandatory(cells: Seq<Option<Cell>>, turn: Color, num_ply: int)
    requires
        num_ply < MAX_PLY,
        all_jumps(cells, turn).len() > 0,
    ensures
        forall|k: int|
            0 <= k < legal_actions(cells, turn, num_ply).len() ==> all_jumps(cells, turn).contains(
                #[trigger] legal_actions(cells, turn, num_ply)[k],
            ) && legal_actions(cells, turn, num_ply)[k].1.len() == max_moves(all_jumps(cells, turn)),
        forall|k: int|
            0 <= k < all_jumps(cells, turn).len() ==> #[trigger] all_jumps(cells, turn)[k].1.len()
                <= max_moves(all_jumps(cells, turn)),
        forall|k: int|
            0 <= k < all_jumps(cells, turn).len() && #[trigger] all_jumps(cells, turn)[k].1.len()
                == max_moves(all_jumps(cells, turn)) ==> legal_actions(cells, turn, num_ply).contains(
                all_jumps(cells, turn)[k],
            ),
        legal_actions(cells, turn, num_ply).len() > 0,
{
    let j = all_jumps(cells, turn);
    lemma_max_moves(j);
    lemma_with_num_moves_members(j, max_moves(j));
    let k = choose|k: int| 0 <= k < j.len() && #[trigger] j[k].1.len() == max_moves(j);
    assert(legal_actions(cells, turn, num_ply).contains(j[k]));
}

/// The first `k` slots of the initial board: white pawns on the playable
/// squares below 18, empty squares on those from 18 to 26, black pawns on
/// those from 27 on, and no queen.
proof fn lemma_initial_prefix(k: int)
    requires
        0 <= k <= 46,
    ensures
        occurrences(initial_cells().take(k), Some(Cell::WhitePawn)) == playable_below(
            if k < 18 { k } else { 18 },
        ).len(),
        occurrences(initial_cells().take(k), Some(Cell::Empty)) + playable_below(18).len()
            == playable_below(if k < 18 { 18 } else if k < 27 { k } else { 27 }).len(),
        occurrences(initial_cells().take(k), Some(Cell::BlackPawn)) + playable_below(27).len()
            == playable_below(if k < 27 { 27 } else { k }).len(),
        pieces(initial_cells().take(k), Color::White) == occurrences(
            initial_cells().take(k),
            Some(Cell::WhitePawn),
        ),
        pieces(initial_cells().take(k), Color::Black) == occurrences(
            initial_cells().take(k),
            Some(Cell::BlackPawn),
        ),
    decreases k,
{
    let s = initial_cells().take(k);
    if k == 0 {
        assert(s =~= Seq::<Option<Cell>>::empty());
    } else {
        lemma_initial_prefix(k - 1);
        assert(s.drop_last() =~= initial_cells().take(k - 1));
        assert(s.last() == initial_cells()[k - 1]);
    }
}

/// The initial board holds twelve white pawns, eight empty squares and
/// twelve black pawns, and no queen.
proof fn lemma_initial_counts()
    ensures
        occurrences(initial_cells(), Some(Cell::WhitePawn)) == 12,
        occurrences(initial_cells(), Some(Cell::Empty)) == 8,
        occurrences(initial_cells(), Some(Cell::BlackPawn)) == 12,
        pieces(initial_cells(), Color::White) == 12,
        pieces(initial_cells(), Color::Black) == 12,
{
    lemma_initial_prefix(46);
    assert(initial_cells().take(46) =~= initial_cells());
    lemma_playable_rows(3, 0);
    lemma_playable_rows(5, 0);
    lemma_playable_rows(8, 0);
    assert(playable_below(19) == playable_below(18));
    assert(playable_below(28) == playable_below(27));
    assert(playable_below(42) == playable_below(41));
    assert(playable_below(43) == playable_below(42));
    assert(playable_below(44) == playable_below(43));
    assert(playable_below(45) == playable_below(44));
    assert(playable_below(46) == playable_below(45));
}

/// Law: the initial board is sound.
pub proof fn law_initial_sound()
    ensures
        sound(initial_cells()),
{
    lemma_initial_counts();
}

/// Law: every game ends. Each action played adds one ply, and no action is
/// available once the maximal number of plies is played, so a game from a
/// state with at most that many plies lasts at most the plies that remain.
pub proof fn law_games_end(s: GameState, steps: Seq<ActionModel>)
    requires
        s.2 <= MAX_PLY,
        play_through(s, steps) is Some,
    ensures
        (play_through(s, steps)->0).2 == s.2 + steps.len(),
        steps.len() <= MAX_PLY - s.2,
    decreases steps.len(),
{
    if steps.len() > 0 {
        law_games_end(s, steps.drop_last());
        let t = play_through(s, steps.drop_last())->0;
        if t.2 >= MAX_PLY {
            law_no_action_after_max_ply(t.0, t.1, t.2);
        }
    }
}

/// Law: the initial board has a value on every playable square: twelve
/// white pawns, eight empty squares, twelve black pawns.
pub proof fn law_initial_board()
    ensures
        complete(initial_cells()),
        occurrences(initial_cells(), Some(Cell::WhitePawn)) == 12,
        occurrences(initial_cells(), Some(Cell::Empty)) == 8,
        occurrences(initial_cells(), Some(Cell::BlackPawn)) == 12,
{
    lemma_initial_counts();
}

/// Law: playing a legal action on a sound board gives a sound board, and a
/// game played from a sound board by legal actions stays on sound boards.
pub proof fn law_play_through_sound(s: GameState, steps: Seq<ActionModel>)
    requires
        sound(s.0),
        play_through(s, steps) is Some,
    ensures
        sound((play_through(s, steps)->0).0),
        complete(s.0) ==> complete((play_through(s, steps)->0).0),
    decreases steps.len(),
{
    if steps.len() > 0 {
        law_play_through_sound(s, steps.drop_last());
        let t = play_through(s, steps.drop_last())->0;
        let k = legal_in(t).index_of(steps.last());
        law_legal_action_sound(t.0, t.1, t.2, k);
    }
}

/// `IndexedRandom::choose` on a thread-local generator (`rand::rng()`):
/// `None` for an empty vector, otherwise one of its elements. Which element
/// comes out depends on the generator and is left unstated.
#[verifier::external_body]
fn choose_random<T>(items: &Vec<T>) -> (r: Option<&T>)
    ensures
        (items@.len() == 0) == (r is None),
        r matches Some(x) ==> items@.contains(*x),
{
    items.choose(&mut rand::rng())
}

proof fn lemma_models_contains(v: Seq<Action>, a: Action)
    requires
        v.contains(a),
    ensures
        models(v).contains(a@),
{
    let k = v.index_of(a);
    assert(models(v)[k] == a@);
}

/// One random legal action is played; `None` when there is none.
fn play_random(cur: &mut Board, Ghost(steps): Ghost<Seq<ActionModel>>, Ghost(s0): Ghost<GameState>) -> (r: Option<Action>)
    requires
        sound(old(cur)@),
        play_through(s0, steps) == Some(state_of(*old(cur))),
    ensures
        sound(final(cur)@),
        complete(old(cur)@) ==> complete(final(cur)@),
        r matches Some(a) ==> play_through(s0, steps.push(a@)) == Some(state_of(*final(cur))),
        r is Some ==> old(cur).spec_num_ply() < MAX_PLY && final(cur).spec_num_ply()
            == old(cur).spec_num_ply() + 1,
        r is None ==> legal_in(state_of(*old(cur))).len() == 0 && *final(cur) == *old(cur),
{
    proof {
        law_sound_chains_fit(cur@, cur.spec_turn());
    }
    let actions = cur.actions();
    match choose_random(&actions) {
        None => {
            assert(models(actions@).len() == 0);
            None
        },
        Some(action) => {
            let ghost a = action@;
            let ghost st = state_of(*cur);
            proof {
                lemma_models_contains(actions@, *action);
                let k = models(actions@).index_of(a);
                law_legal_action_sound(cur@, cur.spec_turn(), cur.spec_num_ply(), k);
                assert(steps.push(a).drop_last() =~= steps);
            }
            cur.apply_mut(action);
            Some(action.duplicate())
        },
    }
}

impl Board {
    /// Applies a number of randomly selected moves to the initial board and
    /// returns the resulting board; it stops early when the player to move
    /// has no action.
    ///
    /// This function is typically used to generate original starting points for the games.
    pub fn after_random_moves(n: usize) -> (r: Board)
        ensures
            sound(r@),
            complete(r@),
            exists|steps: Seq<ActionModel>|
                #![trigger play_through(initial_state(), steps)]
                {
                    &&& steps.len() <= n
                    &&& play_through(initial_state(), steps) == Some(state_of(r))
                    &&& steps.len() < n ==> legal_in(state_of(r)).len() == 0
                },
    {
        proof {
            law_initial_sound();
            law_initial_board();
        }
        let start = Self::init();
        assert(state_of(start) == initial_state());
        random_moves_from(&start, n)
    }
}

/// Applies a number of randomly selected moves to the board and returns the
/// resulting board; it stops early when the player to move has no action.
pub fn random_moves_from(board: &Board, n: usize) -> (r: Board)
    requires
        sound(board@),
    ensures
        sound(r@),
        complete(board@) ==> complete(r@),
        exists|steps: Seq<ActionModel>|
            #![trigger play_through(state_of(*board), steps)]
            {
                &&& steps.len() <= n
                &&& play_through(state_of(*board), steps) == Some(state_of(r))
                &&& steps.len() < n ==> legal_in(state_of(r)).len() == 0
            },
{
    let mut cur = board.duplicate();
    let ghost s0 = state_of(*board);
    let ghost mut steps: Seq<ActionModel> = Seq::empty();
    assert(state_of(cur) == s0);
    let mut i: usize = 0;
    while i < n
        invariant
            i <= n,
            steps.len() == i,
            sound(cur@),
            complete(board@) ==> complete(cur@),
            play_through(s0, steps) == Some(state_of(cur)),
        ensures
            steps.len() <= n,
            sound(cur@),
            complete(board@) ==> complete(cur@),
            play_through(s0, steps) == Some(state_of(cur)),
            steps.len() < n ==> legal_in(state_of(cur)).len() == 0,
        decreases n - i,
    {
        match play_random(&mut cur, Ghost(steps), Ghost(s0)) {
            Some(a) => {
                proof {
                    steps = steps.push(a@);
                }
            },
            None => {
                break;
            },
        }
        i += 1;
    }
    cur
}

/// Evaluates a final board (draw, or no remaining action for the player to move), for White.
pub fn white_score(board: &Board) -> (r: Outcome)
    requires
        sound(board@),
        is_final(state_of(*board)),
    ensures
        r == outcome_of(state_of(*board)),
{
    // draw if the maximal number of plies is played
    if board.is_draw() {
        return Outcome::Draw;
    }
    proof {
        law_sound_chains_fit(board@, board.spec_turn());
    }
    let actions = board.actions();
    if actions.is_empty() {
        if board.current_turn() == Color::White {
            // White loses when it has no action left
            Outcome::BlackWins
        } else {
            // White wins when Black has no action left
            Outcome::WhiteWins
        }
    } else {
        proof {
            assert(models(actions@).len() > 0);
        }
        Outcome::Draw
    }
}

/// Performs a single rollout (random play until the game is over) and
/// returns the result of the final board.
pub fn rollout(board: &Board) -> (r: Outcome)
    requires
        sound(board@),
    ensures
        exists|steps: Seq<ActionModel>|
            #![trigger play_through(state_of(*board), steps)]
            {
                &&& play_through(state_of(*board), steps) matches Some(f)
                &&& is_final(f)
                &&& r == outcome_of(f)
            },
{
    let mut current = board.duplicate();
    let ghost s0 = state_of(*board);
    let ghost mut steps: Seq<ActionModel> = Seq::empty();
    assert(state_of(current) == s0);
    while !current.is_draw()
        invariant
            sound(current@),
            play_through(s0, steps) == Some(state_of(current)),
        ensures
            sound(current@),
            play_through(s0, steps) == Some(state_of(current)),
            is_final(state_of(current)),
        decreases MAX_PLY - current.spec_num_ply(),
    {
        match play_random(&mut current, Ghost(steps), Ghost(s0)) {
            Some(a) => {
                proof {
                    steps = steps.push(a@);
                }
            },
            None => {
                break;
            },
        }
    }
    white_score(&current)
}

/// The number of the player who did not make the last (failed) attempt:
/// 1 (Black) when White is to move, 0 (White) otherwise.
pub open spec fn other_player_number(turn: Color) -> int {
    if turn == Color::White {
        1
    } else {
        0
    }
}

/// Why an attempt to play was refused.
#[derive(PartialEq, Eq, Debug, Clone, Copy, Structural)]
pub enum MoveError {
    /// No action was given.
    MissingAction,
    /// The action is not one of the actions available.
    IllegalAction,
}

impl Board {
    /// Plays the action when it is one of the actions available; otherwise
    /// refuses it and leaves the board unchanged.
    pub fn play(&mut self, action: &Action) -> (r: Result<(), MoveError>)
        requires
            sound(old(self)@),
        ensures
            sound(final(self)@),
            complete(old(self)@) ==> complete(final(self)@),
            if legal_in(state_of(*old(self))).contains(action@) {
                &&& r == Ok::<(), MoveError>(())
                &&& state_of(*final(self)) == next_state(state_of(*old(self)), action@)
            } else {
                &&& r == Err::<(), MoveError>(MoveError::IllegalAction)
                &&& *final(self) == *old(self)
            },
    {
        proof {
            law_sound_chains_fit(self@, self.spec_turn());
        }
        let actions = self.actions();
        let mut found = false;
        let mut k: usize = 0;
        while k < actions.len()
            invariant
                k <= actions@.len(),
                found == models(actions@).take(k as int).contains(action@),
            decreases actions@.len() - k,
        {
            proof {
                assert(models(actions@).take(k + 1) =~= models(actions@).take(k as int).push(actions@[k as int]@));
            }
            let ghost prev = models(actions@).take(k as int);
            let ghost next = models(actions@).take(k + 1);
            if actions[k].same_as(action) {
                found = true;
                proof {
                    assert(next[k as int] == action@);
                }
            } else {
                proof {
                    if next.contains(action@) {
                        let j = next.index_of(action@);
                        if j < k {
                            assert(prev[j] == action@);
                        }
                    }
                }
            }
            proof {
                if prev.contains(action@) {
                    let j = prev.index_of(action@);
                    assert(next[j] == action@);
                }
            }
            k += 1;
        }
        assert(models(actions@).take(actions@.len() as int) =~= models(actions@));
        if !found {
            return Err(MoveError::IllegalAction);
        }
        proof {
            let k = models(actions@).index_of(action@);
            law_legal_action_sound(self@, self.spec_turn(), self.spec_num_ply(), k);
        }
        self.apply_mut(action);
        Ok(())
    }

    /// No padding slot holds a value and each side has at most twelve
    /// pieces: play can go on from this board.
    pub fn is_sound(&self) -> (r: bool)
        ensures
            r == sound(self@),
    {
        let mut white: u8 = 0;
        let mut black: u8 = 0;
        let mut i: usize = 0;
        while i < 46
            invariant
                i <= 46,
                white == pieces(self@.take(i as int), Color::White),
                black == pieces(self@.take(i as int), Color::Black),
                white <= i,
                black <= i,
                forall|j: int| 0 <= j < i && !is_playable(j) ==> #[trigger] self@[j] is None,
            decreases 46 - i,
        {
            assert(self@.take(i + 1).drop_last() =~= self@.take(i as int));
            let v = self.at_index(Index(i));
            let playable = 5 <= i && i < 41 && i % 9 != 0;
            if !playable && v.is_some() {
                return false;
            }
            match v {
                Some(Cell::WhitePawn) | Some(Cell::WhiteQueen) => {
                    white += 1;
                },
                Some(Cell::BlackPawn) | Some(Cell::BlackQueen) => {
                    black += 1;
                },
                _ => {},
            }
            i += 1;
        }
        assert(self@.take(46) =~= self@);
        white <= 12 && black <= 12
    }

    /// The game is over: the maximal number of plies is played, or the
    /// player to move has no action.
    pub fn is_over(&self) -> (r: bool)
        requires
            sound(self@),
        ensures
            r == is_final(state_of(*self)),
    {
        if self.is_draw() {
            return true;
        }
        proof {
            law_sound_chains_fit(self@, self.spec_turn());
        }
        self.actions().is_empty()
    }
}

/// The result of a player at the end of a game.
#[derive(PartialEq, Eq, Debug, Clone, Copy, Structural)]
pub enum PlayerResult {
    Win,
    Draw,
    Loss,
}

/// A game of checkers between two players (0 is White, 1 is Black): the
/// board, and the number of the winner (-1 while there is none).
#[derive(Clone, Debug)]
pub struct Checkers {
    board: Board,
    winner: i8,
}

impl Checkers {
    pub closed spec fn spec_board(&self) -> Board {
        self.board
    }

    pub closed spec fn spec_winner(&self) -> int {
        self.winner as int
    }

    /// The board is sound and the winner is -1, 0 or 1.
    pub open spec fn well_formed(&self) -> bool {
        &&& sound(self.spec_board()@)
        &&& -1 <= self.spec_winner() <= 1
    }

    /// A new game on the initial board, without a winner.
    pub fn init() -> (r: Checkers)
        ensures
            state_of(r.spec_board()) == initial_state(),
            r.spec_winner() == -1,
            r.well_formed(),
    {
        proof {
            law_initial_sound();
        }
        Checkers { board: Board::init(), winner: -1 }
    }

    /// The player who is not to move wins.
    fn set_other_to_winner(&mut self)
        ensures
            final(self).spec_board() == old(self).spec_board(),
            final(self).spec_winner() == other_player_number(old(self).spec_board().spec_turn()),
    {
        self.winner = if self.board.current_turn() == Color::White {
            1
        } else {
            0
        };
    }

    /// Plays the action of the player to move. A missing or illegal action
    /// loses the game for that player and is refused. When a legal action
    /// leaves the opponent without any action, the player who moved wins
    /// (unless a winner was already known).
    pub fn apply_action(&mut self, action: &Option<Action>) -> (r: Result<(), MoveError>)
        requires
            old(self).well_formed(),
        ensures
            final(self).well_formed(),
            match action {
                None => {
                    &&& r == Err::<(), MoveError>(MoveError::MissingAction)
                    &&& state_of(final(self).spec_board()) == state_of(old(self).spec_board())
                    &&& final(self).spec_winner() == other_player_number(old(self).spec_board().spec_turn())
                },
                Some(a) => if !legal_in(state_of(old(self).spec_board())).contains(a@) {
                    &&& r == Err::<(), MoveError>(MoveError::IllegalAction)
                    &&& state_of(final(self).spec_board()) == state_of(old(self).spec_board())
                    &&& final(self).spec_winner() == other_player_number(old(self).spec_board().spec_turn())
                } else {
                    let next = next_state(state_of(old(self).spec_board()), a@);
                    &&& r == Ok::<(), MoveError>(())
                    &&& state_of(final(self).spec_board()) == next
                    &&& final(self).spec_winner() == if legal_in(next).len() == 0 && old(self).spec_winner() == -1 {
                        other_player_number(next.1)
                    } else {
                        old(self).spec_winner()
                    }
                },
            },
    {
        let action = match action {
            None => {
                self.set_other_to_winner();
                return Err(MoveError::MissingAction);
            },
            Some(a) => a,
        };
        match self.board.play(action) {
            Ok(()) => {},
            Err(e) => {
                self.set_other_to_winner();
                return Err(e);
            },
        }
        proof {
            law_sound_chains_fit(self.board@, self.board.spec_turn());
        }
        if self.board.actions().is_empty() && self.winner == -1 {
            // the player to move changed with `apply_mut`: the one who just played won
            self.set_other_to_winner();
        }
        Ok(())
    }

    /// The current board.
    pub fn get_state(&self) -> (r: Board)
        ensures
            state_of(r) == state_of(self.spec_board()),
    {
        self.board.duplicate()
    }

    /// The number of the player to move: 0 for White, 1 for Black.
    pub fn get_current_player_number(&self) -> (r: usize)
        ensures
            r == if self.spec_board().spec_turn() == Color::White {
                0int
            } else {
                1int
            },
    {
        if self.board.current_turn() == Color::White {
            0
        } else {
            1
        }
    }

    /// A winner is known, or the maximal number of plies is played.
    pub fn is_finished(&self) -> (r: bool)
        ensures
            r == (self.spec_winner() != -1 || self.spec_board().spec_num_ply() >= MAX_PLY),
    {
        self.winner != -1 || self.board.is_draw()
    }

    /// The result of player `player_number`: a draw once the maximal number
    /// of plies is played, a win for the winner, a loss otherwise.
    pub fn get_player_result(&self, player_number: u32) -> (r: PlayerResult)
        requires
            self.well_formed(),
        ensures
            r == if self.spec_board().spec_num_ply() >= MAX_PLY {
                PlayerResult::Draw
            } else if (self.spec_winner() >= 0 && player_number == self.spec_winner()) || (
            self.spec_winner() == -1 && player_number == u32::MAX) {
                PlayerResult::Win
            } else {
                PlayerResult::Loss
            },
    {
        if self.board.is_draw() {
            PlayerResult::Draw
        } else if (self.winner >= 0 && player_number == self.winner as u32) || (self.winner == -1
            && player_number == u32::MAX) {
            PlayerResult::Win
        } else {
            PlayerResult::Loss
        }
    }

    /// A new game, for a tournament that asks this game for another one.
    pub fn new_game(&self) -> (r: Checkers)
        ensures
            state_of(r.spec_board()) == initial_state(),
            r.spec_winner() == -1,
            r.well_formed(),
    {
        Checkers::init()
    }
}

/// An engine that plays a random legal action.
pub struct RandomEngine {}

impl RandomEngine {
    pub fn new() -> RandomEngine {
        RandomEngine {  }
    }

    /// Selects a random action among all valid actions; `None` when there is none.
    pub fn select(&mut self, board: &Board) -> (r: Option<Action>)
        requires
            sound(board@),
        ensures
            (r is None) == (legal_in(state_of(*board)).len() == 0),
            r matches Some(a) ==> legal_in(state_of(*board)).contains(a@),
    {
        proof {
            law_sound_chains_fit(board@, board.spec_turn());
        }
        let actions = board.actions();
        match choose_random(&actions) {
            None => None,
            Some(a) => {
                proof {
                    lemma_models_contains(actions@, *a);
                }
                Some(a.duplicate())
            },
        }
    }

    /// Forgets all history: a random engine has none.
    pub fn clear(&mut self) {
    }
}

} // verus!
