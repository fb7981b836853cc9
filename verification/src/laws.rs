//! Properties of the rules: the actions offered to a player can be played,
//! they only move a piece of that player over empty squares and opposing
//! pieces, and playing one never adds a piece to either side.
use vstd::prelude::*;
use crate::geometry::{Cell, Color, Dir, Move, all_dirs, is_adversary, is_own, is_playable, opponent, pawn_dirs, pawn_of, queen_of, ray};
use crate::board::{padding_free, indices_with, indices_with_below, lemma_apply_moves_len};
use crate::rules::{
    ActionModel, actions_fit, adversary_at, after_move, all_jumps, applicable, applied, apply_moves,
    can_capture, cell_at, chains_fit, clear_ray, cleared, end_pos, has_jump_upto, jump_tree,
    jumps_dirs, jumps_of, landings, legal_actions, max_moves, move_ok, moves_ok, none_captured,
    passable, pawn_moves_of, pawn_steps, piece_jumps, queen_moves_of, queen_ray, queen_slides, scan,
    simple_actions, uncaptured, uncaptured_below, with_num_moves, with_start,
    lemma_uncaptured_update,
};
use crate::movegen::{captured_ok, lemma_indices_with};

verus! {

/// The slot holds a piece of player `c`.
pub open spec fn owned_by(o: Option<Cell>, c: Color) -> bool {
    match o {
        Some(v) => is_own(v, c),
        None => false,
    }
}

/// Number of pieces (pawns and queens) of player `c`.
pub open spec fn pieces(cells: Seq<Option<Cell>>, c: Color) -> nat
    decreases cells.len(),
{
    if cells.len() == 0 {
        0
    } else {
        pieces(cells.drop_last(), c) + if owned_by(cells.last(), c) {
            1nat
        } else {
            0nat
        }
    }
}

/// The squares at distance `lo..=hi` from `pos` in direction `d` hold values
/// that are not pieces of `turn`.
pub open spec fn nonown_ray(
    cells: Seq<Option<Cell>>,
    turn: Color,
    pos: int,
    d: Dir,
    lo: int,
    hi: int,
) -> bool {
    forall|k: int|
        lo <= k <= hi ==> match #[trigger] cell_at(cells, ray(pos, d, k)) {
            Some(c) => !is_own(c, turn),
            None => false,
        }
}

/// The move from `p` crosses at least one square, and every square that it
/// crosses or lands on holds a value that is not a piece of `turn`.
pub open spec fn step_ok(cells: Seq<Option<Cell>>, turn: Color, p: int, m: Move) -> bool {
    m.repeat >= 1 && nonown_ray(cells, turn, p, m.dir, 1, m.repeat as int)
}

/// The action moves a piece of `turn` and each move crosses only empty
/// squares or opposing pieces.
pub open spec fn path_ok(cells: Seq<Option<Cell>>, turn: Color, start: int, moves: Seq<Move>) -> bool {
    &&& owned_by(cell_at(cells, start), turn)
    &&& forall|t: int|
        0 <= t < moves.len() ==> step_ok(cells, turn, end_pos(start, moves.take(t)), #[trigger] moves[t])
}

pub open spec fn all_path_ok(cells: Seq<Option<Cell>>, turn: Color, s: Seq<ActionModel>) -> bool {
    forall|k: int| 0 <= k < s.len() ==> path_ok(cells, turn, #[trigger] s[k].0, s[k].1)
}

// ------------------------------------------------------------------
// Counting pieces
// ------------------------------------------------------------------
pub proof fn lemma_pieces_update(s: Seq<Option<Cell>>, i: int, v: Option<Cell>, c: Color)
    requires
        0 <= i < s.len(),
    ensures
        pieces(s.update(i, v), c) + (if owned_by(s[i], c) { 1int } else { 0int }) == pieces(s, c) + (
        if owned_by(v, c) {
            1int
        } else {
            0int
        }),
    decreases s.len(),
{
    if i == s.len() - 1 {
        assert(s.update(i, v).drop_last() =~= s.drop_last());
    } else {
        assert(s.update(i, v).drop_last() =~= s.drop_last().update(i, v));
        lemma_pieces_update(s.drop_last(), i, v, c);
    }
}

/// A piece belongs to one player only.
proof fn lemma_own_exclusive(o: Option<Cell>, turn: Color)
    ensures
        owned_by(o, turn) ==> !owned_by(o, opponent(turn)),
{
}

// ------------------------------------------------------------------
// Playing a move that follows a valid path
// ------------------------------------------------------------------
/// Clearing the first `k` squares of a move: what stays and what the counts become.
proof fn lemma_cleared_effect(
    e: Seq<Option<Cell>>,
    cells: Seq<Option<Cell>>,
    turn: Color,
    p: int,
    m: Move,
    k: int,
)
    requires
        e.len() == 46,
        cells.len() == 46,
        0 <= p < 46,
        owned_by(e[p], turn),
        cells[p] is Some,
        forall|x: int|
            0 <= x < 46 && x != p ==> e[x] == cells[x] || (e[x] == Some(Cell::Empty) && cells[x] is Some),
        step_ok(cells, turn, p, m),
        0 <= k <= m.repeat,
    ensures
        cleared(e, p, m.dir, k).len() == 46,
        forall|j: int| 0 <= j < k ==> #[trigger] cleared(e, p, m.dir, k)[ray(p, m.dir, j)] == Some(Cell::Empty),
        forall|x: int|
            0 <= x < 46 && (forall|j: int| 0 <= j < k ==> x != #[trigger] ray(p, m.dir, j)) ==> cleared(
                e,
                p,
                m.dir,
                k,
            )[x] == e[x],
        pieces(cleared(e, p, m.dir, k), turn) + (if k >= 1 { 1int } else { 0int }) == pieces(e, turn),
        pieces(cleared(e, p, m.dir, k), opponent(turn)) <= pieces(e, opponent(turn)),
    decreases k,
{
    if k > 0 {
        lemma_cleared_effect(e, cells, turn, p, m, k - 1);
        let c = cleared(e, p, m.dir, k - 1);
        let x = ray(p, m.dir, k - 1);
        assert(0 <= x < 46) by {
            if k - 1 >= 1 {
                assert(cell_at(cells, ray(p, m.dir, k - 1)) is Some);
            }
        }
        assert forall|j: int| 0 <= j < k - 1 implies x != #[trigger] ray(p, m.dir, j) by {}
        assert(c[x] == e[x]);
        lemma_pieces_update(c, x, Some(Cell::Empty), turn);
        lemma_pieces_update(c, x, Some(Cell::Empty), opponent(turn));
        if k - 1 >= 1 {
            assert(cell_at(cells, ray(p, m.dir, k - 1)) is Some);
            assert(x != p);
            assert(!owned_by(e[x], turn));
        } else {
            lemma_own_exclusive(e[p], turn);
        }
        let c2 = cleared(e, p, m.dir, k);
        assert forall|x2: int|
            0 <= x2 < 46 && (forall|j: int| 0 <= j < k ==> x2 != #[trigger] ray(p, m.dir, j)) implies c2[x2]
            == e[x2] by {
            assert(x2 != ray(p, m.dir, k - 1));
        }
    }
}

/// Playing one move that follows a valid path.
proof fn lemma_move_effect(e: Seq<Option<Cell>>, cells: Seq<Option<Cell>>, turn: Color, p: int, m: Move)
    requires
        e.len() == 46,
        cells.len() == 46,
        0 <= p < 46,
        owned_by(e[p], turn),
        cells[p] is Some,
        forall|x: int|
            0 <= x < 46 && x != p ==> e[x] == cells[x] || (e[x] == Some(Cell::Empty) && cells[x] is Some),
        step_ok(cells, turn, p, m),
    ensures
        move_ok(e, p, m),
        ({
            let e2 = after_move(e, p, m);
            let q = ray(p, m.dir, m.repeat as int);
            &&& e2.len() == 46
            &&& 0 <= q < 46
            &&& e2[q] == e[p]
            &&& cells[q] is Some
            &&& forall|x: int|
                0 <= x < 46 && x != q ==> e2[x] == cells[x] || (e2[x] == Some(Cell::Empty)
                    && cells[x] is Some)
            &&& pieces(e2, turn) == pieces(e, turn)
            &&& pieces(e2, opponent(turn)) <= pieces(e, opponent(turn))
        }),
{
    let r = m.repeat as int;
    let q = ray(p, m.dir, r);
    assert(cell_at(cells, ray(p, m.dir, r)) is Some);
    assert forall|k: int| 0 <= k <= m.repeat implies 0 <= #[trigger] ray(p, m.dir, k) < e.len() by {
        if k >= 1 {
            assert(cell_at(cells, ray(p, m.dir, k)) is Some);
        }
    }
    lemma_cleared_effect(e, cells, turn, p, m, r);
    let c = cleared(e, p, m.dir, r);
    assert forall|j: int| 0 <= j < r implies q != #[trigger] ray(p, m.dir, j) by {}
    assert(c[q] == e[q]);
    assert(q != p);
    assert(!owned_by(e[q], turn));
    lemma_pieces_update(c, q, e[p], turn);
    lemma_pieces_update(c, q, e[p], opponent(turn));
    lemma_own_exclusive(e[p], turn);
    let e2 = after_move(e, p, m);
    assert forall|x: int| 0 <= x < 46 && x != q implies e2[x] == cells[x] || (e2[x] == Some(
        Cell::Empty,
    ) && cells[x] is Some) by {
        if x == p {
            assert(c[ray(p, m.dir, 0)] == Some(Cell::Empty));
        } else if exists|j: int| 0 <= j < r && x == #[trigger] ray(p, m.dir, j) {
            let j = choose|j: int| 0 <= j < r && x == #[trigger] ray(p, m.dir, j);
            assert(c[ray(p, m.dir, j)] == Some(Cell::Empty));
            assert(cell_at(cells, ray(p, m.dir, j)) is Some);
        } else {
            assert(c[x] == e[x]);
        }
    }
}

/// Playing the moves of an action that follows a valid path.
pub proof fn lemma_moves_effect(cells: Seq<Option<Cell>>, turn: Color, start: int, moves: Seq<Move>)
    requires
        cells.len() == 46,
        path_ok(cells, turn, start, moves),
    ensures
        moves_ok(cells, start, moves),
        ({
            let e = apply_moves(cells, start, moves);
            let p = end_pos(start, moves);
            &&& e.len() == 46
            &&& 0 <= p < 46
            &&& e[p] == cells[start]
            &&& cells[p] is Some
            &&& forall|x: int|
                0 <= x < 46 && x != p ==> e[x] == cells[x] || (e[x] == Some(Cell::Empty)
                    && cells[x] is Some)
            &&& pieces(e, turn) == pieces(cells, turn)
            &&& pieces(e, opponent(turn)) <= pieces(cells, opponent(turn))
        }),
    decreases moves.len(),
{
    if moves.len() > 0 {
        let prev = moves.drop_last();
        assert forall|t: int| 0 <= t < prev.len() implies step_ok(
            cells,
            turn,
            end_pos(start, prev.take(t)),
            #[trigger] prev[t],
        ) by {
            assert(prev.take(t) =~= moves.take(t));
            assert(step_ok(cells, turn, end_pos(start, moves.take(t)), moves[t]));
        }
        lemma_moves_effect(cells, turn, start, prev);
        assert(moves.take(moves.len() - 1) =~= prev);
        assert(step_ok(cells, turn, end_pos(start, moves.take(moves.len() - 1)), moves[moves.len() - 1]));
        lemma_move_effect(
            apply_moves(cells, start, prev),
            cells,
            turn,
            end_pos(start, prev),
            moves.last(),
        );
    }
}

/// An action that follows a valid path can be played; the player's piece
/// count stays the same and the opponent's does not grow.
pub proof fn lemma_path_applied(cells: Seq<Option<Cell>>, turn: Color, a: ActionModel)
    requires
        cells.len() == 46,
        path_ok(cells, turn, a.0, a.1),
    ensures
        applicable(cells, a),
        pieces(applied(cells, turn, a), turn) == pieces(cells, turn),
        pieces(applied(cells, turn, a), opponent(turn)) <= pieces(cells, opponent(turn)),
        padding_free(cells) ==> padding_free(applied(cells, turn, a)),
{
    lemma_moves_effect(cells, turn, a.0, a.1);
    let e = apply_moves(cells, a.0, a.1);
    let p = end_pos(a.0, a.1);
    let qw = Some(Cell::WhiteQueen);
    let qb = Some(Cell::BlackQueen);
    lemma_pieces_update(e, p, qw, turn);
    lemma_pieces_update(e, p, qw, opponent(turn));
    lemma_pieces_update(e, p, qb, turn);
    lemma_pieces_update(e, p, qb, opponent(turn));
}

// ------------------------------------------------------------------
// The actions offered follow valid paths
// ------------------------------------------------------------------
/// What `scan` passes over and what it finds are squares without a piece of `turn`.
proof fn lemma_scan_nonown(
    cells: Seq<Option<Cell>>,
    turn: Color,
    l: int,
    pos: int,
    d: Dir,
    captured: Seq<bool>,
    s: int,
)
    ensures
        scan(cells, turn, l, pos, d, captured, s) matches Some(i) ==> nonown_ray(cells, turn, pos, d, s, i),
    decreases l - s,
{
    if s < l {
        lemma_scan_nonown(cells, turn, l, pos, d, captured, s + 1);
        match scan(cells, turn, l, pos, d, captured, s) {
            Some(i) => {
                assert forall|k: int| s <= k <= i implies match #[trigger] cell_at(cells, ray(pos, d, k)) {
                    Some(c) => !is_own(c, turn),
                    None => false,
                } by {
                    if k > s {
                    }
                }
            },
            None => {},
        }
    }
}

/// Extending a valid path with a valid step.
proof fn lemma_path_push(cells: Seq<Option<Cell>>, turn: Color, start: int, prefix: Seq<Move>, m: Move)
    requires
        path_ok(cells, turn, start, prefix),
        step_ok(cells, turn, end_pos(start, prefix), m),
    ensures
        path_ok(cells, turn, start, prefix.push(m)),
        end_pos(start, prefix.push(m)) == ray(end_pos(start, prefix), m.dir, m.repeat as int),
{
    let p2 = prefix.push(m);
    assert(p2.drop_last() =~= prefix);
    assert forall|t: int| 0 <= t < p2.len() implies step_ok(
        cells,
        turn,
        end_pos(start, p2.take(t)),
        #[trigger] p2[t],
    ) by {
        if t < prefix.len() {
            assert(p2.take(t) =~= prefix.take(t));
            assert(step_ok(cells, turn, end_pos(start, prefix.take(t)), prefix[t]));
        } else {
            assert(p2.take(t) =~= prefix);
        }
    }
}

/// The sequences of the capture tree follow valid paths and capture at most
/// the number of adversaries not yet captured.
pub proof fn lemma_tree_facts(
    cells: Seq<Option<Cell>>,
    turn: Color,
    l: int,
    pos: int,
    captured: Seq<bool>,
    prefix: Seq<Move>,
    start: int,
)
    requires
        l <= 7,
        cells.len() == 46,
        captured_ok(cells, turn, captured),
        path_ok(cells, turn, start, prefix),
        end_pos(start, prefix) == pos,
    ensures
        forall|k: int|
            0 <= k < jump_tree(cells, turn, l, pos, captured, prefix).len() ==> path_ok(
                cells,
                turn,
                start,
                #[trigger] jump_tree(cells, turn, l, pos, captured, prefix)[k],
            ) && jump_tree(cells, turn, l, pos, captured, prefix)[k].len() <= prefix.len()
                + uncaptured(cells, turn, captured),
    decreases uncaptured(cells, turn, captured), 2int, 0int,
{
    let t = jump_tree(cells, turn, l, pos, captured, prefix);
    if has_jump_upto(cells, turn, l, pos, captured, 4) {
        lemma_dirs_facts(cells, turn, l, pos, captured, prefix, start, 4);
        let t2 = jumps_dirs(cells, turn, l, pos, captured, prefix, 4);
        assert(t == t2);
        assert forall|k: int| 0 <= k < t.len() implies path_ok(cells, turn, start, #[trigger] t[k])
            && t[k].len() <= prefix.len() + uncaptured(cells, turn, captured) by {
            assert(t[k] == t2[k]);
        }
    } else if prefix.len() > 0 {
        assert(t == seq![prefix]);
        assert forall|k: int| 0 <= k < t.len() implies path_ok(cells, turn, start, #[trigger] t[k])
            && t[k].len() <= prefix.len() + uncaptured(cells, turn, captured) by {
            assert(t[k] == prefix);
        }
    }
}

proof fn lemma_dirs_facts(
    cells: Seq<Option<Cell>>,
    turn: Color,
    l: int,
    pos: int,
    captured: Seq<bool>,
    prefix: Seq<Move>,
    start: int,
    n: int,
)
    requires
        l <= 7,
        cells.len() == 46,
        captured_ok(cells, turn, captured),
        path_ok(cells, turn, start, prefix),
        end_pos(start, prefix) == pos,
    ensures
        forall|k: int|
            0 <= k < jumps_dirs(cells, turn, l, pos, captured, prefix, n).len() ==> path_ok(
                cells,
                turn,
                start,
                #[trigger] jumps_dirs(cells, turn, l, pos, captured, prefix, n)[k],
            ) && jumps_dirs(cells, turn, l, pos, captured, prefix, n)[k].len() <= prefix.len()
                + uncaptured(cells, turn, captured),
    decreases uncaptured(cells, turn, captured), 1int, n,
{
    if n > 0 {
        let d = all_dirs()[n - 1];
        lemma_dirs_facts(cells, turn, l, pos, captured, prefix, start, n - 1);
        lemma_scan_nonown(cells, turn, l, pos, d, captured, 1);
        crate::rules::lemma_scan_result(cells, turn, l, pos, d, captured, 1);
        let rest = jumps_dirs(cells, turn, l, pos, captured, prefix, n - 1);
        match scan(cells, turn, l, pos, d, captured, 1) {
            Some(i) => {
                lemma_landings_facts(cells, turn, l, pos, d, captured, ray(pos, d, i), prefix, start, i + 1);
                let part = landings(cells, turn, l, pos, d, captured, ray(pos, d, i), prefix, i + 1);
                assert forall|k: int| 0 <= k < (rest + part).len() implies path_ok(
                    cells,
                    turn,
                    start,
                    #[trigger] (rest + part)[k],
                ) && (rest + part)[k].len() <= prefix.len() + uncaptured(cells, turn, captured) by {
                    if k < rest.len() {
                        assert((rest + part)[k] == rest[k]);
                    } else {
                        assert((rest + part)[k] == part[k - rest.len()]);
                    }
                }
            },
            None => {
                assert(rest + Seq::<Seq<Move>>::empty() =~= rest);
            },
        }
    }
}

proof fn lemma_landings_facts(
    cells: Seq<Option<Cell>>,
    turn: Color,
    l: int,
    pos: int,
    d: Dir,
    captured: Seq<bool>,
    a: int,
    prefix: Seq<Move>,
    start: int,
    j: int,
)
    requires
        l <= 7,
        cells.len() == 46,
        captured_ok(cells, turn, captured),
        path_ok(cells, turn, start, prefix),
        end_pos(start, prefix) == pos,
        j >= 1,
        nonown_ray(cells, turn, pos, d, 1, j - 1),
    ensures
        forall|k: int|
            0 <= k < landings(cells, turn, l, pos, d, captured, a, prefix, j).len() ==> path_ok(
                cells,
                turn,
                start,
                #[trigger] landings(cells, turn, l, pos, d, captured, a, prefix, j)[k],
            ) && landings(cells, turn, l, pos, d, captured, a, prefix, j)[k].len() <= prefix.len()
                + uncaptured(cells, turn, captured),
    decreases uncaptured(cells, turn, captured), 0int, l + 1 - j,
{
    if can_capture(cells, turn, captured, a) && j <= l {
        let after = captured.update(a, true);
        let x = ray(pos, d, j);
        if passable(cells, after, x) {
            lemma_uncaptured_update(cells, turn, captured, a, 46);
            let m = Move { dir: d, repeat: j as u8 };
            assert(nonown_ray(cells, turn, pos, d, 1, j)) by {
                assert forall|k: int| 1 <= k <= j implies match #[trigger] cell_at(cells, ray(pos, d, k)) {
                    Some(c) => !is_own(c, turn),
                    None => false,
                } by {
                    if k == j {
                        if cell_at(cells, x) != Some(Cell::Empty) {
                            if x != a {
                                assert(captured[x]);
                                assert(adversary_at(cells, turn, x));
                            }
                        }
                    }
                }
            }
            assert(step_ok(cells, turn, pos, m));
            lemma_path_push(cells, turn, start, prefix, m);
            let p2 = prefix.push(m);
            assert(captured_ok(cells, turn, after));
            lemma_tree_facts(cells, turn, l, x, after, p2, start);
            lemma_landings_facts(cells, turn, l, pos, d, captured, a, prefix, start, j + 1);
            let t = jump_tree(cells, turn, l, x, after, p2);
            let rest = landings(cells, turn, l, pos, d, captured, a, prefix, j + 1);
            assert forall|k: int| 0 <= k < (t + rest).len() implies path_ok(
                cells,
                turn,
                start,
                #[trigger] (t + rest)[k],
            ) && (t + rest)[k].len() <= prefix.len() + uncaptured(cells, turn, captured) by {
                if k < t.len() {
                    assert((t + rest)[k] == t[k]);
                } else {
                    assert((t + rest)[k] == rest[k - t.len()]);
                }
            }
        }
    }
}

proof fn lemma_all_path_ok_add(cells: Seq<Option<Cell>>, turn: Color, a: Seq<ActionModel>, b: Seq<ActionModel>)
    requires
        all_path_ok(cells, turn, a),
        all_path_ok(cells, turn, b),
    ensures
        all_path_ok(cells, turn, a + b),
{
    assert forall|k: int| 0 <= k < (a + b).len() implies path_ok(cells, turn, #[trigger] (a + b)[k].0, (a + b)[k].1) by {
        if k < a.len() {
            assert((a + b)[k] == a[k]);
        } else {
            assert((a + b)[k] == b[k - a.len()]);
        }
    }
}

/// The starting square of each listed position holds a piece of `turn`.
pub open spec fn all_owned(cells: Seq<Option<Cell>>, turn: Color, ps: Seq<int>) -> bool {
    forall|k: int| 0 <= k < ps.len() ==> owned_by(cell_at(cells, #[trigger] ps[k]), turn)
}

proof fn lemma_indices_owned(cells: Seq<Option<Cell>>, turn: Color, x: Cell)
    requires
        padding_free(cells),
        is_own(x, turn),
    ensures
        all_owned(cells, turn, indices_with(cells, x)),
{
    lemma_indices_with(cells, x, 41);
    assert forall|k: int| 0 <= k < indices_with(cells, x).len() implies owned_by(
        cell_at(cells, #[trigger] indices_with(cells, x)[k]),
        turn,
    ) by {
        let i = indices_with_below(cells, x, 41)[k];
        assert(cells[i] == Some(x));
    }
}

proof fn lemma_jumps_of_facts(cells: Seq<Option<Cell>>, turn: Color, l: int, ps: Seq<int>)
    requires
        l <= 7,
        cells.len() == 46,
        all_owned(cells, turn, ps),
    ensures
        all_path_ok(cells, turn, jumps_of(cells, turn, l, ps)),
        forall|k: int|
            0 <= k < jumps_of(cells, turn, l, ps).len() ==> #[trigger] jumps_of(cells, turn, l, ps)[k].1.len()
                <= uncaptured(cells, turn, none_captured()),
    decreases ps.len(),
{
    if ps.len() > 0 {
        lemma_jumps_of_facts(cells, turn, l, ps.drop_last());
        let pos = ps.last();
        assert(owned_by(cell_at(cells, ps[ps.len() - 1]), turn));
        assert(captured_ok(cells, turn, none_captured()));
        lemma_tree_facts(cells, turn, l, pos, none_captured(), Seq::empty(), pos);
        let t = jump_tree(cells, turn, l, pos, none_captured(), Seq::empty());
        let pj = piece_jumps(cells, turn, l, pos);
        let rest = jumps_of(cells, turn, l, ps.drop_last());
        assert forall|k: int| 0 <= k < pj.len() implies path_ok(cells, turn, #[trigger] pj[k].0, pj[k].1) && pj[k].1.len()
            <= uncaptured(cells, turn, none_captured()) by {
            assert(pj[k] == (pos, t[k]));
        }
        lemma_all_path_ok_add(cells, turn, rest, pj);
        assert forall|k: int| 0 <= k < (rest + pj).len() implies #[trigger] (rest + pj)[k].1.len()
            <= uncaptured(cells, turn, none_captured()) by {
            if k < rest.len() {
                assert((rest + pj)[k] == rest[k]);
            } else {
                assert((rest + pj)[k] == pj[k - rest.len()]);
            }
        }
    }
}

proof fn lemma_pawn_steps_ok(cells: Seq<Option<Cell>>, turn: Color, pos: int, dirs: Seq<Dir>)
    requires
        owned_by(cell_at(cells, pos), turn),
    ensures
        all_path_ok(cells, turn, pawn_steps(cells, pos, dirs)),
    decreases dirs.len(),
{
    if dirs.len() > 0 {
        lemma_pawn_steps_ok(cells, turn, pos, dirs.drop_last());
        let d = dirs.last();
        let m = Move { dir: d, repeat: 1 };
        let rest = pawn_steps(cells, pos, dirs.drop_last());
        if cell_at(cells, ray(pos, d, 1)) == Some(Cell::Empty) {
            assert(step_ok(cells, turn, pos, m));
            lemma_path_push(cells, turn, pos, Seq::empty(), m);
            assert(Seq::<Move>::empty().push(m) =~= seq![m]);
            assert forall|k: int| 0 <= k < rest.push((pos, seq![m])).len() implies path_ok(
                cells,
                turn,
                #[trigger] rest.push((pos, seq![m]))[k].0,
                rest.push((pos, seq![m]))[k].1,
            ) by {
                if k < rest.len() {
                    assert(rest.push((pos, seq![m]))[k] == rest[k]);
                }
            }
        }
    }
}

proof fn lemma_queen_ray_ok(cells: Seq<Option<Cell>>, turn: Color, pos: int, d: Dir, n: int)
    requires
        owned_by(cell_at(cells, pos), turn),
        n <= 7,
    ensures
        all_path_ok(cells, turn, queen_ray(cells, pos, d, n)),
    decreases n,
{
    if n > 0 {
        lemma_queen_ray_ok(cells, turn, pos, d, n - 1);
        let m = Move { dir: d, repeat: n as u8 };
        let rest = queen_ray(cells, pos, d, n - 1);
        if clear_ray(cells, pos, d, n) {
            assert(nonown_ray(cells, turn, pos, d, 1, n)) by {
                assert forall|k: int| 1 <= k <= n implies match #[trigger] cell_at(cells, ray(pos, d, k)) {
                    Some(c) => !is_own(c, turn),
                    None => false,
                } by {
                    assert(cell_at(cells, ray(pos, d, k)) == Some(Cell::Empty));
                }
            }
            assert(step_ok(cells, turn, pos, m));
            lemma_path_push(cells, turn, pos, Seq::empty(), m);
            assert(Seq::<Move>::empty().push(m) =~= seq![m]);
            assert forall|k: int| 0 <= k < rest.push((pos, seq![m])).len() implies path_ok(
                cells,
                turn,
                #[trigger] rest.push((pos, seq![m]))[k].0,
                rest.push((pos, seq![m]))[k].1,
            ) by {
                if k < rest.len() {
                    assert(rest.push((pos, seq![m]))[k] == rest[k]);
                }
            }
        }
    }
}

proof fn lemma_queen_slides_ok(cells: Seq<Option<Cell>>, turn: Color, pos: int, n: int)
    requires
        owned_by(cell_at(cells, pos), turn),
    ensures
        all_path_ok(cells, turn, queen_slides(cells, pos, n)),
    decreases n,
{
    if n > 0 {
        lemma_queen_slides_ok(cells, turn, pos, n - 1);
        lemma_queen_ray_ok(cells, turn, pos, all_dirs()[n - 1], 7);
        lemma_all_path_ok_add(cells, turn, queen_slides(cells, pos, n - 1), queen_ray(cells, pos, all_dirs()[n - 1], 7));
    }
}

proof fn lemma_simple_ok(cells: Seq<Option<Cell>>, turn: Color, pawns: Seq<int>, queens: Seq<int>)
    requires
        all_owned(cells, turn, pawns),
        all_owned(cells, turn, queens),
    ensures
        all_path_ok(cells, turn, pawn_moves_of(cells, turn, pawns)),
        all_path_ok(cells, turn, queen_moves_of(cells, queens)),
    decreases pawns.len() + queens.len(),
{
    if pawns.len() > 0 {
        lemma_simple_ok(cells, turn, pawns.drop_last(), queens);
        assert(owned_by(cell_at(cells, pawns[pawns.len() - 1]), turn));
        lemma_pawn_steps_ok(cells, turn, pawns.last(), pawn_dirs(turn));
        lemma_all_path_ok_add(cells, turn, pawn_moves_of(cells, turn, pawns.drop_last()), pawn_steps(cells, pawns.last(), pawn_dirs(turn)));
    }
    if queens.len() > 0 {
        lemma_simple_ok(cells, turn, pawns, queens.drop_last());
        assert(owned_by(cell_at(cells, queens[queens.len() - 1]), turn));
        lemma_queen_slides_ok(cells, turn, queens.last(), 4);
        lemma_all_path_ok_add(cells, turn, queen_moves_of(cells, queens.drop_last()), queen_slides(cells, queens.last(), 4));
    }
}

proof fn lemma_with_num_moves_ok(cells: Seq<Option<Cell>>, turn: Color, s: Seq<ActionModel>, m: int)
    requires
        all_path_ok(cells, turn, s),
    ensures
        all_path_ok(cells, turn, with_num_moves(s, m)),
        forall|k: int| 0 <= k < with_num_moves(s, m).len() ==> #[trigger] with_num_moves(s, m)[k].1.len() == m,
    decreases s.len(),
{
    if s.len() > 0 {
        assert forall|k: int| 0 <= k < s.drop_last().len() implies path_ok(cells, turn, #[trigger] s.drop_last()[k].0, s.drop_last()[k].1) by {
            assert(s.drop_last()[k] == s[k]);
        }
        lemma_with_num_moves_ok(cells, turn, s.drop_last(), m);
        assert(path_ok(cells, turn, s[s.len() - 1].0, s[s.len() - 1].1));
    }
}

/// Every action offered to the player to move follows a valid path.
pub proof fn lemma_legal_paths(cells: Seq<Option<Cell>>, turn: Color, num_ply: int)
    requires
        padding_free(cells),
    ensures
        all_path_ok(cells, turn, legal_actions(cells, turn, num_ply)),
{
    let pawns = indices_with(cells, pawn_of(turn));
    let queens = indices_with(cells, queen_of(turn));
    lemma_indices_owned(cells, turn, pawn_of(turn));
    lemma_indices_owned(cells, turn, queen_of(turn));
    if num_ply < crate::geometry::MAX_PLY {
        let j = all_jumps(cells, turn);
        if j.len() > 0 {
            lemma_jumps_of_facts(cells, turn, 2, pawns);
            lemma_jumps_of_facts(cells, turn, 7, queens);
            lemma_all_path_ok_add(cells, turn, jumps_of(cells, turn, 2, pawns), jumps_of(cells, turn, 7, queens));
            lemma_with_num_moves_ok(cells, turn, j, max_moves(j));
        } else {
            lemma_simple_ok(cells, turn, pawns, queens);
            lemma_all_path_ok_add(cells, turn, pawn_moves_of(cells, turn, pawns), queen_moves_of(cells, queens));
        }
    }
}

/// The adversaries of `turn` are the pieces of its opponent.
proof fn lemma_uncaptured_pieces(cells: Seq<Option<Cell>>, turn: Color, k: int)
    requires
        cells.len() == 46,
        0 <= k <= 46,
    ensures
        uncaptured_below(cells, turn, none_captured(), k) == pieces(cells.take(k), opponent(turn)),
    decreases k,
{
    if k > 0 {
        lemma_uncaptured_pieces(cells, turn, k - 1);
        assert(cells.take(k).drop_last() =~= cells.take(k - 1));
    }
}

/// When the opponent has at most 12 pieces, no capture sequence is longer
/// than an action can hold.
pub proof fn lemma_chains_fit(cells: Seq<Option<Cell>>, turn: Color)
    requires
        padding_free(cells),
        pieces(cells, opponent(turn)) <= 12,
    ensures
        chains_fit(cells, turn),
{
    let pawns = indices_with(cells, pawn_of(turn));
    let queens = indices_with(cells, queen_of(turn));
    lemma_indices_owned(cells, turn, pawn_of(turn));
    lemma_indices_owned(cells, turn, queen_of(turn));
    lemma_uncaptured_pieces(cells, turn, 46);
    assert(cells.take(46) =~= cells);
    lemma_jumps_of_facts(cells, turn, 2, pawns);
    lemma_jumps_of_facts(cells, turn, 7, queens);
    let a = jumps_of(cells, turn, 2, pawns);
    let b = jumps_of(cells, turn, 7, queens);
    assert forall|k: int| 0 <= k < (a + b).len() implies #[trigger] (a + b)[k].1.len() <= 12 by {
        if k < a.len() {
            assert((a + b)[k] == a[k]);
        } else {
            assert((a + b)[k] == b[k - a.len()]);
        }
    }
}

// ------------------------------------------------------------------
// Lengths of the actions offered
// ------------------------------------------------------------------
/// Every action holds between `lo` and `hi` moves.
pub open spec fn lengths_within(s: Seq<ActionModel>, lo: int, hi: int) -> bool {
    forall|k: int| 0 <= k < s.len() ==> lo <= #[trigger] s[k].1.len() <= hi
}

proof fn lemma_lengths_add(a: Seq<ActionModel>, b: Seq<ActionModel>, lo: int, hi: int)
    requires
        lengths_within(a, lo, hi),
        lengths_within(b, lo, hi),
    ensures
        lengths_within(a + b, lo, hi),
{
    assert forall|k: int| 0 <= k < (a + b).len() implies lo <= #[trigger] (a + b)[k].1.len() <= hi by {
        if k < a.len() {
            assert((a + b)[k] == a[k]);
        } else {
            assert((a + b)[k] == b[k - a.len()]);
        }
    }
}

proof fn lemma_lengths_push(a: Seq<ActionModel>, x: ActionModel, lo: int, hi: int)
    requires
        lengths_within(a, lo, hi),
        lo <= x.1.len() <= hi,
    ensures
        lengths_within(a.push(x), lo, hi),
{
    assert forall|k: int| 0 <= k < a.push(x).len() implies lo <= #[trigger] a.push(x)[k].1.len() <= hi by {
        if k < a.len() {
            assert(a.push(x)[k] == a[k]);
        }
    }
}

proof fn lemma_simple_lengths(cells: Seq<Option<Cell>>, turn: Color, pawns: Seq<int>, queens: Seq<int>)
    ensures
        lengths_within(pawn_moves_of(cells, turn, pawns), 1, 1),
        lengths_within(queen_moves_of(cells, queens), 1, 1),
    decreases pawns.len() + queens.len(),
{
    if pawns.len() > 0 {
        lemma_simple_lengths(cells, turn, pawns.drop_last(), queens);
        lemma_pawn_steps_lengths(cells, pawns.last(), pawn_dirs(turn));
        lemma_lengths_add(pawn_moves_of(cells, turn, pawns.drop_last()), pawn_steps(cells, pawns.last(), pawn_dirs(turn)), 1, 1);
    }
    if queens.len() > 0 {
        lemma_simple_lengths(cells, turn, pawns, queens.drop_last());
        lemma_queen_slides_lengths(cells, queens.last(), 4);
        lemma_lengths_add(queen_moves_of(cells, queens.drop_last()), queen_slides(cells, queens.last(), 4), 1, 1);
    }
}

proof fn lemma_pawn_steps_lengths(cells: Seq<Option<Cell>>, pos: int, dirs: Seq<Dir>)
    ensures
        lengths_within(pawn_steps(cells, pos, dirs), 1, 1),
    decreases dirs.len(),
{
    if dirs.len() > 0 {
        lemma_pawn_steps_lengths(cells, pos, dirs.drop_last());
        let d = dirs.last();
        if cell_at(cells, ray(pos, d, 1)) == Some(Cell::Empty) {
            lemma_lengths_push(pawn_steps(cells, pos, dirs.drop_last()), (pos, seq![Move { dir: d, repeat: 1 }]), 1, 1);
        }
    }
}

proof fn lemma_queen_ray_lengths(cells: Seq<Option<Cell>>, pos: int, d: Dir, n: int)
    ensures
        lengths_within(queen_ray(cells, pos, d, n), 1, 1),
    decreases n,
{
    if n > 0 {
        lemma_queen_ray_lengths(cells, pos, d, n - 1);
        if clear_ray(cells, pos, d, n) {
            lemma_lengths_push(queen_ray(cells, pos, d, n - 1), (pos, seq![Move { dir: d, repeat: n as u8 }]), 1, 1);
        }
    }
}

proof fn lemma_queen_slides_lengths(cells: Seq<Option<Cell>>, pos: int, n: int)
    ensures
        lengths_within(queen_slides(cells, pos, n), 1, 1),
    decreases n,
{
    if n > 0 {
        lemma_queen_slides_lengths(cells, pos, n - 1);
        lemma_queen_ray_lengths(cells, pos, all_dirs()[n - 1], 7);
        lemma_lengths_add(queen_slides(cells, pos, n - 1), queen_ray(cells, pos, all_dirs()[n - 1], 7), 1, 1);
    }
}

proof fn lemma_jumps_of_nonempty_moves(cells: Seq<Option<Cell>>, turn: Color, l: int, ps: Seq<int>)
    requires
        cells.len() == 46,
        actions_fit(jumps_of(cells, turn, l, ps)),
    ensures
        lengths_within(jumps_of(cells, turn, l, ps), 1, 12),
    decreases ps.len(),
{
    if ps.len() > 0 {
        let pos = ps.last();
        let t = jump_tree(cells, turn, l, pos, none_captured(), Seq::empty());
        let pj = piece_jumps(cells, turn, l, pos);
        let rest = jumps_of(cells, turn, l, ps.drop_last());
        assert forall|k: int| 0 <= k < rest.len() implies #[trigger] rest[k].1.len() <= 12 by {
            assert((rest + pj)[k] == rest[k]);
        }
        lemma_jumps_of_nonempty_moves(cells, turn, l, ps.drop_last());
        if has_jump_upto(cells, turn, l, pos, none_captured(), 4) {
            crate::rules::lemma_dirs_shape(cells, turn, l, pos, none_captured(), Seq::empty(), 4);
        }
        assert forall|k: int| 0 <= k < pj.len() implies 1 <= #[trigger] pj[k].1.len() <= 12 by {
            assert(pj[k].1 == t[k]);
            assert((rest + pj)[rest.len() + k] == pj[k]);
        }
        lemma_lengths_add(rest, pj, 1, 12);
    }
}

proof fn lemma_with_num_moves_lengths(s: Seq<ActionModel>, m: int, lo: int, hi: int)
    requires
        lengths_within(s, lo, hi),
    ensures
        lengths_within(with_num_moves(s, m), lo, hi),
    decreases s.len(),
{
    if s.len() > 0 {
        assert forall|k: int| 0 <= k < s.drop_last().len() implies lo <= #[trigger] s.drop_last()[k].1.len() <= hi by {
            assert(s.drop_last()[k] == s[k]);
        }
        lemma_with_num_moves_lengths(s.drop_last(), m, lo, hi);
        if s.last().1.len() == m {
            assert(s.last() == s[s.len() - 1]);
            lemma_lengths_push(with_num_moves(s.drop_last(), m), s.last(), lo, hi);
        }
    }
}

/// Every action offered holds between 1 and 12 moves.
pub proof fn lemma_legal_lengths(cells: Seq<Option<Cell>>, turn: Color, num_ply: int)
    requires
        padding_free(cells),
        chains_fit(cells, turn),
    ensures
        lengths_within(legal_actions(cells, turn, num_ply), 1, 12),
{
    let pawns = indices_with(cells, pawn_of(turn));
    let queens = indices_with(cells, queen_of(turn));
    if num_ply < crate::geometry::MAX_PLY {
        let j = all_jumps(cells, turn);
        let a = jumps_of(cells, turn, 2, pawns);
        let b = jumps_of(cells, turn, 7, queens);
        if j.len() > 0 {
            assert forall|k: int| 0 <= k < a.len() implies #[trigger] a[k].1.len() <= 12 by {
                assert((a + b)[k] == a[k]);
            }
            assert forall|k: int| 0 <= k < b.len() implies #[trigger] b[k].1.len() <= 12 by {
                assert((a + b)[a.len() + k] == b[k]);
            }
            lemma_jumps_of_nonempty_moves(cells, turn, 2, pawns);
            lemma_jumps_of_nonempty_moves(cells, turn, 7, queens);
            lemma_lengths_add(a, b, 1, 12);
            lemma_with_num_moves_lengths(j, max_moves(j), 1, 12);
        } else {
            lemma_simple_lengths(cells, turn, pawns, queens);
            lemma_lengths_add(pawn_moves_of(cells, turn, pawns), queen_moves_of(cells, queens), 1, 1);
            assert(lengths_within(simple_actions(cells, turn), 1, 12));
        }
    }
}

} // verus!
