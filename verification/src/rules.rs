//! The rules of the game as spec functions over the content of the padded
//! array: simple moves, capture sequences, and the actions that the player
//! to move may choose from.
use vstd::prelude::*;
use crate::geometry::{
    Cell, Color, Dir, Move, all_dirs, is_adversary, is_playable, pawn_dirs, pawn_of, queen_of,
    ray, MAX_PLY,
};
use crate::board::{indices_with, indices_with_below, padding_free};

verus! {

/// An action as a value: the index of the starting square and the moves.
pub type ActionModel = (int, Seq<Move>);

/// The value of a slot, `None` outside of the array.
pub open spec fn cell_at(cells: Seq<Option<Cell>>, i: int) -> Option<Cell> {
    if 0 <= i < cells.len() {
        cells[i]
    } else {
        None
    }
}

// ------------------------------------------------------------------
// Simple moves (no capture)
// ------------------------------------------------------------------
/// One-square pawn moves from `pos` in the directions `dirs`, to empty squares.
pub open spec fn pawn_steps(cells: Seq<Option<Cell>>, pos: int, dirs: Seq<Dir>) -> Seq<ActionModel>
    decreases dirs.len(),
{
    if dirs.len() == 0 {
        Seq::empty()
    } else {
        let rest = pawn_steps(cells, pos, dirs.drop_last());
        let d = dirs.last();
        if cell_at(cells, ray(pos, d, 1)) == Some(Cell::Empty) {
            rest.push((pos, seq![Move { dir: d, repeat: 1 }]))
        } else {
            rest
        }
    }
}

/// The squares at distance `1..=k` from `pos` in direction `d` are all empty.
pub open spec fn clear_ray(cells: Seq<Option<Cell>>, pos: int, d: Dir, k: int) -> bool {
    forall|j: int| 1 <= j <= k ==> cell_at(cells, #[trigger] ray(pos, d, j)) == Some(Cell::Empty)
}

/// Queen moves from `pos` in direction `d` of length `1..=k`, over empty squares.
pub open spec fn queen_ray(cells: Seq<Option<Cell>>, pos: int, d: Dir, k: int) -> Seq<ActionModel>
    decreases k,
{
    if k <= 0 {
        Seq::empty()
    } else if clear_ray(cells, pos, d, k) {
        queen_ray(cells, pos, d, k - 1).push((pos, seq![Move { dir: d, repeat: k as u8 }]))
    } else {
        queen_ray(cells, pos, d, k - 1)
    }
}

/// Queen moves from `pos` in the first `n` directions.
pub open spec fn queen_slides(cells: Seq<Option<Cell>>, pos: int, n: int) -> Seq<ActionModel>
    decreases n,
{
    if n <= 0 {
        Seq::empty()
    } else {
        queen_slides(cells, pos, n - 1) + queen_ray(cells, pos, all_dirs()[n - 1], 7)
    }
}

/// Simple moves of the pawns at the positions `ps`.
pub open spec fn pawn_moves_of(cells: Seq<Option<Cell>>, turn: Color, ps: Seq<int>) -> Seq<
    ActionModel,
>
    decreases ps.len(),
{
    if ps.len() == 0 {
        Seq::empty()
    } else {
        pawn_moves_of(cells, turn, ps.drop_last()) + pawn_steps(cells, ps.last(), pawn_dirs(turn))
    }
}

/// Simple moves of the queens at the positions `ps`.
pub open spec fn queen_moves_of(cells: Seq<Option<Cell>>, ps: Seq<int>) -> Seq<ActionModel>
    decreases ps.len(),
{
    if ps.len() == 0 {
        Seq::empty()
    } else {
        queen_moves_of(cells, ps.drop_last()) + queen_slides(cells, ps.last(), 4)
    }
}

/// All simple moves of the player `turn`: pawns first, then queens.
pub open spec fn simple_actions(cells: Seq<Option<Cell>>, turn: Color) -> Seq<ActionModel> {
    pawn_moves_of(cells, turn, indices_with(cells, pawn_of(turn))) + queen_moves_of(
        cells,
        indices_with(cells, queen_of(turn)),
    )
}

// ------------------------------------------------------------------
// Captures
// ------------------------------------------------------------------
/// The slot holds a piece of the opponent of `turn`.
pub open spec fn adversary_at(cells: Seq<Option<Cell>>, turn: Color, i: int) -> bool {
    match cell_at(cells, i) {
        Some(c) => is_adversary(c, turn),
        None => false,
    }
}

/// Number of adversary pieces at indices below `k` that are not marked as captured.
pub open spec fn uncaptured_below(
    cells: Seq<Option<Cell>>,
    turn: Color,
    captured: Seq<bool>,
    k: int,
) -> nat
    decreases k,
{
    if k <= 0 {
        0
    } else {
        uncaptured_below(cells, turn, captured, k - 1) + if adversary_at(cells, turn, k - 1) && !(
        0 <= k - 1 < captured.len() && captured[k - 1]) {
            1nat
        } else {
            0nat
        }
    }
}

/// Number of adversary pieces not marked as captured.
pub open spec fn uncaptured(cells: Seq<Option<Cell>>, turn: Color, captured: Seq<bool>) -> nat {
    uncaptured_below(cells, turn, captured, 46)
}

/// A moving piece may pass over (or land on) the slot: it is empty, or holds
/// a piece already captured earlier in the same action.
pub open spec fn passable(cells: Seq<Option<Cell>>, captured: Seq<bool>, i: int) -> bool {
    cell_at(cells, i) == Some(Cell::Empty) || (0 <= i < captured.len() && captured[i])
}

/// The adversary at slot `a` may be captured (it is not captured yet).
pub open spec fn can_capture(cells: Seq<Option<Cell>>, turn: Color, captured: Seq<bool>, a: int) -> bool {
    &&& captured.len() == 46
    &&& 0 <= a < 46
    &&& adversary_at(cells, turn, a)
    &&& !captured[a]
}

/// Looking from `pos` in direction `d`, from distance `i` up to `l - 1`:
/// the distance of the first piece that can be captured, when only empty or
/// captured squares stand before it.
pub open spec fn scan(
    cells: Seq<Option<Cell>>,
    turn: Color,
    l: int,
    pos: int,
    d: Dir,
    captured: Seq<bool>,
    i: int,
) -> Option<int>
    decreases l - i,
{
    if i >= l {
        None
    } else {
        let x = ray(pos, d, i);
        match cell_at(cells, x) {
            None => None,
            Some(c) => if c == Cell::Empty {
                scan(cells, turn, l, pos, d, captured, i + 1)
            } else if !is_adversary(c, turn) {
                None
            } else if 0 <= x < captured.len() && captured[x] {
                scan(cells, turn, l, pos, d, captured, i + 1)
            } else {
                Some(i)
            },
        }
    }
}

/// From `pos`, a capture in direction `d` exists (some landing square follows the captured piece).
pub open spec fn has_jump_dir(
    cells: Seq<Option<Cell>>,
    turn: Color,
    l: int,
    pos: int,
    captured: Seq<bool>,
    d: Dir,
) -> bool {
    match scan(cells, turn, l, pos, d, captured, 1) {
        Some(i) => i + 1 <= l && passable(
            cells,
            captured.update(ray(pos, d, i), true),
            ray(pos, d, i + 1),
        ),
        None => false,
    }
}

/// A capture exists in one of the first `n` directions.
pub open spec fn has_jump_upto(
    cells: Seq<Option<Cell>>,
    turn: Color,
    l: int,
    pos: int,
    captured: Seq<bool>,
    n: int,
) -> bool
    decreases n,
{
    if n <= 0 {
        false
    } else {
        has_jump_upto(cells, turn, l, pos, captured, n - 1) || has_jump_dir(
            cells,
            turn,
            l,
            pos,
            captured,
            all_dirs()[n - 1],
        )
    }
}

/// The tree of capture sequences of a piece that stands at `pos`, with moves
/// of length at most `l`, after the moves `prefix` that captured the pieces
/// marked in `captured`. The result lists the complete sequences (leaves of
/// the tree), directions in the order of `all_dirs`, landings by increasing
/// distance, depth first.
pub open spec fn jump_tree(
    cells: Seq<Option<Cell>>,
    turn: Color,
    l: int,
    pos: int,
    captured: Seq<bool>,
    prefix: Seq<Move>,
) -> Seq<Seq<Move>>
    decreases uncaptured(cells, turn, captured), 2int, 0int,
{
    if has_jump_upto(cells, turn, l, pos, captured, 4) {
        jumps_dirs(cells, turn, l, pos, captured, prefix, 4)
    } else if prefix.len() > 0 {
        seq![prefix]
    } else {
        Seq::empty()
    }
}

/// The capture sequences that continue with a capture in one of the first `n` directions.
pub open spec fn jumps_dirs(
    cells: Seq<Option<Cell>>,
    turn: Color,
    l: int,
    pos: int,
    captured: Seq<bool>,
    prefix: Seq<Move>,
    n: int,
) -> Seq<Seq<Move>>
    decreases uncaptured(cells, turn, captured), 1int, n,
{
    if n <= 0 {
        Seq::empty()
    } else {
        let d = all_dirs()[n - 1];
        jumps_dirs(cells, turn, l, pos, captured, prefix, n - 1) + match scan(
            cells,
            turn,
            l,
            pos,
            d,
            captured,
            1,
        ) {
            Some(i) => landings(cells, turn, l, pos, d, captured, ray(pos, d, i), prefix, i + 1),
            None => Seq::empty(),
        }
    }
}

/// The capture sequences that capture the piece at `a` from `pos` in direction
/// `d` and land at distance `j` or more.
pub open spec fn landings(
    cells: Seq<Option<Cell>>,
    turn: Color,
    l: int,
    pos: int,
    d: Dir,
    captured: Seq<bool>,
    a: int,
    prefix: Seq<Move>,
    j: int,
) -> Seq<Seq<Move>>
    decreases uncaptured(cells, turn, captured), 0int, l + 1 - j,
{
    if !can_capture(cells, turn, captured, a) || j > l {
        Seq::empty()
    } else {
        let after = captured.update(a, true);
        let x = ray(pos, d, j);
        if !passable(cells, after, x) {
            Seq::empty()
        } else {
            proof {
                lemma_uncaptured_update(cells, turn, captured, a, 46);
            }
            jump_tree(cells, turn, l, x, after, prefix.push(Move { dir: d, repeat: j as u8 }))
                + landings(cells, turn, l, pos, d, captured, a, prefix, j + 1)
        }
    }
}

/// Marking an uncaptured adversary as captured lowers the count by one.
pub proof fn lemma_uncaptured_update(
    cells: Seq<Option<Cell>>,
    turn: Color,
    captured: Seq<bool>,
    a: int,
    k: int,
)
    requires
        can_capture(cells, turn, captured, a),
    ensures
        a < k ==> uncaptured_below(cells, turn, captured.update(a, true), k) + 1 == uncaptured_below(
            cells,
            turn,
            captured,
            k,
        ),
        k <= a ==> uncaptured_below(cells, turn, captured.update(a, true), k) == uncaptured_below(
            cells,
            turn,
            captured,
            k,
        ),
    decreases k,
{
    if k > 0 {
        lemma_uncaptured_update(cells, turn, captured, a, k - 1);
    }
}

/// The start paired with each sequence of moves.
pub open spec fn with_start(start: int, t: Seq<Seq<Move>>) -> Seq<ActionModel> {
    t.map_values(|s: Seq<Move>| (start, s))
}

/// No capture marked yet.
pub open spec fn none_captured() -> Seq<bool> {
    Seq::new(46, |i: int| false)
}

/// The complete capture sequences of the piece at `pos` (moves of length at most `l`).
pub open spec fn piece_jumps(cells: Seq<Option<Cell>>, turn: Color, l: int, pos: int) -> Seq<
    ActionModel,
> {
    with_start(pos, jump_tree(cells, turn, l, pos, none_captured(), Seq::empty()))
}

/// The capture sequences of the pieces at the positions `ps`.
pub open spec fn jumps_of(cells: Seq<Option<Cell>>, turn: Color, l: int, ps: Seq<int>) -> Seq<
    ActionModel,
>
    decreases ps.len(),
{
    if ps.len() == 0 {
        Seq::empty()
    } else {
        jumps_of(cells, turn, l, ps.drop_last()) + piece_jumps(cells, turn, l, ps.last())
    }
}

/// All capture sequences of the player `turn`: pawns (moves of length 2 at most)
/// first, then queens (length 7 at most).
pub open spec fn all_jumps(cells: Seq<Option<Cell>>, turn: Color) -> Seq<ActionModel> {
    jumps_of(cells, turn, 2, indices_with(cells, pawn_of(turn))) + jumps_of(
        cells,
        turn,
        7,
        indices_with(cells, queen_of(turn)),
    )
}

/// The largest number of moves among the actions.
pub open spec fn max_moves(s: Seq<ActionModel>) -> int
    decreases s.len(),
{
    if s.len() == 0 {
        0
    } else {
        let m = max_moves(s.drop_last());
        if s.last().1.len() > m {
            s.last().1.len() as int
        } else {
            m
        }
    }
}

/// The actions with exactly `m` moves, in order.
pub open spec fn with_num_moves(s: Seq<ActionModel>, m: int) -> Seq<ActionModel>
    decreases s.len(),
{
    if s.len() == 0 {
        Seq::empty()
    } else if s.last().1.len() == m {
        with_num_moves(s.drop_last(), m).push(s.last())
    } else {
        with_num_moves(s.drop_last(), m)
    }
}

/// The actions available to the player to move: none once `MAX_PLY` plies
/// have been played; otherwise, if a capture is possible, the capture
/// sequences with the largest number of captures; otherwise the simple moves.
pub open spec fn legal_actions(cells: Seq<Option<Cell>>, turn: Color, num_ply: int) -> Seq<
    ActionModel,
> {
    if num_ply >= MAX_PLY {
        Seq::empty()
    } else {
        let j = all_jumps(cells, turn);
        if j.len() > 0 {
            with_num_moves(j, max_moves(j))
        } else {
            simple_actions(cells, turn)
        }
    }
}

// ------------------------------------------------------------------
// Facts about the capture tree
// ------------------------------------------------------------------
/// The sequences of capture moves that start in direction `d` (one part of `jumps_dirs`).
pub open spec fn dir_part(
    cells: Seq<Option<Cell>>,
    turn: Color,
    l: int,
    pos: int,
    captured: Seq<bool>,
    prefix: Seq<Move>,
    d: Dir,
) -> Seq<Seq<Move>> {
    match scan(cells, turn, l, pos, d, captured, 1) {
        Some(i) => landings(cells, turn, l, pos, d, captured, ray(pos, d, i), prefix, i + 1),
        None => Seq::empty(),
    }
}

/// Every sequence starts with `p`.
pub open spec fn all_extend(t: Seq<Seq<Move>>, p: Seq<Move>) -> bool {
    forall|k: int|
        0 <= k < t.len() ==> #[trigger] t[k].len() >= p.len() && t[k].take(p.len() as int) == p
}

/// Every sequence starts with `p` and is longer.
pub open spec fn all_extend_strictly(t: Seq<Seq<Move>>, p: Seq<Move>) -> bool {
    forall|k: int|
        0 <= k < t.len() ==> #[trigger] t[k].len() > p.len() && t[k].take(p.len() as int) == p
}

/// What `scan` finds is an adversary not yet captured, before distance `l`.
pub proof fn lemma_scan_result(
    cells: Seq<Option<Cell>>,
    turn: Color,
    l: int,
    pos: int,
    d: Dir,
    captured: Seq<bool>,
    s: int,
)
    requires
        cells.len() == 46,
        captured.len() == 46,
    ensures
        scan(cells, turn, l, pos, d, captured, s) matches Some(i) ==> s <= i < l && can_capture(
            cells,
            turn,
            captured,
            ray(pos, d, i),
        ),
    decreases l - s,
{
    if s < l {
        lemma_scan_result(cells, turn, l, pos, d, captured, s + 1);
    }
}

pub proof fn lemma_jumps_dirs_unfold(
    cells: Seq<Option<Cell>>,
    turn: Color,
    l: int,
    pos: int,
    captured: Seq<bool>,
    prefix: Seq<Move>,
    n: int,
)
    requires
        n > 0,
    ensures
        jumps_dirs(cells, turn, l, pos, captured, prefix, n) == jumps_dirs(
            cells,
            turn,
            l,
            pos,
            captured,
            prefix,
            n - 1,
        ) + dir_part(cells, turn, l, pos, captured, prefix, all_dirs()[n - 1]),
{
}

/// Without any capture, no direction contributes a sequence.
pub proof fn lemma_no_jump(
    cells: Seq<Option<Cell>>,
    turn: Color,
    l: int,
    pos: int,
    captured: Seq<bool>,
    prefix: Seq<Move>,
    n: int,
)
    requires
        !has_jump_upto(cells, turn, l, pos, captured, n),
    ensures
        jumps_dirs(cells, turn, l, pos, captured, prefix, n) == Seq::<Seq<Move>>::empty(),
    decreases n,
{
    if n > 0 {
        lemma_no_jump(cells, turn, l, pos, captured, prefix, n - 1);
        let d = all_dirs()[n - 1];
        match scan(cells, turn, l, pos, d, captured, 1) {
            Some(i) => {
                assert(landings(cells, turn, l, pos, d, captured, ray(pos, d, i), prefix, i + 1)
                    =~= Seq::<Seq<Move>>::empty());
            },
            None => {},
        }
        assert(jumps_dirs(cells, turn, l, pos, captured, prefix, n) =~= Seq::<Seq<Move>>::empty());
    }
}

/// A capture in direction `k` is a capture in one of the first `n` directions.
pub proof fn lemma_has_jump_mono(
    cells: Seq<Option<Cell>>,
    turn: Color,
    l: int,
    pos: int,
    captured: Seq<bool>,
    k: int,
    n: int,
)
    requires
        0 <= k < n,
        has_jump_dir(cells, turn, l, pos, captured, all_dirs()[k]),
    ensures
        has_jump_upto(cells, turn, l, pos, captured, n),
    decreases n,
{
    if k < n - 1 {
        lemma_has_jump_mono(cells, turn, l, pos, captured, k, n - 1);
    }
}

pub proof fn lemma_seqs_fit_add(a: Seq<Seq<Move>>, b: Seq<Seq<Move>>)
    ensures
        seqs_fit(a + b) <==> seqs_fit(a) && seqs_fit(b),
{
    if seqs_fit(a + b) {
        assert forall|k: int| 0 <= k < a.len() implies #[trigger] a[k].len() <= 12 by {
            assert((a + b)[k] == a[k]);
        }
        assert forall|k: int| 0 <= k < b.len() implies #[trigger] b[k].len() <= 12 by {
            assert((a + b)[a.len() + k] == b[k]);
        }
    }
}

/// If all capture sequences fit, those of each direction fit.
pub proof fn lemma_dirs_fit(
    cells: Seq<Option<Cell>>,
    turn: Color,
    l: int,
    pos: int,
    captured: Seq<bool>,
    prefix: Seq<Move>,
    k: int,
    n: int,
)
    requires
        0 <= k < n,
        seqs_fit(jumps_dirs(cells, turn, l, pos, captured, prefix, n)),
    ensures
        seqs_fit(dir_part(cells, turn, l, pos, captured, prefix, all_dirs()[k])),
    decreases n,
{
    lemma_jumps_dirs_unfold(cells, turn, l, pos, captured, prefix, n);
    lemma_seqs_fit_add(
        jumps_dirs(cells, turn, l, pos, captured, prefix, n - 1),
        dir_part(cells, turn, l, pos, captured, prefix, all_dirs()[n - 1]),
    );
    if k < n - 1 {
        lemma_dirs_fit(cells, turn, l, pos, captured, prefix, k, n - 1);
    }
}

/// The sequences of the tree extend the prefix; the tree is not empty when
/// the prefix is not.
pub proof fn lemma_tree_shape(
    cells: Seq<Option<Cell>>,
    turn: Color,
    l: int,
    pos: int,
    captured: Seq<bool>,
    prefix: Seq<Move>,
)
    requires
        cells.len() == 46,
        captured.len() == 46,
    ensures
        all_extend(jump_tree(cells, turn, l, pos, captured, prefix), prefix),
        prefix.len() > 0 ==> jump_tree(cells, turn, l, pos, captured, prefix).len() > 0,
    decreases uncaptured(cells, turn, captured), 2int, 0int,
{
    if has_jump_upto(cells, turn, l, pos, captured, 4) {
        lemma_dirs_shape(cells, turn, l, pos, captured, prefix, 4);
    } else if prefix.len() > 0 {
        assert(prefix.take(prefix.len() as int) =~= prefix);
    }
}

pub proof fn lemma_dirs_shape(
    cells: Seq<Option<Cell>>,
    turn: Color,
    l: int,
    pos: int,
    captured: Seq<bool>,
    prefix: Seq<Move>,
    n: int,
)
    requires
        cells.len() == 46,
        captured.len() == 46,
    ensures
        all_extend_strictly(jumps_dirs(cells, turn, l, pos, captured, prefix, n), prefix),
        has_jump_upto(cells, turn, l, pos, captured, n) ==> jumps_dirs(
            cells,
            turn,
            l,
            pos,
            captured,
            prefix,
            n,
        ).len() > 0,
    decreases uncaptured(cells, turn, captured), 1int, n,
{
    if n > 0 {
        let d = all_dirs()[n - 1];
        lemma_dirs_shape(cells, turn, l, pos, captured, prefix, n - 1);
        lemma_scan_result(cells, turn, l, pos, d, captured, 1);
        let rest = jumps_dirs(cells, turn, l, pos, captured, prefix, n - 1);
        match scan(cells, turn, l, pos, d, captured, 1) {
            Some(i) => {
                lemma_landings_shape(cells, turn, l, pos, d, captured, ray(pos, d, i), prefix, i + 1);
                let part = landings(cells, turn, l, pos, d, captured, ray(pos, d, i), prefix, i + 1);
                assert forall|k: int| 0 <= k < (rest + part).len() implies #[trigger] (rest
                    + part)[k].len() > prefix.len() && (rest + part)[k].take(prefix.len() as int)
                    == prefix by {
                    if k < rest.len() {
                        assert((rest + part)[k] == rest[k]);
                    } else {
                        assert((rest + part)[k] == part[k - rest.len()]);
                    }
                }
            },
            None => {
                assert(rest + Seq::<Seq<Move>>::empty() =~= rest);
            },
        }
    }
}

pub proof fn lemma_landings_shape(
    cells: Seq<Option<Cell>>,
    turn: Color,
    l: int,
    pos: int,
    d: Dir,
    captured: Seq<bool>,
    a: int,
    prefix: Seq<Move>,
    j: int,
)
    requires
        cells.len() == 46,
        captured.len() == 46,
    ensures
        all_extend_strictly(landings(cells, turn, l, pos, d, captured, a, prefix, j), prefix),
        (can_capture(cells, turn, captured, a) && j <= l && passable(
            cells,
            captured.update(a, true),
            ray(pos, d, j),
        )) ==> landings(cells, turn, l, pos, d, captured, a, prefix, j).len() > 0,
    decreases uncaptured(cells, turn, captured), 0int, l + 1 - j,
{
    if can_capture(cells, turn, captured, a) && j <= l {
        let after = captured.update(a, true);
        let x = ray(pos, d, j);
        if passable(cells, after, x) {
            lemma_uncaptured_update(cells, turn, captured, a, 46);
            let m = Move { dir: d, repeat: j as u8 };
            let p2 = prefix.push(m);
            lemma_tree_shape(cells, turn, l, x, after, p2);
            lemma_landings_shape(cells, turn, l, pos, d, captured, a, prefix, j + 1);
            let t = jump_tree(cells, turn, l, x, after, p2);
            let rest = landings(cells, turn, l, pos, d, captured, a, prefix, j + 1);
            assert forall|k: int| 0 <= k < (t + rest).len() implies #[trigger] (t + rest)[k].len()
                > prefix.len() && (t + rest)[k].take(prefix.len() as int) == prefix by {
                if k < t.len() {
                    assert((t + rest)[k] == t[k]);
                    assert(t[k].take(p2.len() as int) == p2);
                    assert(t[k].take(prefix.len() as int) =~= p2.take(prefix.len() as int));
                    assert(p2.take(prefix.len() as int) =~= prefix);
                } else {
                    assert((t + rest)[k] == rest[k - t.len()]);
                }
            }
        }
    }
}

// ------------------------------------------------------------------
// Playing an action
// ------------------------------------------------------------------
/// The squares at distance `0..k` from `pos` in direction `d` made empty.
pub open spec fn cleared(cells: Seq<Option<Cell>>, pos: int, d: Dir, k: int) -> Seq<Option<Cell>>
    decreases k,
{
    if k <= 0 {
        cells
    } else {
        cleared(cells, pos, d, k - 1).update(ray(pos, d, k - 1), Some(Cell::Empty))
    }
}

/// The piece at `pos` moved along `m`: the squares it leaves or passes are
/// emptied, the piece is put on the landing square.
pub open spec fn after_move(cells: Seq<Option<Cell>>, pos: int, m: Move) -> Seq<Option<Cell>> {
    cleared(cells, pos, m.dir, m.repeat as int).update(ray(pos, m.dir, m.repeat as int), cells[pos])
}

/// Moving the piece at `pos` along `m` stays within the array, from a slot that holds a value.
pub open spec fn move_ok(cells: Seq<Option<Cell>>, pos: int, m: Move) -> bool {
    &&& 0 <= pos < cells.len()
    &&& cells[pos] is Some
    &&& forall|k: int| 0 <= k <= m.repeat ==> 0 <= #[trigger] ray(pos, m.dir, k) < cells.len()
}

/// The square reached from `start` after the moves.
pub open spec fn end_pos(start: int, moves: Seq<Move>) -> int
    decreases moves.len(),
{
    if moves.len() == 0 {
        start
    } else {
        let p = end_pos(start, moves.drop_last());
        ray(p, moves.last().dir, moves.last().repeat as int)
    }
}

/// The content of the slots after the moves, one after the other.
pub open spec fn apply_moves(cells: Seq<Option<Cell>>, start: int, moves: Seq<Move>) -> Seq<
    Option<Cell>,
>
    decreases moves.len(),
{
    if moves.len() == 0 {
        cells
    } else {
        after_move(
            apply_moves(cells, start, moves.drop_last()),
            end_pos(start, moves.drop_last()),
            moves.last(),
        )
    }
}

/// Each move of the sequence can be made in turn.
pub open spec fn moves_ok(cells: Seq<Option<Cell>>, start: int, moves: Seq<Move>) -> bool
    decreases moves.len(),
{
    if moves.len() == 0 {
        true
    } else {
        moves_ok(cells, start, moves.drop_last()) && move_ok(
            apply_moves(cells, start, moves.drop_last()),
            end_pos(start, moves.drop_last()),
            moves.last(),
        )
    }
}

/// A piece that ends its move on the last line of the opponent becomes a queen.
pub open spec fn promoted(cells: Seq<Option<Cell>>, turn: Color, pos: int) -> Seq<Option<Cell>> {
    if turn == Color::White && pos >= 37 {
        cells.update(pos, Some(Cell::WhiteQueen))
    } else if turn == Color::Black && pos < 9 {
        cells.update(pos, Some(Cell::BlackQueen))
    } else {
        cells
    }
}

/// The content of the slots after the player `turn` plays the action.
pub open spec fn applied(cells: Seq<Option<Cell>>, turn: Color, a: ActionModel) -> Seq<Option<Cell>> {
    promoted(apply_moves(cells, a.0, a.1), turn, end_pos(a.0, a.1))
}

/// The action can be played on the board: it starts inside the array and
/// every move can be made.
pub open spec fn applicable(cells: Seq<Option<Cell>>, a: ActionModel) -> bool {
    0 <= a.0 < cells.len() && moves_ok(cells, a.0, a.1)
}

/// Every sequence holds at most 12 moves (the capacity of an action).
pub open spec fn seqs_fit(t: Seq<Seq<Move>>) -> bool {
    forall|k: int| 0 <= k < t.len() ==> #[trigger] t[k].len() <= 12
}

/// Every action holds at most 12 moves.
pub open spec fn actions_fit(s: Seq<ActionModel>) -> bool {
    forall|k: int| 0 <= k < s.len() ==> #[trigger] s[k].1.len() <= 12
}

/// No capture sequence of the player to move is longer than an action can hold.
pub open spec fn chains_fit(cells: Seq<Option<Cell>>, turn: Color) -> bool {
    actions_fit(all_jumps(cells, turn))
}

} // verus!
