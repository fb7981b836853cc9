//! The rules seen from the squares: what a pawn and a queen may do, when a
//! capture must be played, and where a piece becomes a queen.
use vstd::prelude::*;
use crate::board::{indices_with, indices_with_below, padding_free};
use crate::geometry::{Cell, Color, Dir, Move, all_dirs, is_playable, line_of, pawn_dirs, ray, MAX_PLY};
use crate::rules::{
    ActionModel, all_jumps, cell_at, clear_ray, legal_actions, pawn_moves_of, pawn_steps,
    queen_moves_of, queen_ray, queen_slides, simple_actions, scan, has_jump_dir,
    lemma_has_jump_mono, jump_tree, jumps_dirs, dir_part, landings, lemma_jumps_dirs_unfold,
    lemma_tree_shape, none_captured, piece_jumps, jumps_of, with_start, has_jump_upto,
    lemma_scan_result, lemma_uncaptured_update, can_capture, passable, uncaptured,
};
use crate::game::{law_captures_mandatory, law_legal_action_sound, law_legal_action_text, law_sound_chains_fit, sound};
use crate::laws::{lemma_legal_lengths, lemma_legal_paths, path_ok, owned_by};
use crate::rules::{applied, apply_moves, end_pos, moves_ok};
use crate::text::squares_playable;

verus! {

/// The pawn of a player.
pub open spec fn pawn_cell(turn: Color) -> Cell {
    if turn == Color::White {
        Cell::WhitePawn
    } else {
        Cell::BlackPawn
    }
}

/// The queen of a player.
pub open spec fn queen_cell(turn: Color) -> Cell {
    if turn == Color::White {
        Cell::WhiteQueen
    } else {
        Cell::BlackQueen
    }
}

/// The directions in which a pawn of the player moves: towards line 1
/// (higher indices) for White, towards line 8 for Black.
pub open spec fn forward(turn: Color, d: Dir) -> bool {
    if turn == Color::White {
        d == Dir::UpLeft || d == Dir::UpRight
    } else {
        d == Dir::DownLeft || d == Dir::DownRight
    }
}

/// A slot holding `x` on the board is listed among the indices holding `x`.
proof fn lemma_in_indices(cells: Seq<Option<Cell>>, x: Cell, p: int, k: int)
    requires
        5 <= p < k <= 41,
        cells.len() == 46,
        cells[p] == Some(x),
    ensures
        indices_with_below(cells, x, k).contains(p),
    decreases k,
{
    if p < k - 1 {
        lemma_in_indices(cells, x, p, k - 1);
        let s = indices_with_below(cells, x, k - 1);
        let j = choose|j: int| 0 <= j < s.len() && s[j] == p;
        assert(indices_with_below(cells, x, k)[j] == p);
    } else {
        let s = indices_with_below(cells, x, k);
        assert(s[s.len() - 1] == p);
    }
}

/// The simple moves of the pawns include those of each listed pawn.
proof fn lemma_pawn_moves_of_has(cells: Seq<Option<Cell>>, turn: Color, ps: Seq<int>, i: int, a: ActionModel)
    requires
        0 <= i < ps.len(),
        pawn_steps(cells, ps[i], pawn_dirs(turn)).contains(a),
    ensures
        pawn_moves_of(cells, turn, ps).contains(a),
    decreases ps.len(),
{
    let rest = pawn_moves_of(cells, turn, ps.drop_last());
    let last = pawn_steps(cells, ps.last(), pawn_dirs(turn));
    if i < ps.len() - 1 {
        assert(ps.drop_last()[i] == ps[i]);
        lemma_pawn_moves_of_has(cells, turn, ps.drop_last(), i, a);
        let j = choose|j: int| 0 <= j < rest.len() && rest[j] == a;
        assert((rest + last)[j] == a);
    } else {
        let j = choose|j: int| 0 <= j < last.len() && last[j] == a;
        assert((rest + last)[rest.len() + j] == a);
    }
}

/// The simple moves of the queens include those of each listed queen.
proof fn lemma_queen_moves_of_has(cells: Seq<Option<Cell>>, ps: Seq<int>, i: int, a: ActionModel)
    requires
        0 <= i < ps.len(),
        queen_slides(cells, ps[i], 4).contains(a),
    ensures
        queen_moves_of(cells, ps).contains(a),
    decreases ps.len(),
{
    let rest = queen_moves_of(cells, ps.drop_last());
    let last = queen_slides(cells, ps.last(), 4);
    if i < ps.len() - 1 {
        assert(ps.drop_last()[i] == ps[i]);
        lemma_queen_moves_of_has(cells, ps.drop_last(), i, a);
        let j = choose|j: int| 0 <= j < rest.len() && rest[j] == a;
        assert((rest + last)[j] == a);
    } else {
        let j = choose|j: int| 0 <= j < last.len() && last[j] == a;
        assert((rest + last)[rest.len() + j] == a);
    }
}

/// A queen move over `k` empty squares is among the moves of length at most `m`.
proof fn lemma_queen_ray_has(cells: Seq<Option<Cell>>, p: int, d: Dir, k: int, m: int)
    requires
        1 <= k <= m <= 7,
        clear_ray(cells, p, d, k),
    ensures
        queen_ray(cells, p, d, m).contains((p, seq![Move { dir: d, repeat: k as u8 }])),
    decreases m,
{
    let a = (p, seq![Move { dir: d, repeat: k as u8 }]);
    if k < m {
        lemma_queen_ray_has(cells, p, d, k, m - 1);
        let s = queen_ray(cells, p, d, m - 1);
        let j = choose|j: int| 0 <= j < s.len() && s[j] == a;
        assert(queen_ray(cells, p, d, m)[j] == a);
    } else {
        let s = queen_ray(cells, p, d, m);
        assert(s[s.len() - 1] == a);
    }
}

/// The moves of a queen in the first `n` directions include those of each of them.
proof fn lemma_queen_slides_has(cells: Seq<Option<Cell>>, p: int, n: int, i: int, a: ActionModel)
    requires
        0 <= i < n <= 4,
        queen_ray(cells, p, all_dirs()[i], 7).contains(a),
    ensures
        queen_slides(cells, p, n).contains(a),
    decreases n,
{
    let rest = queen_slides(cells, p, n - 1);
    let last = queen_ray(cells, p, all_dirs()[n - 1], 7);
    if i < n - 1 {
        lemma_queen_slides_has(cells, p, n - 1, i, a);
        let j = choose|j: int| 0 <= j < rest.len() && rest[j] == a;
        assert((rest + last)[j] == a);
    } else {
        let j = choose|j: int| 0 <= j < last.len() && last[j] == a;
        assert((rest + last)[rest.len() + j] == a);
    }
}

/// Each direction has its place in the order in which moves are generated.
proof fn lemma_dir_index(d: Dir) -> (i: int)
    ensures
        0 <= i < 4,
        all_dirs()[i] == d,
{
    match d {
        Dir::UpLeft => 0,
        Dir::UpRight => 1,
        Dir::DownLeft => 2,
        Dir::DownRight => 3,
    }
}

/// Law: when no capture is possible, a pawn of the player to move may step
/// to the empty square next to it in each of its two forward directions.
pub proof fn law_pawn_steps(cells: Seq<Option<Cell>>, turn: Color, num_ply: int, p: int, d: Dir)
    requires
        padding_free(cells),
        num_ply < MAX_PLY,
        all_jumps(cells, turn).len() == 0,
        is_playable(p),
        cells[p] == Some(pawn_cell(turn)),
        forward(turn, d),
        0 <= ray(p, d, 1) < 46,
        cells[ray(p, d, 1)] == Some(Cell::Empty),
    ensures
        legal_actions(cells, turn, num_ply).contains((p, seq![Move { dir: d, repeat: 1 }])),
{
    let a = (p, seq![Move { dir: d, repeat: 1 }]);
    let x = pawn_cell(turn);
    lemma_in_indices(cells, x, p, 41);
    let ps = indices_with(cells, x);
    let i = choose|i: int| 0 <= i < ps.len() && ps[i] == p;
    let dirs = pawn_dirs(turn);
    assert(dirs.len() == 2);
    assert(dirs.drop_last().drop_last() =~= Seq::<Dir>::empty());
    let s0 = pawn_steps(cells, p, dirs.drop_last());
    let s1 = pawn_steps(cells, p, dirs);
    if d == dirs[0] {
        assert(s0[s0.len() - 1] == a);
        assert(s1[s0.len() - 1] == a);
    } else {
        assert(d == dirs[1]);
        assert(s1[s1.len() - 1] == a);
    }
    assert(s1.contains(a));
    lemma_pawn_moves_of_has(cells, turn, ps, i, a);
    let pm = pawn_moves_of(cells, turn, ps);
    let qm = queen_moves_of(cells, indices_with(cells, crate::geometry::queen_of(turn)));
    let j = choose|j: int| 0 <= j < pm.len() && pm[j] == a;
    assert((pm + qm)[j] == a);
    assert(simple_actions(cells, turn) == pm + qm);
}

/// Law: when no capture is possible, a queen of the player to move may fly
/// any distance up to seven squares in any direction, as long as every
/// square it crosses and the one it lands on are empty.
pub proof fn law_queen_slides(cells: Seq<Option<Cell>>, turn: Color, num_ply: int, p: int, d: Dir, k: int)
    requires
        padding_free(cells),
        num_ply < MAX_PLY,
        all_jumps(cells, turn).len() == 0,
        is_playable(p),
        cells[p] == Some(queen_cell(turn)),
        1 <= k <= 7,
        forall|j: int| 1 <= j <= k ==> 0 <= #[trigger] ray(p, d, j) < 46 && cells[ray(p, d, j)] == Some(Cell::Empty),
    ensures
        legal_actions(cells, turn, num_ply).contains((p, seq![Move { dir: d, repeat: k as u8 }])),
{
    let a = (p, seq![Move { dir: d, repeat: k as u8 }]);
    let x = queen_cell(turn);
    assert(clear_ray(cells, p, d, k)) by {
        assert forall|j: int| 1 <= j <= k implies cell_at(cells, #[trigger] ray(p, d, j)) == Some(Cell::Empty) by {
            assert(0 <= ray(p, d, j) < 46);
        }
    }
    lemma_queen_ray_has(cells, p, d, k, 7);
    let di = lemma_dir_index(d);
    lemma_queen_slides_has(cells, p, 4, di, a);
    lemma_in_indices(cells, x, p, 41);
    let qs = indices_with(cells, x);
    let i = choose|i: int| 0 <= i < qs.len() && qs[i] == p;
    assert(x == crate::geometry::queen_of(turn));
    lemma_queen_moves_of_has(cells, qs, i, a);
    let pm = pawn_moves_of(cells, turn, indices_with(cells, crate::geometry::pawn_of(turn)));
    let qm = queen_moves_of(cells, qs);
    let j = choose|j: int| 0 <= j < qm.len() && qm[j] == a;
    assert((pm + qm)[pm.len() + j] == a);
    assert(simple_actions(cells, turn) == pm + qm);
}

/// The piece at `p` holds a value that is an opposing piece of `turn`.
pub open spec fn opposing(turn: Color, c: Cell) -> bool {
    if turn == Color::White {
        c == Cell::BlackPawn || c == Cell::BlackQueen
    } else {
        c == Cell::WhitePawn || c == Cell::WhiteQueen
    }
}

/// The sequences of the first `n` directions include those of each of them.
proof fn lemma_jumps_dirs_has(
    cells: Seq<Option<Cell>>,
    turn: Color,
    l: int,
    pos: int,
    captured: Seq<bool>,
    prefix: Seq<Move>,
    n: int,
    i: int,
    s: Seq<Move>,
)
    requires
        0 <= i < n,
        dir_part(cells, turn, l, pos, captured, prefix, all_dirs()[i]).contains(s),
    ensures
        jumps_dirs(cells, turn, l, pos, captured, prefix, n).contains(s),
    decreases n,
{
    lemma_jumps_dirs_unfold(cells, turn, l, pos, captured, prefix, n);
    let rest = jumps_dirs(cells, turn, l, pos, captured, prefix, n - 1);
    let last = dir_part(cells, turn, l, pos, captured, prefix, all_dirs()[n - 1]);
    if i < n - 1 {
        lemma_jumps_dirs_has(cells, turn, l, pos, captured, prefix, n - 1, i, s);
        let j = choose|j: int| 0 <= j < rest.len() && rest[j] == s;
        assert((rest + last)[j] == s);
    } else {
        let j = choose|j: int| 0 <= j < last.len() && last[j] == s;
        assert((rest + last)[rest.len() + j] == s);
    }
}

/// The capture sequences of the pieces include those of each listed piece.
proof fn lemma_jumps_of_has(cells: Seq<Option<Cell>>, turn: Color, l: int, ps: Seq<int>, i: int, a: ActionModel)
    requires
        0 <= i < ps.len(),
        piece_jumps(cells, turn, l, ps[i]).contains(a),
    ensures
        jumps_of(cells, turn, l, ps).contains(a),
    decreases ps.len(),
{
    let rest = jumps_of(cells, turn, l, ps.drop_last());
    let last = piece_jumps(cells, turn, l, ps.last());
    if i < ps.len() - 1 {
        assert(ps.drop_last()[i] == ps[i]);
        lemma_jumps_of_has(cells, turn, l, ps.drop_last(), i, a);
        let j = choose|j: int| 0 <= j < rest.len() && rest[j] == a;
        assert((rest + last)[j] == a);
    } else {
        let j = choose|j: int| 0 <= j < last.len() && last[j] == a;
        assert((rest + last)[rest.len() + j] == a);
    }
}

/// A piece with an opposing piece next to it, and an empty square behind that
/// one, has a capture sequence that starts by jumping over it.
proof fn lemma_piece_jump(cells: Seq<Option<Cell>>, turn: Color, l: int, p: int, d: Dir) -> (s: Seq<Move>)
    requires
        cells.len() == 46,
        2 <= l <= 7,
        0 <= p < 46,
        0 <= ray(p, d, 2) < 46,
        cells[ray(p, d, 1)] matches Some(c) && opposing(turn, c),
        cells[ray(p, d, 2)] == Some(Cell::Empty),
    ensures
        piece_jumps(cells, turn, l, p).contains((p, s)),
        s.len() >= 1,
        s[0] == (Move { dir: d, repeat: 2 }),
{
    let cap = none_captured();
    let x1 = ray(p, d, 1);
    let x2 = ray(p, d, 2);
    assert(0 <= x1 < 46);
    assert(scan(cells, turn, l, p, d, cap, 1) == Some(1int));
    let after = cap.update(x1, true);
    assert(has_jump_dir(cells, turn, l, p, cap, d));
    let di = lemma_dir_index(d);
    lemma_has_jump_mono(cells, turn, l, p, cap, di, 4);
    let m = Move { dir: d, repeat: 2 };
    let pre = Seq::<Move>::empty().push(m);
    lemma_tree_shape(cells, turn, l, x2, after, pre);
    let t = jump_tree(cells, turn, l, x2, after, pre);
    let s = t[0];
    assert(s.take(1) == pre);
    assert(s[0] == s.take(1)[0]);
    let lands = landings(cells, turn, l, p, d, cap, x1, Seq::<Move>::empty(), 2);
    let more = landings(cells, turn, l, p, d, cap, x1, Seq::<Move>::empty(), 3);
    assert(lands == t + more);
    assert((t + more)[0] == s);
    assert(dir_part(cells, turn, l, p, cap, Seq::<Move>::empty(), d) == lands);
    lemma_jumps_dirs_has(cells, turn, l, p, cap, Seq::<Move>::empty(), 4, di, s);
    let tree = jump_tree(cells, turn, l, p, cap, Seq::<Move>::empty());
    assert(tree == jumps_dirs(cells, turn, l, p, cap, Seq::<Move>::empty(), 4));
    let k = choose|k: int| 0 <= k < tree.len() && tree[k] == s;
    assert(with_start(p, tree)[k] == (p, s));
    s
}

/// Every move of the sequence goes at least two squares: it jumps.
pub open spec fn jumping(s: Seq<Move>) -> bool {
    forall|i: int| 0 <= i < s.len() ==> #[trigger] s[i].repeat >= 2
}

/// Every sequence of the tree jumps at every move, when its prefix does.
proof fn lemma_tree_jumping(
    cells: Seq<Option<Cell>>,
    turn: Color,
    l: int,
    pos: int,
    captured: Seq<bool>,
    prefix: Seq<Move>,
)
    requires
        cells.len() == 46,
        captured.len() == 46,
        l <= 7,
        jumping(prefix),
    ensures
        forall|k: int|
            0 <= k < jump_tree(cells, turn, l, pos, captured, prefix).len() ==> jumping(
                #[trigger] jump_tree(cells, turn, l, pos, captured, prefix)[k],
            ),
    decreases uncaptured(cells, turn, captured), 2int, 0int,
{
    let t = jump_tree(cells, turn, l, pos, captured, prefix);
    if has_jump_upto(cells, turn, l, pos, captured, 4) {
        lemma_dirs_jumping(cells, turn, l, pos, captured, prefix, 4);
        assert(t == jumps_dirs(cells, turn, l, pos, captured, prefix, 4));
    } else if prefix.len() > 0 {
        assert(t == seq![prefix]);
        assert forall|k: int| 0 <= k < t.len() implies jumping(#[trigger] t[k]) by {
            assert(t[k] == prefix);
        }
    } else {
        assert(t.len() == 0);
    }
}

proof fn lemma_dirs_jumping(
    cells: Seq<Option<Cell>>,
    turn: Color,
    l: int,
    pos: int,
    captured: Seq<bool>,
    prefix: Seq<Move>,
    n: int,
)
    requires
        cells.len() == 46,
        captured.len() == 46,
        l <= 7,
        jumping(prefix),
    ensures
        forall|k: int|
            0 <= k < jumps_dirs(cells, turn, l, pos, captured, prefix, n).len() ==> jumping(
                #[trigger] jumps_dirs(cells, turn, l, pos, captured, prefix, n)[k],
            ),
    decreases uncaptured(cells, turn, captured), 1int, n,
{
    if n > 0 {
        let d = all_dirs()[n - 1];
        lemma_dirs_jumping(cells, turn, l, pos, captured, prefix, n - 1);
        lemma_scan_result(cells, turn, l, pos, d, captured, 1);
        let rest = jumps_dirs(cells, turn, l, pos, captured, prefix, n - 1);
        match scan(cells, turn, l, pos, d, captured, 1) {
            Some(i) => {
                lemma_landings_jumping(cells, turn, l, pos, d, captured, ray(pos, d, i), prefix, i + 1);
                let part = landings(cells, turn, l, pos, d, captured, ray(pos, d, i), prefix, i + 1);
                assert forall|k: int| 0 <= k < (rest + part).len() implies jumping(#[trigger] (rest + part)[k]) by {
                    if k < rest.len() {
                        assert((rest + part)[k] == rest[k]);
                    } else {
                        assert((rest + part)[k] == part[k - rest.len()]);
                    }
                }
            },
            None => {
                assert(rest + Seq::<Seq<Move>>::empty() =~= rest);
            },
        }
    }
}

proof fn lemma_landings_jumping(
    cells: Seq<Option<Cell>>,
    turn: Color,
    l: int,
    pos: int,
    d: Dir,
    captured: Seq<bool>,
    a: int,
    prefix: Seq<Move>,
    j: int,
)
    requires
        cells.len() == 46,
        captured.len() == 46,
        l <= 7,
        j >= 2,
        jumping(prefix),
    ensures
        forall|k: int|
            0 <= k < landings(cells, turn, l, pos, d, captured, a, prefix, j).len() ==> jumping(
                #[trigger] landings(cells, turn, l, pos, d, captured, a, prefix, j)[k],
            ),
    decreases uncaptured(cells, turn, captured), 0int, l + 1 - j,
{
    if can_capture(cells, turn, captured, a) && j <= l {
        let after = captured.update(a, true);
        let x = ray(pos, d, j);
        if passable(cells, after, x) {
            lemma_uncaptured_update(cells, turn, captured, a, 46);
            let m = Move { dir: d, repeat: j as u8 };
            let p2 = prefix.push(m);
            assert(jumping(p2)) by {
                assert forall|i: int| 0 <= i < p2.len() implies #[trigger] p2[i].repeat >= 2 by {
                    if i < prefix.len() {
                        assert(p2[i] == prefix[i]);
                    }
                }
            }
            lemma_tree_jumping(cells, turn, l, x, after, p2);
            lemma_landings_jumping(cells, turn, l, pos, d, captured, a, prefix, j + 1);
            let t = jump_tree(cells, turn, l, x, after, p2);
            let rest = landings(cells, turn, l, pos, d, captured, a, prefix, j + 1);
            assert forall|k: int| 0 <= k < (t + rest).len() implies jumping(#[trigger] (t + rest)[k]) by {
                if k < t.len() {
                    assert((t + rest)[k] == t[k]);
                } else {
                    assert((t + rest)[k] == rest[k - t.len()]);
                }
            }
        }
    }
}

/// Every capture sequence of the pieces at `ps` jumps at every move.
proof fn lemma_jumps_of_jumping(cells: Seq<Option<Cell>>, turn: Color, l: int, ps: Seq<int>)
    requires
        cells.len() == 46,
        l <= 7,
    ensures
        forall|k: int|
            0 <= k < jumps_of(cells, turn, l, ps).len() ==> jumping(#[trigger] jumps_of(cells, turn, l, ps)[k].1),
    decreases ps.len(),
{
    if ps.len() > 0 {
        lemma_jumps_of_jumping(cells, turn, l, ps.drop_last());
        let rest = jumps_of(cells, turn, l, ps.drop_last());
        let t = jump_tree(cells, turn, l, ps.last(), none_captured(), Seq::<Move>::empty());
        lemma_tree_jumping(cells, turn, l, ps.last(), none_captured(), Seq::<Move>::empty());
        let last = piece_jumps(cells, turn, l, ps.last());
        assert forall|k: int| 0 <= k < (rest + last).len() implies jumping(#[trigger] (rest + last)[k].1) by {
            if k < rest.len() {
                assert((rest + last)[k] == rest[k]);
            } else {
                assert((rest + last)[k] == last[k - rest.len()]);
                assert(last[k - rest.len()].1 == t[k - rest.len()]);
            }
        }
    }
}

/// Law: captures go in all four directions, for pawns as for queens, and are
/// mandatory. When a piece of the player to move has an opposing piece next
/// to it in some direction, with an empty square behind, some capture
/// sequence starts by jumping over that piece, and the actions offered are
/// capture sequences only: every move of every one of them jumps, none is a
/// one-square step.
pub proof fn law_capture_available(cells: Seq<Option<Cell>>, turn: Color, num_ply: int, p: int, d: Dir)
    requires
        padding_free(cells),
        num_ply < MAX_PLY,
        is_playable(p),
        cells[p] == Some(pawn_cell(turn)) || cells[p] == Some(queen_cell(turn)),
        0 <= ray(p, d, 2) < 46,
        cells[ray(p, d, 1)] matches Some(c) && opposing(turn, c),
        cells[ray(p, d, 2)] == Some(Cell::Empty),
    ensures
        exists|s: Seq<Move>|
            #![trigger all_jumps(cells, turn).contains((p, s))]
            all_jumps(cells, turn).contains((p, s)) && s.len() >= 1 && s[0] == (Move { dir: d, repeat: 2 }),
        legal_actions(cells, turn, num_ply).len() > 0,
        forall|k: int|
            0 <= k < legal_actions(cells, turn, num_ply).len() ==> all_jumps(cells, turn).contains(
                #[trigger] legal_actions(cells, turn, num_ply)[k],
            ),
        forall|k: int|
            0 <= k < legal_actions(cells, turn, num_ply).len() ==> jumping(
                #[trigger] legal_actions(cells, turn, num_ply)[k].1,
            ),
{
    let pawns = indices_with(cells, crate::geometry::pawn_of(turn));
    let queens = indices_with(cells, crate::geometry::queen_of(turn));
    let a = jumps_of(cells, turn, 2, pawns);
    let b = jumps_of(cells, turn, 7, queens);
    let s;
    if cells[p] == Some(pawn_cell(turn)) {
        s = lemma_piece_jump(cells, turn, 2, p, d);
        lemma_in_indices(cells, pawn_cell(turn), p, 41);
        let i = choose|i: int| 0 <= i < pawns.len() && pawns[i] == p;
        lemma_jumps_of_has(cells, turn, 2, pawns, i, (p, s));
        let j = choose|j: int| 0 <= j < a.len() && a[j] == (p, s);
        assert((a + b)[j] == (p, s));
    } else {
        s = lemma_piece_jump(cells, turn, 7, p, d);
        lemma_in_indices(cells, queen_cell(turn), p, 41);
        let i = choose|i: int| 0 <= i < queens.len() && queens[i] == p;
        lemma_jumps_of_has(cells, turn, 7, queens, i, (p, s));
        let j = choose|j: int| 0 <= j < b.len() && b[j] == (p, s);
        assert((a + b)[a.len() + j] == (p, s));
    }
    assert(all_jumps(cells, turn) == a + b);
    assert(all_jumps(cells, turn).contains((p, s)));
    law_captures_mandatory(cells, turn, num_ply);
    lemma_jumps_of_jumping(cells, turn, 2, pawns);
    lemma_jumps_of_jumping(cells, turn, 7, queens);
    let lg = legal_actions(cells, turn, num_ply);
    assert forall|k: int| 0 <= k < lg.len() implies jumping(#[trigger] lg[k].1) by {
        let aj = all_jumps(cells, turn);
        assert(aj.contains(lg[k]));
        let j = choose|j: int| 0 <= j < aj.len() && aj[j] == lg[k];
        if j < a.len() {
            assert(aj[j] == a[j]);
        } else {
            assert(aj[j] == b[j - a.len()]);
        }
    }
}

/// After the moves, the landing square holds the piece that stood on the
/// starting square.
proof fn lemma_piece_lands(cells: Seq<Option<Cell>>, start: int, moves: Seq<Move>)
    requires
        0 <= start < cells.len(),
        moves_ok(cells, start, moves),
    ensures
        apply_moves(cells, start, moves)[end_pos(start, moves)] == cells[start],
    decreases moves.len(),
{
    if moves.len() > 0 {
        lemma_piece_lands(cells, start, moves.drop_last());
        crate::board::lemma_apply_moves_len(cells, start, moves.drop_last());
        let before = apply_moves(cells, start, moves.drop_last());
        let p = end_pos(start, moves.drop_last());
        let m = moves.last();
        assert(0 <= ray(p, m.dir, m.repeat as int) < before.len());
        crate::board::lemma_cleared_len(before, p, m.dir, m.repeat as int);
    }
}

/// The back line of the opponent, where a piece of `turn` becomes a queen:
/// line 1 (line index 0) for White, line 8 (line index 7) for Black.
pub open spec fn promotion_line(turn: Color) -> int {
    if turn == Color::White {
        0
    } else {
        7
    }
}

/// Law: every action offered to the player to move moves one of that
/// player's pieces and lands on a playable square. The piece that lands
/// becomes a queen of that player exactly when the square is on the
/// opponent's back line (line 1 for White, line 8 for Black); elsewhere it
/// stays what it was, a pawn stays a pawn.
pub proof fn law_promotion(cells: Seq<Option<Cell>>, turn: Color, num_ply: int, k: int)
    requires
        sound(cells),
        0 <= k < legal_actions(cells, turn, num_ply).len(),
    ensures
        ({
            let a = legal_actions(cells, turn, num_ply)[k];
            let q = end_pos(a.0, a.1);
            &&& cells[a.0] == Some(pawn_cell(turn)) || cells[a.0] == Some(queen_cell(turn))
            &&& is_playable(q)
            &&& applied(cells, turn, a)[q] == if line_of(q) == promotion_line(turn) {
                Some(queen_cell(turn))
            } else {
                cells[a.0]
            }
        }),
{
    let a = legal_actions(cells, turn, num_ply)[k];
    let q = end_pos(a.0, a.1);
    law_legal_action_sound(cells, turn, num_ply, k);
    law_legal_action_text(cells, turn, num_ply, k);
    law_sound_chains_fit(cells, turn);
    lemma_legal_lengths(cells, turn, num_ply);
    lemma_legal_paths(cells, turn, num_ply);
    assert(path_ok(cells, turn, a.0, a.1));
    assert(1 <= a.1.len());
    assert(squares_playable(a));
    let t = a.1.len() - 1;
    assert(is_playable(end_pos(a.0, a.1.take(t + 1))));
    assert(a.1.take(t + 1) =~= a.1);
    assert(is_playable(q));
    assert(owned_by(cell_at(cells, a.0), turn));
    assert(0 <= a.0 < 46);
    lemma_piece_lands(cells, a.0, a.1);
    crate::board::lemma_apply_moves_len(cells, a.0, a.1);
}

/// Two sequences without repeats and with no common element make one
/// without repeats.
proof fn lemma_no_dup_add<A>(a: Seq<A>, b: Seq<A>)
    requires
        a.no_duplicates(),
        b.no_duplicates(),
        a.disjoint(b),
    ensures
        (a + b).no_duplicates(),
{
    assert forall|i: int, j: int| 0 <= i < (a + b).len() && 0 <= j < (a + b).len() && i != j implies (a
        + b)[i] != (a + b)[j] by {
        if i < a.len() && j < a.len() {
        } else if i >= a.len() && j >= a.len() {
            assert((a + b)[i] == b[i - a.len()]);
            assert((a + b)[j] == b[j - a.len()]);
        } else if i < a.len() {
            assert((a + b)[j] == b[j - a.len()]);
        } else {
            assert((a + b)[i] == b[i - a.len()]);
        }
    }
}

/// The indices holding a value are increasing and below `k`.
proof fn lemma_indices_increasing(cells: Seq<Option<Cell>>, x: Cell, k: int)
    ensures
        forall|i: int, j: int|
            0 <= i < j < indices_with_below(cells, x, k).len() ==> indices_with_below(cells, x, k)[i]
                < indices_with_below(cells, x, k)[j],
        forall|i: int|
            0 <= i < indices_with_below(cells, x, k).len() ==> #[trigger] indices_with_below(cells, x, k)[i] < k,
    decreases k,
{
    if k > 5 {
        lemma_indices_increasing(cells, x, k - 1);
        let s = indices_with_below(cells, x, k - 1);
        let t = indices_with_below(cells, x, k);
        assert forall|i: int| 0 <= i < t.len() implies #[trigger] t[i] < k by {
            if i < s.len() {
                assert(t[i] == s[i]);
            }
        }
        assert forall|i: int, j: int| 0 <= i < j < t.len() implies t[i] < t[j] by {
            assert(t[i] == s[i]);
            if j < s.len() {
                assert(t[j] == s[j]);
            }
        }
    }
}

/// The one-square moves of a pawn: all start at `p`, differ from each other.
proof fn lemma_pawn_steps_distinct(cells: Seq<Option<Cell>>, p: int, turn: Color)
    ensures
        pawn_steps(cells, p, pawn_dirs(turn)).no_duplicates(),
        forall|k: int|
            0 <= k < pawn_steps(cells, p, pawn_dirs(turn)).len() ==> (#[trigger] pawn_steps(
                cells,
                p,
                pawn_dirs(turn),
            )[k]).0 == p,
{
    let dirs = pawn_dirs(turn);
    assert(dirs.drop_last().drop_last() =~= Seq::<Dir>::empty());
    assert(dirs[0] != dirs[1]);
    let d0 = dirs.drop_last().last();
    let d1 = dirs.last();
    assert(d0 == dirs[0] && d1 == dirs[1]);
    let a0 = (p, seq![Move { dir: d0, repeat: 1 }]);
    let a1 = (p, seq![Move { dir: d1, repeat: 1 }]);
    assert(a0.1[0] != a1.1[0]);
    assert(a0 != a1);
    let s0 = pawn_steps(cells, p, dirs.drop_last().drop_last());
    assert(s0.len() == 0);
    let s1 = pawn_steps(cells, p, dirs.drop_last());
    let s2 = pawn_steps(cells, p, dirs);
    assert(s1 == s0 || s1 == s0.push(a0));
    assert(s2 == s1 || s2 == s1.push(a1));
    assert(s1.len() <= 1);
    assert forall|k: int| 0 <= k < s1.len() implies s1[k] == a0 by {}
    assert forall|k: int| 0 <= k < s2.len() implies (#[trigger] s2[k]).0 == p by {
        if k < s1.len() {
            assert(s2[k] == s1[k]);
        }
    }
}

/// The simple moves of the pawns at increasing positions `ps`: each starts
/// at one of them, and none is listed twice.
proof fn lemma_pawn_moves_distinct(cells: Seq<Option<Cell>>, turn: Color, ps: Seq<int>)
    requires
        forall|i: int, j: int| 0 <= i < j < ps.len() ==> ps[i] < ps[j],
    ensures
        pawn_moves_of(cells, turn, ps).no_duplicates(),
        forall|k: int|
            0 <= k < pawn_moves_of(cells, turn, ps).len() ==> ps.contains(
                (#[trigger] pawn_moves_of(cells, turn, ps)[k]).0,
            ),
    decreases ps.len(),
{
    if ps.len() > 0 {
        let q = ps.drop_last();
        lemma_pawn_moves_distinct(cells, turn, q);
        lemma_pawn_steps_distinct(cells, ps.last(), turn);
        let rest = pawn_moves_of(cells, turn, q);
        let last = pawn_steps(cells, ps.last(), pawn_dirs(turn));
        assert forall|i: int, j: int| 0 <= i < rest.len() && 0 <= j < last.len() implies rest[i] != last[j] by {
            assert(q.contains(rest[i].0));
            let m = choose|m: int| 0 <= m < q.len() && q[m] == rest[i].0;
            assert(ps[m] < ps[ps.len() - 1]);
        }
        lemma_no_dup_add(rest, last);
        assert forall|k: int| 0 <= k < (rest + last).len() implies ps.contains((#[trigger] (rest + last)[k]).0) by {
            if k < rest.len() {
                assert((rest + last)[k] == rest[k]);
                let m = choose|m: int| 0 <= m < q.len() && q[m] == rest[k].0;
                assert(ps[m] == q[m]);
            } else {
                assert((rest + last)[k] == last[k - rest.len()]);
                assert(ps[ps.len() - 1] == ps.last());
            }
        }
    }
}

/// The moves of a queen in direction `d` up to length `m`: each is one move
/// in direction `d` from `p` of length 1 to `m`, in increasing length.
proof fn lemma_queen_ray_distinct(cells: Seq<Option<Cell>>, p: int, d: Dir, m: int)
    requires
        m <= 7,
    ensures
        queen_ray(cells, p, d, m).no_duplicates(),
        forall|k: int|
            0 <= k < queen_ray(cells, p, d, m).len() ==> {
                let a = #[trigger] queen_ray(cells, p, d, m)[k];
                &&& a.0 == p
                &&& a.1.len() == 1
                &&& a.1[0].dir == d
                &&& 1 <= a.1[0].repeat <= m
            },
    decreases m,
{
    if m > 0 {
        lemma_queen_ray_distinct(cells, p, d, m - 1);
        let rest = queen_ray(cells, p, d, m - 1);
        if clear_ray(cells, p, d, m) {
            let t = queen_ray(cells, p, d, m);
            assert(t == rest.push((p, seq![Move { dir: d, repeat: m as u8 }])));
            assert forall|k: int| 0 <= k < t.len() implies {
                let a = #[trigger] t[k];
                &&& a.0 == p
                &&& a.1.len() == 1
                &&& a.1[0].dir == d
                &&& 1 <= a.1[0].repeat <= m
            } by {
                if k < rest.len() {
                    assert(t[k] == rest[k]);
                }
            }
            assert forall|i: int, j: int| 0 <= i < t.len() && 0 <= j < t.len() && i != j implies t[i] != t[j] by {
                if i < rest.len() && j < rest.len() {
                    assert(t[i] == rest[i]);
                    assert(t[j] == rest[j]);
                } else if i < rest.len() {
                    assert(t[i] == rest[i]);
                    assert(t[i].1[0].repeat < m);
                } else {
                    assert(t[j] == rest[j]);
                    assert(t[j].1[0].repeat < m);
                }
            }
        }
    }
}

/// The simple moves of a queen in the first `n` directions: each starts at
/// `p` and moves in one of them, none is listed twice.
proof fn lemma_queen_slides_distinct(cells: Seq<Option<Cell>>, p: int, n: int)
    requires
        0 <= n <= 4,
    ensures
        queen_slides(cells, p, n).no_duplicates(),
        forall|k: int|
            0 <= k < queen_slides(cells, p, n).len() ==> {
                let a = #[trigger] queen_slides(cells, p, n)[k];
                &&& a.0 == p
                &&& a.1.len() == 1
                &&& exists|i: int| 0 <= i < n && a.1[0].dir == all_dirs()[i]
            },
    decreases n,
{
    if n > 0 {
        lemma_queen_slides_distinct(cells, p, n - 1);
        let d = all_dirs()[n - 1];
        lemma_queen_ray_distinct(cells, p, d, 7);
        let rest = queen_slides(cells, p, n - 1);
        let last = queen_ray(cells, p, d, 7);
        assert forall|i: int, j: int| 0 <= i < rest.len() && 0 <= j < last.len() implies rest[i] != last[j] by {
            let e = choose|e: int| 0 <= e < n - 1 && rest[i].1[0].dir == all_dirs()[e];
            assert(all_dirs()[e] != all_dirs()[n - 1]);
        }
        lemma_no_dup_add(rest, last);
        let t = rest + last;
        assert forall|k: int| 0 <= k < t.len() implies {
            let a = #[trigger] t[k];
            &&& a.0 == p
            &&& a.1.len() == 1
            &&& exists|i: int| 0 <= i < n && a.1[0].dir == all_dirs()[i]
        } by {
            if k < rest.len() {
                assert(t[k] == rest[k]);
                let e = choose|e: int| 0 <= e < n - 1 && rest[k].1[0].dir == all_dirs()[e];
                assert(0 <= e < n && t[k].1[0].dir == all_dirs()[e]);
            } else {
                assert(t[k] == last[k - rest.len()]);
                assert(t[k].1[0].dir == all_dirs()[n - 1]);
            }
        }
    }
}

/// The simple moves of the queens at increasing positions `ps`: each starts
/// at one of them, and none is listed twice.
proof fn lemma_queen_moves_distinct(cells: Seq<Option<Cell>>, ps: Seq<int>)
    requires
        forall|i: int, j: int| 0 <= i < j < ps.len() ==> ps[i] < ps[j],
    ensures
        queen_moves_of(cells, ps).no_duplicates(),
        forall|k: int|
            0 <= k < queen_moves_of(cells, ps).len() ==> ps.contains((#[trigger] queen_moves_of(cells, ps)[k]).0),
    decreases ps.len(),
{
    if ps.len() > 0 {
        let q = ps.drop_last();
        lemma_queen_moves_distinct(cells, q);
        lemma_queen_slides_distinct(cells, ps.last(), 4);
        let rest = queen_moves_of(cells, q);
        let last = queen_slides(cells, ps.last(), 4);
        assert forall|i: int, j: int| 0 <= i < rest.len() && 0 <= j < last.len() implies rest[i] != last[j] by {
            assert(q.contains(rest[i].0));
            let m = choose|m: int| 0 <= m < q.len() && q[m] == rest[i].0;
            assert(ps[m] < ps[ps.len() - 1]);
        }
        lemma_no_dup_add(rest, last);
        assert forall|k: int| 0 <= k < (rest + last).len() implies ps.contains((#[trigger] (rest + last)[k]).0) by {
            if k < rest.len() {
                assert((rest + last)[k] == rest[k]);
                let m = choose|m: int| 0 <= m < q.len() && q[m] == rest[k].0;
                assert(ps[m] == q[m]);
            } else {
                assert((rest + last)[k] == last[k - rest.len()]);
                assert(ps[ps.len() - 1] == ps.last());
            }
        }
    }
}

/// Law: when no capture is possible, no action is offered twice.
pub proof fn law_simple_moves_distinct(cells: Seq<Option<Cell>>, turn: Color, num_ply: int)
    requires
        padding_free(cells),
        all_jumps(cells, turn).len() == 0,
    ensures
        legal_actions(cells, turn, num_ply).no_duplicates(),
{
    let pawns = indices_with(cells, crate::geometry::pawn_of(turn));
    let queens = indices_with(cells, crate::geometry::queen_of(turn));
    lemma_indices_increasing(cells, crate::geometry::pawn_of(turn), 41);
    lemma_indices_increasing(cells, crate::geometry::queen_of(turn), 41);
    lemma_pawn_moves_distinct(cells, turn, pawns);
    lemma_queen_moves_distinct(cells, queens);
    crate::movegen::lemma_indices_with(cells, crate::geometry::pawn_of(turn), 41);
    crate::movegen::lemma_indices_with(cells, crate::geometry::queen_of(turn), 41);
    let pm = pawn_moves_of(cells, turn, pawns);
    let qm = queen_moves_of(cells, queens);
    assert forall|i: int, j: int| 0 <= i < pm.len() && 0 <= j < qm.len() implies pm[i] != qm[j] by {
        let a = choose|a: int| 0 <= a < pawns.len() && pawns[a] == pm[i].0;
        let b = choose|b: int| 0 <= b < queens.len() && queens[b] == qm[j].0;
        assert(cells[pawns[a]] == Some(crate::geometry::pawn_of(turn)));
        assert(cells[queens[b]] == Some(crate::geometry::queen_of(turn)));
    }
    lemma_no_dup_add(pm, qm);
    if num_ply >= MAX_PLY {
        assert(legal_actions(cells, turn, num_ply).len() == 0);
    } else {
        assert(legal_actions(cells, turn, num_ply) == pm + qm);
    }
}

} // verus!
