//! Computing the actions available to the player to move.
use vstd::prelude::*;
use crate::action::Action;
use crate::board::{Board, padding_free, indices_with, indices_with_below, lemma_board_len};
use crate::geometry::{
    Cell, Color, Dir, Index, Move, Position, all_dirs, is_playable, pawn_dirs, pawn_of, queen_of,
    ray, MAX_PLY,
};
use crate::rules::{
    ActionModel, actions_fit, all_jumps, chains_fit, jumps_of, legal_actions, max_moves,
    none_captured, pawn_moves_of, piece_jumps, queen_moves_of, simple_actions, with_num_moves,
    adversary_at, all_extend, cell_at, clear_ray, dir_part, has_jump_dir,
    has_jump_upto, jump_tree, jumps_dirs, landings, pawn_steps, queen_ray, queen_slides, scan,
    seqs_fit, uncaptured, with_start, lemma_dirs_fit, lemma_has_jump_mono, lemma_jumps_dirs_unfold,
    lemma_no_jump, lemma_scan_result, lemma_seqs_fit_add, lemma_tree_shape,
    lemma_uncaptured_update,
};

verus! {

broadcast use lemma_board_len;

/// The values of the actions of a vector.
pub open spec fn models(v: Seq<Action>) -> Seq<ActionModel> {
    v.map_values(|a: Action| a@)
}

proof fn lemma_models_push(v: Seq<Action>, a: Action)
    ensures
        models(v.push(a)) == models(v).push(a@),
{
    assert(models(v.push(a)) =~= models(v).push(a@));
}

/// Once a square of the ray is not empty, longer queen moves add nothing.
proof fn lemma_queen_ray_blocked(cells: Seq<Option<Cell>>, pos: int, d: Dir, r: int, k: int)
    requires
        1 <= r <= k,
        cell_at(cells, ray(pos, d, r)) != Some(Cell::Empty),
    ensures
        queen_ray(cells, pos, d, k) == queen_ray(cells, pos, d, r - 1),
    decreases k,
{
    assert(!clear_ray(cells, pos, d, k));
    if k > r {
        lemma_queen_ray_blocked(cells, pos, d, r, k - 1);
    }
}

proof fn lemma_with_start_add(start: int, a: Seq<Seq<Move>>, b: Seq<Seq<Move>>)
    ensures
        with_start(start, a + b) == with_start(start, a) + with_start(start, b),
{
    assert(with_start(start, a + b) =~= with_start(start, a) + with_start(start, b));
}

/// The slots marked as captured hold adversaries.
pub open spec fn captured_ok(cells: Seq<Option<Cell>>, turn: Color, captured: Seq<bool>) -> bool {
    &&& captured.len() == 46
    &&& forall|x: int| 0 <= x < 46 && #[trigger] captured[x] ==> adversary_at(cells, turn, x)
}

impl Board {
    /// Adds the one-square moves of the pawn at `pos` (of player `color`) to empty squares.
    fn add_pawn_moves(&self, pos: Position, color: Color, out: &mut Vec<Action>)
        requires
            padding_free(self@),
            is_playable(pos@),
        ensures
            models(final(out)@) == models(old(out)@) + pawn_steps(self@, pos@, pawn_dirs(color)),
    {
        let dirs: [Dir; 2] = match color {
            Color::White => [Dir::UpLeft, Dir::UpRight],
            Color::Black => [Dir::DownLeft, Dir::DownRight],
        };
        assert(dirs@ =~= pawn_dirs(color));
        let mut k: usize = 0;
        while k < 2
            invariant
                k <= 2,
                padding_free(self@),
                is_playable(pos@),
                dirs@ == pawn_dirs(color),
                models(out@) == models(old(out)@) + pawn_steps(self@, pos@, pawn_dirs(color).take(k as int)),
            decreases 2 - k,
        {
            let dir = dirs[k];
            let ghost before = out@;
            assert(pawn_dirs(color).take(k + 1).drop_last() =~= pawn_dirs(color).take(k as int));
            let target = pos.add_dir(dir);
            match self.at_index(target) {
                Some(Cell::Empty) => {
                    let a = Action::with_move(pos, dir.repeat(1));
                    out.push(a);
                    proof {
                        lemma_models_push(before, a);
                    }
                },
                _ => {},
            }
            k += 1;
        }
        assert(pawn_dirs(color).take(2) =~= pawn_dirs(color));
    }

    /// Adds the moves of the queen at `pos` over empty squares, in every direction.
    fn add_queen_moves(&self, pos: Position, out: &mut Vec<Action>)
        requires
            padding_free(self@),
            is_playable(pos@),
        ensures
            models(final(out)@) == models(old(out)@) + queen_slides(self@, pos@, 4),
    {
        let dirs: [Dir; 4] = [Dir::UpLeft, Dir::UpRight, Dir::DownLeft, Dir::DownRight];
        assert(dirs@ =~= all_dirs());
        let mut k: usize = 0;
        while k < 4
            invariant
                k <= 4,
                padding_free(self@),
                is_playable(pos@),
                dirs@ == all_dirs(),
                models(out@) == models(old(out)@) + queen_slides(self@, pos@, k as int),
            decreases 4 - k,
        {
            let dir = dirs[k];
            let ghost base = models(out@);
            let mut cur = Index(pos.index() as usize);
            let mut rep: usize = 1;
            while rep < 8
                invariant
                    1 <= rep <= 8,
                    padding_free(self@),
                    is_playable(pos@),
                    cur.0 == ray(pos@, dir, rep - 1),
                    is_playable(cur.0 as int),
                    clear_ray(self@, pos@, dir, rep - 1),
                    models(out@) == base + queen_ray(self@, pos@, dir, rep - 1),
                ensures
                    models(out@) == base + queen_ray(self@, pos@, dir, 7),
                decreases 8 - rep,
            {
                let next = cur.add_dir(dir);
                let blocked = match self.at_index(next) {
                    Some(Cell::Empty) => false,
                    _ => true,
                };
                if blocked {
                    proof {
                        lemma_queen_ray_blocked(self@, pos@, dir, rep as int, 7);
                    }
                    break;
                }
                let ghost before = out@;
                let a = Action::with_move(pos, dir.repeat(rep as u8));
                out.push(a);
                proof {
                    lemma_models_push(before, a);
                    assert(clear_ray(self@, pos@, dir, rep as int));
                }
                cur = next;
                rep += 1;
            }
            k += 1;
        }
    }
}

impl Board {
    /// Looks from `pos` in direction `dir` for a piece to capture at distance
    /// below `max_len`, past empty or captured squares only.
    fn find_capture(&self, max_len: usize, pos: Position, dir: Dir, captured: &[bool; 46]) -> (r:
        Option<(usize, Index)>)
        requires
            padding_free(self@),
            is_playable(pos@),
            2 <= max_len <= 7,
        ensures
            match r {
                Some((i, idx)) => scan(self@, self.spec_turn(), max_len as int, pos@, dir, captured@, 1)
                    == Some(i as int) && idx.0 == ray(pos@, dir, i as int),
                None => scan(self@, self.spec_turn(), max_len as int, pos@, dir, captured@, 1) is None,
            },
    {
        let mut cur = Index(pos.index() as usize);
        let mut i: usize = 1;
        while i < max_len
            invariant
                1 <= i <= max_len <= 7,
                padding_free(self@),
                captured@.len() == 46,
                cur.0 == ray(pos@, dir, i - 1),
                is_playable(cur.0 as int),
                scan(self@, self.spec_turn(), max_len as int, pos@, dir, captured@, 1) == scan(
                    self@,
                    self.spec_turn(),
                    max_len as int,
                    pos@,
                    dir,
                    captured@,
                    i as int,
                ),
            decreases max_len - i,
        {
            cur = cur.add_dir(dir);
            match self.at_index(cur) {
                None => {
                    return None;
                },
                Some(c) => {
                    if c == Cell::Empty {
                    } else if !c.adversary(self.current_turn()) {
                        return None;
                    } else if !captured[cur.0] {
                        return Some((i, cur));
                    }
                },
            }
            i += 1;
        }
        None
    }

    /// Performs a depth-first search in the tree of possible jumps.
    /// Each edge of the tree is a possible jump (capture) from the parent position;
    /// the search recurses from the landing position.
    /// When a leaf of the tree is reached, the action made of the sequence of jumps
    /// from the initial position is added to `out`.
    /// Pawns and queens only differ by `max_len` (2 and 7): the longest straight move.
    fn jumps_dfs(
        &self,
        max_len: usize,
        last_pos: Position,
        action_prefix: &Action,
        captured: &mut [bool; 46],
        out: &mut Vec<Action>,
    )
        requires
            padding_free(self@),
            max_len == 2 || max_len == 7,
            is_playable(last_pos@),
            captured_ok(self@, self.spec_turn(), old(captured)@),
            seqs_fit(
                jump_tree(
                    self@,
                    self.spec_turn(),
                    max_len as int,
                    last_pos@,
                    old(captured)@,
                    action_prefix@.1,
                ),
            ),
        ensures
            final(captured)@ == old(captured)@,
            models(final(out)@) == models(old(out)@) + with_start(
                action_prefix@.0,
                jump_tree(
                    self@,
                    self.spec_turn(),
                    max_len as int,
                    last_pos@,
                    old(captured)@,
                    action_prefix@.1,
                ),
            ),
        decreases uncaptured(self@, self.spec_turn(), old(captured)@),
    {
        let ghost cells = self@;
        let ghost turn = self.spec_turn();
        let ghost l = max_len as int;
        let ghost pos = last_pos@;
        let ghost cap0 = captured@;
        let ghost prefix = action_prefix@.1;
        let ghost start = action_prefix@.0;
        let ghost tree = jump_tree(cells, turn, l, pos, cap0, prefix);
        let dirs: [Dir; 4] = [Dir::UpLeft, Dir::UpRight, Dir::DownLeft, Dir::DownRight];
        assert(dirs@ =~= all_dirs());
        let mut at_least_one = false;
        let mut k: usize = 0;
        while k < 4
            invariant
                k <= 4,
                cells == self@,
                turn == self.spec_turn(),
                l == max_len as int,
                pos == last_pos@,
                prefix == action_prefix@.1,
                start == action_prefix@.0,
                tree == jump_tree(cells, turn, l, pos, cap0, prefix),
                padding_free(cells),
                max_len == 2 || max_len == 7,
                is_playable(pos),
                captured_ok(cells, turn, cap0),
                seqs_fit(tree),
                dirs@ == all_dirs(),
                captured@ == cap0,
                cap0 == old(captured)@,
                at_least_one == has_jump_upto(cells, turn, l, pos, cap0, k as int),
                models(out@) == models(old(out)@) + with_start(
                    start,
                    jumps_dirs(cells, turn, l, pos, cap0, prefix, k as int),
                ),
            decreases 4 - k,
        {
            let dir = dirs[k];
            let ghost part = dir_part(cells, turn, l, pos, cap0, prefix, dir);
            let ghost base = models(out@);
            proof {
                lemma_jumps_dirs_unfold(cells, turn, l, pos, cap0, prefix, k + 1);
                lemma_with_start_add(start, jumps_dirs(cells, turn, l, pos, cap0, prefix, k as int), part);
                // the part of this direction fits
                if has_jump_upto(cells, turn, l, pos, cap0, 4) {
                    lemma_dirs_fit(cells, turn, l, pos, cap0, prefix, k as int, 4);
                } else {
                    lemma_no_jump(cells, turn, l, pos, cap0, prefix, 4);
                    lemma_dirs_fit(cells, turn, l, pos, cap0, prefix, k as int, 4);
                }
                lemma_scan_result(cells, turn, l, pos, dir, cap0, 1);
            }
            match self.find_capture(max_len, last_pos, dir, captured) {
                None => {
                    assert(part =~= Seq::<Seq<Move>>::empty());
                    assert(with_start(start, part) =~= Seq::<ActionModel>::empty());
                    assert(models(out@) =~= base + with_start(start, part));
                },
                Some((i, adv)) => {
                    let ghost a = adv.0 as int;
                    captured[adv.0] = true;
                    let ghost after = captured@;
                    assert(after == cap0.update(a, true));
                    let ghost mut acc: Seq<Seq<Move>> = Seq::empty();
                    let mut cur_landing = adv;
                    let mut j: usize = i + 1;
                    while j <= max_len
                        invariant_except_break
                            cur_landing.0 == ray(pos, dir, j - 1),
                            is_playable(cur_landing.0 as int),
                        invariant
                            i + 1 <= j <= max_len + 1,
                            1 <= i < max_len,
                            cells == self@,
                            turn == self.spec_turn(),
                            l == max_len as int,
                            pos == last_pos@,
                            prefix == action_prefix@.1,
                            start == action_prefix@.0,
                            padding_free(cells),
                            max_len == 2 || max_len == 7,
                            is_playable(pos),
                            captured_ok(cells, turn, cap0),
                            crate::rules::can_capture(cells, turn, cap0, a),
                            a == ray(pos, dir, i as int),
                            scan(cells, turn, l, pos, dir, cap0, 1) == Some(i as int),
                            cap0 == old(captured)@,
                            after == cap0.update(a, true),
                            captured@ == after,
                            dir == all_dirs()[k as int],
                            k < 4,
                            part == landings(cells, turn, l, pos, dir, cap0, a, prefix, i + 1),
                            part == acc + landings(cells, turn, l, pos, dir, cap0, a, prefix, j as int),
                            seqs_fit(landings(cells, turn, l, pos, dir, cap0, a, prefix, j as int)),
                            models(out@) == base + with_start(start, acc),
                            at_least_one == (has_jump_upto(cells, turn, l, pos, cap0, k as int) || j > i + 1),
                            j > i + 1 ==> has_jump_dir(cells, turn, l, pos, cap0, dir),
                        ensures
                            part == acc,
                            models(out@) == base + with_start(start, acc),
                            captured@ == after,
                            at_least_one == has_jump_upto(cells, turn, l, pos, cap0, k + 1),
                        decreases max_len + 1 - j,
                    {
                        cur_landing = cur_landing.add_dir(dir);
                        let passable = match self.at_index(cur_landing) {
                            Some(Cell::Empty) => true,
                            _ => captured[cur_landing.0],
                        };
                        if !passable {
                            proof {
                                assert(landings(cells, turn, l, pos, dir, cap0, a, prefix, j as int)
                                    =~= Seq::<Seq<Move>>::empty());
                                assert(acc + Seq::<Seq<Move>>::empty() =~= acc);
                                if j == i + 1 {
                                    assert(!has_jump_dir(cells, turn, l, pos, cap0, dir));
                                }
                            }
                            break;
                        }
                        proof {
                            if j == i + 1 {
                                assert(has_jump_dir(cells, turn, l, pos, cap0, dir));
                            }
                        }
                        at_least_one = true;
                        let ghost x = cur_landing.0 as int;
                        let ghost p2 = prefix.push(Move { dir: dir, repeat: j as u8 });
                        let ghost child = jump_tree(cells, turn, l, x, after, p2);
                        let ghost rest = landings(cells, turn, l, pos, dir, cap0, a, prefix, j + 1);
                        proof {
                            assert(landings(cells, turn, l, pos, dir, cap0, a, prefix, j as int) == child + rest);
                            lemma_seqs_fit_add(child, rest);
                            lemma_tree_shape(cells, turn, l, x, after, p2);
                            assert(child[0].len() >= p2.len());
                            lemma_uncaptured_update(cells, turn, cap0, a, 46);
                        }
                        let extended = action_prefix.with_new_move(dir.repeat(j as u8));
                        let landing_pos = Position::new(cur_landing.0 as i8);
                        let ghost before = models(out@);
                        self.jumps_dfs(max_len, landing_pos, &extended, captured, out);
                        proof {
                            lemma_with_start_add(start, acc, child);
                            assert(acc + (child + rest) =~= (acc + child) + rest);
                            acc = acc + child;
                        }
                        j += 1;
                    }
                    captured[adv.0] = false;
                    assert(captured@ =~= cap0);
                },
            }
            proof {
                if has_jump_dir(cells, turn, l, pos, cap0, dir) {
                    assert(has_jump_upto(cells, turn, l, pos, cap0, k + 1));
                }
            }
            k += 1;
        }
        if !at_least_one && action_prefix.num_moves() > 0 {
            let ghost before = out@;
            let a = action_prefix.duplicate();
            out.push(a);
            proof {
                lemma_models_push(before, a);
                lemma_no_jump(cells, turn, l, pos, cap0, prefix, 4);
                assert(with_start(start, tree) =~= seq![(start, prefix)]);
                assert(with_start(start, jumps_dirs(cells, turn, l, pos, cap0, prefix, 4)) =~= Seq::<ActionModel>::empty());
            }
        } else {
            proof {
                if !at_least_one {
                    lemma_no_jump(cells, turn, l, pos, cap0, prefix, 4);
                    assert(with_start(start, tree) =~= Seq::<ActionModel>::empty());
                    assert(with_start(start, jumps_dirs(cells, turn, l, pos, cap0, prefix, 4)) =~= Seq::<ActionModel>::empty());
                }
            }
        }
    }
}

/// The indices listed by `indices_with` hold the value and are playable squares.
pub proof fn lemma_indices_with(cells: Seq<Option<Cell>>, x: Cell, k: int)
    requires
        padding_free(cells),
    ensures
        forall|n: int|
            0 <= n < indices_with_below(cells, x, k).len() ==> {
                let i = #[trigger] indices_with_below(cells, x, k)[n];
                &&& 5 <= i < k
                &&& 0 <= i < 46
                &&& cells[i] == Some(x)
                &&& is_playable(i)
            },
    decreases k,
{
    if k > 5 {
        lemma_indices_with(cells, x, k - 1);
    }
}

proof fn lemma_actions_fit_add(a: Seq<ActionModel>, b: Seq<ActionModel>)
    ensures
        actions_fit(a + b) <==> actions_fit(a) && actions_fit(b),
{
    if actions_fit(a + b) {
        assert forall|k: int| 0 <= k < a.len() implies #[trigger] a[k].1.len() <= 12 by {
            assert((a + b)[k] == a[k]);
        }
        assert forall|k: int| 0 <= k < b.len() implies #[trigger] b[k].1.len() <= 12 by {
            assert((a + b)[a.len() + k] == b[k]);
        }
    }
}

/// If the captures of several pieces fit, those of each piece fit.
proof fn lemma_jumps_of_fit(cells: Seq<Option<Cell>>, turn: Color, l: int, ps: Seq<int>, k: int)
    requires
        0 <= k < ps.len(),
        actions_fit(jumps_of(cells, turn, l, ps)),
    ensures
        seqs_fit(jump_tree(cells, turn, l, ps[k], none_captured(), Seq::empty())),
    decreases ps.len(),
{
    lemma_actions_fit_add(jumps_of(cells, turn, l, ps.drop_last()), piece_jumps(cells, turn, l, ps.last()));
    if k < ps.len() - 1 {
        lemma_jumps_of_fit(cells, turn, l, ps.drop_last(), k);
    } else {
        let t = jump_tree(cells, turn, l, ps[k], none_captured(), Seq::empty());
        assert forall|n: int| 0 <= n < t.len() implies #[trigger] t[n].len() <= 12 by {
            assert(with_start(ps[k], t)[n].1 == t[n]);
        }
    }
}

impl Board {
    /// Adds the complete capture sequences of the piece at `initial_pos`.
    fn add_jumps(&self, max_len: usize, initial_pos: Position, out: &mut Vec<Action>)
        requires
            padding_free(self@),
            max_len == 2 || max_len == 7,
            is_playable(initial_pos@),
            seqs_fit(jump_tree(self@, self.spec_turn(), max_len as int, initial_pos@, none_captured(), Seq::empty())),
        ensures
            models(final(out)@) == models(old(out)@) + piece_jumps(self@, self.spec_turn(), max_len as int, initial_pos@),
    {
        let mut captured: [bool; 46] = [false; 46];
        assert(captured@ =~= none_captured());
        let empty_action = Action::empty(initial_pos);
        self.jumps_dfs(max_len, initial_pos, &empty_action, &mut captured, out);
    }

    fn add_pawn_jumps(&self, initial_pos: Position, out: &mut Vec<Action>)
        requires
            padding_free(self@),
            is_playable(initial_pos@),
            seqs_fit(jump_tree(self@, self.spec_turn(), 2, initial_pos@, none_captured(), Seq::empty())),
        ensures
            models(final(out)@) == models(old(out)@) + piece_jumps(self@, self.spec_turn(), 2, initial_pos@),
    {
        self.add_jumps(2, initial_pos, out);
    }

    fn add_queen_jumps(&self, initial_pos: Position, out: &mut Vec<Action>)
        requires
            padding_free(self@),
            is_playable(initial_pos@),
            seqs_fit(jump_tree(self@, self.spec_turn(), 7, initial_pos@, none_captured(), Seq::empty())),
        ensures
            models(final(out)@) == models(old(out)@) + piece_jumps(self@, self.spec_turn(), 7, initial_pos@),
    {
        self.add_jumps(7, initial_pos, out);
    }

    /// Adds the capture sequences of the pieces at `ps` (pawns if `max_len` is 2, queens if 7).
    fn add_all_jumps(&self, max_len: usize, ps: &Vec<Position>, out: &mut Vec<Action>)
        requires
            padding_free(self@),
            max_len == 2 || max_len == 7,
            forall|n: int| 0 <= n < ps@.len() ==> is_playable(#[trigger] ps@[n]@),
            actions_fit(jumps_of(self@, self.spec_turn(), max_len as int, ps@.map_values(|p: Position| p@))),
        ensures
            models(final(out)@) == models(old(out)@) + jumps_of(self@, self.spec_turn(), max_len as int, ps@.map_values(|p: Position| p@)),
    {
        let ghost idx = ps@.map_values(|p: Position| p@);
        let mut k: usize = 0;
        while k < ps.len()
            invariant
                k <= ps@.len(),
                padding_free(self@),
                max_len == 2 || max_len == 7,
                idx == ps@.map_values(|p: Position| p@),
                forall|n: int| 0 <= n < ps@.len() ==> is_playable(#[trigger] ps@[n]@),
                actions_fit(jumps_of(self@, self.spec_turn(), max_len as int, idx)),
                models(out@) == models(old(out)@) + jumps_of(self@, self.spec_turn(), max_len as int, idx.take(k as int)),
            decreases ps@.len() - k,
        {
            proof {
                lemma_jumps_of_fit(self@, self.spec_turn(), max_len as int, idx, k as int);
                assert(idx.take(k + 1).drop_last() =~= idx.take(k as int));
            }
            if max_len == 2 {
                self.add_pawn_jumps(ps[k], out);
            } else {
                self.add_queen_jumps(ps[k], out);
            }
            proof {
                assert(models(out@) =~= models(old(out)@) + jumps_of(self@, self.spec_turn(), max_len as int, idx.take(k + 1)));
            }
            k += 1;
        }
        assert(idx.take(ps@.len() as int) =~= idx);
    }

    /// Adds the simple moves of the pawns at `ps`.
    fn add_all_pawn_moves(&self, ps: &Vec<Position>, out: &mut Vec<Action>)
        requires
            padding_free(self@),
            forall|n: int| 0 <= n < ps@.len() ==> is_playable(#[trigger] ps@[n]@),
        ensures
            models(final(out)@) == models(old(out)@) + pawn_moves_of(self@, self.spec_turn(), ps@.map_values(|p: Position| p@)),
    {
        let ghost idx = ps@.map_values(|p: Position| p@);
        let turn = self.current_turn();
        let mut k: usize = 0;
        while k < ps.len()
            invariant
                k <= ps@.len(),
                padding_free(self@),
                turn == self.spec_turn(),
                idx == ps@.map_values(|p: Position| p@),
                forall|n: int| 0 <= n < ps@.len() ==> is_playable(#[trigger] ps@[n]@),
                models(out@) == models(old(out)@) + pawn_moves_of(self@, turn, idx.take(k as int)),
            decreases ps@.len() - k,
        {
            proof {
                assert(idx.take(k + 1).drop_last() =~= idx.take(k as int));
            }
            self.add_pawn_moves(ps[k], turn, out);
            proof {
                assert(models(out@) =~= models(old(out)@) + pawn_moves_of(self@, turn, idx.take(k + 1)));
            }
            k += 1;
        }
        assert(idx.take(ps@.len() as int) =~= idx);
    }

    /// Adds the simple moves of the queens at `ps`.
    fn add_all_queen_moves(&self, ps: &Vec<Position>, out: &mut Vec<Action>)
        requires
            padding_free(self@),
            forall|n: int| 0 <= n < ps@.len() ==> is_playable(#[trigger] ps@[n]@),
        ensures
            models(final(out)@) == models(old(out)@) + queen_moves_of(self@, ps@.map_values(|p: Position| p@)),
    {
        let ghost idx = ps@.map_values(|p: Position| p@);
        let mut k: usize = 0;
        while k < ps.len()
            invariant
                k <= ps@.len(),
                padding_free(self@),
                idx == ps@.map_values(|p: Position| p@),
                forall|n: int| 0 <= n < ps@.len() ==> is_playable(#[trigger] ps@[n]@),
                models(out@) == models(old(out)@) + queen_moves_of(self@, idx.take(k as int)),
            decreases ps@.len() - k,
        {
            proof {
                assert(idx.take(k + 1).drop_last() =~= idx.take(k as int));
            }
            self.add_queen_moves(ps[k], out);
            proof {
                assert(models(out@) =~= models(old(out)@) + queen_moves_of(self@, idx.take(k + 1)));
            }
            k += 1;
        }
        assert(idx.take(ps@.len() as int) =~= idx);
    }

    /// The positions holding `cell`, which are playable squares of a board without stray padding.
    fn positions_of(&self, cell: Cell) -> (r: Vec<Position>)
        requires
            padding_free(self@),
        ensures
            r@.map_values(|p: Position| p@) == indices_with(self@, cell),
            forall|n: int| 0 <= n < r@.len() ==> is_playable(#[trigger] r@[n]@),
    {
        let r = self.positions_with(cell);
        proof {
            lemma_indices_with(self@, cell, 41);
            assert(r@.map_values(|p: Position| p@) =~= indices_with(self@, cell));
            assert forall|n: int| 0 <= n < r@.len() implies is_playable(#[trigger] r@[n]@) by {
                assert(r@[n]@ == indices_with(self@, cell)[n]);
            }
        }
        r
    }

    /// Keeps only the actions with the largest number of moves.
    fn keep_longest(actions: &mut Vec<Action>)
        ensures
            models(final(actions)@) == with_num_moves(models(old(actions)@), max_moves(models(old(actions)@))),
    {
        let ghost all = models(actions@);
        let mut m: usize = 0;
        let mut k: usize = 0;
        while k < actions.len()
            invariant
                k <= actions@.len(),
                all == models(actions@),
                m == max_moves(all.take(k as int)),
            decreases actions@.len() - k,
        {
            assert(all.take(k + 1).drop_last() =~= all.take(k as int));
            let n = actions[k].num_moves();
            if n > m {
                m = n;
            }
            k += 1;
        }
        assert(all.take(actions@.len() as int) =~= all);
        let mut kept: Vec<Action> = Vec::new();
        let mut k: usize = 0;
        while k < actions.len()
            invariant
                k <= actions@.len(),
                all == models(actions@),
                m == max_moves(all),
                models(kept@) == with_num_moves(all.take(k as int), m as int),
            decreases actions@.len() - k,
        {
            assert(all.take(k + 1).drop_last() =~= all.take(k as int));
            if actions[k].num_moves() == m {
                let ghost before = kept@;
                let a = actions[k].duplicate();
                kept.push(a);
                proof {
                    lemma_models_push(before, a);
                }
            }
            k += 1;
        }
        assert(all.take(actions@.len() as int) =~= all);
        *actions = kept;
    }

    /// Computes the list of *valid* actions for the current player into
    /// `actions`, replacing what it held.
    fn actions_no_alloc(&self, actions: &mut Vec<Action>)
        requires
            padding_free(self@),
            chains_fit(self@, self.spec_turn()),
        ensures
            models(final(actions)@) == legal_actions(self@, self.spec_turn(), self.spec_num_ply()),
    {
        // clear the output buffer from any left overs from a previous usage
        actions.clear();
        assert(models(actions@) =~= Seq::<ActionModel>::empty());
        if self.plies() >= MAX_PLY {
            // the maximum number of turns is reached: no move is allowed anymore
            return;
        }
        let turn = self.current_turn();
        let pawns = self.positions_of(turn.pawn());
        let queens = self.positions_of(turn.queen());
        proof {
            lemma_actions_fit_add(
                jumps_of(self@, turn, 2, indices_with(self@, pawn_of(turn))),
                jumps_of(self@, turn, 7, indices_with(self@, queen_of(turn))),
            );
        }
        // all captures, for pawns and then for queens
        self.add_all_jumps(2, &pawns, actions);
        self.add_all_jumps(7, &queens, actions);
        assert(models(actions@) =~= all_jumps(self@, turn));
        if !actions.is_empty() {
            // rule: the player must take a sequence with the maximal number of captures
            Self::keep_longest(actions);
            return;
        }
        // no capture is possible: the simple moves
        self.add_all_pawn_moves(&pawns, actions);
        self.add_all_queen_moves(&queens, actions);
        assert(models(actions@) =~= simple_actions(self@, turn));
    }

    /// Computes and returns the list of *valid* actions for the current player.
    pub fn actions(&self) -> (r: Vec<Action>)
        requires
            padding_free(self@),
            chains_fit(self@, self.spec_turn()),
        ensures
            models(r@) == legal_actions(self@, self.spec_turn(), self.spec_num_ply()),
    {
        let mut actions: Vec<Action> = Vec::with_capacity(32);
        self.actions_no_alloc(&mut actions);
        actions
    }
}

} // verus!
