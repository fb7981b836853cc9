//! Text forms of colors, positions and actions, and reading them back.
use vstd::prelude::*;
use crate::action::Action;
use crate::geometry::{Color, Dir, Move, Position, column_of, is_playable, line_of, ray};
use crate::rules::{ActionModel, cell_at, end_pos};
use crate::board::padding_free;
use crate::laws::{path_ok, step_ok};

verus! {

/// `String::from_iter` over characters: the string made of these characters, in order.
#[verifier::external_body]
pub(crate) fn string_from_chars(chars: &Vec<char>) -> (r: String)
    ensures
        r@ == chars@,
{
    String::from_iter(chars.iter())
}

/// The characters of a string.
pub fn chars_of(s: &str) -> (r: Vec<char>)
    ensures
        r@ == s@,
{
    let mut v: Vec<char> = Vec::new();
    for c in it: s.chars()
        invariant
            it.seq() == s@,
            v@ == s@.take(it.index() as int),
    {
        v.push(c);
        assert(s@.take(it.index() + 1) =~= v@);
    }
    assert(v@ =~= s@);
    v
}

/// Appends the characters of `t` to `v`.
pub(crate) fn push_all(v: &mut Vec<char>, t: &Vec<char>)
    ensures
        final(v)@ == old(v)@ + t@,
{
    let mut k: usize = 0;
    while k < t.len()
        invariant
            k <= t@.len(),
            v@ == old(v)@ + t@.take(k as int),
        decreases t@.len() - k,
    {
        v.push(t[k]);
        k += 1;
        assert(v@ =~= old(v)@ + t@.take(k as int));
    }
    assert(t@.take(t@.len() as int) =~= t@);
}

/// Both vectors hold the same characters.
fn same_chars(a: &Vec<char>, b: &Vec<char>) -> (r: bool)
    ensures
        r == (a@ == b@),
{
    if a.len() != b.len() {
        return false;
    }
    let mut k: usize = 0;
    while k < a.len()
        invariant
            k <= a@.len() == b@.len(),
            forall|j: int| 0 <= j < k ==> a@[j] == b@[j],
        decreases a@.len() - k,
    {
        if a[k] != b[k] {
            return false;
        }
        k += 1;
    }
    assert(a@ =~= b@);
    true
}

// ------------------------------------------------------------------
// Colors
// ------------------------------------------------------------------
pub open spec fn color_name(c: Color) -> Seq<char> {
    match c {
        Color::White => seq!['W', 'h', 'i', 't', 'e'],
        Color::Black => seq!['B', 'l', 'a', 'c', 'k'],
    }
}

impl Color {
    /// The name of the color: `White` or `Black`.
    pub fn name_chars(&self) -> (r: Vec<char>)
        ensures
            r@ == color_name(*self),
    {
        let r = match self {
            Color::White => vec!['W', 'h', 'i', 't', 'e'],
            Color::Black => vec!['B', 'l', 'a', 'c', 'k'],
        };
        assert(r@ =~= color_name(*self));
        r
    }

    /// The name of the color: `White` or `Black`.
    pub fn to_string(&self) -> (r: String)
        ensures
            r@ == color_name(*self),
    {
        string_from_chars(&self.name_chars())
    }

    /// The color with this name; `Err` for any other text.
    pub fn from_name(s: &str) -> (r: Result<Color, ()>)
        ensures
            r == if s@ == color_name(Color::White) {
                Ok::<Color, ()>(Color::White)
            } else if s@ == color_name(Color::Black) {
                Ok::<Color, ()>(Color::Black)
            } else {
                Err::<Color, ()>(())
            },
    {
        let chars = chars_of(s);
        if same_chars(&chars, &Color::White.name_chars()) {
            Ok(Color::White)
        } else if same_chars(&chars, &Color::Black.name_chars()) {
            Ok(Color::Black)
        } else {
            Err(())
        }
    }
}

impl std::str::FromStr for Color {
    type Err = ();

    fn from_str(s: &str) -> (r: Result<Self, Self::Err>)
        ensures
            r == if s@ == color_name(Color::White) {
                Ok::<Color, ()>(Color::White)
            } else if s@ == color_name(Color::Black) {
                Ok::<Color, ()>(Color::Black)
            } else {
                Err::<Color, ()>(())
            },
    {
        Color::from_name(s)
    }
}

// ------------------------------------------------------------------
// Positions
// ------------------------------------------------------------------
/// The letter of a column: `A` for column 0 up to `H` for column 7.
pub open spec fn column_letter(c: int) -> char {
    if c == 0 {
        'A'
    } else if c == 1 {
        'B'
    } else if c == 2 {
        'C'
    } else if c == 3 {
        'D'
    } else if c == 4 {
        'E'
    } else if c == 5 {
        'F'
    } else if c == 6 {
        'G'
    } else {
        'H'
    }
}

/// The decimal digit of `d` (0 to 9).
pub open spec fn digit_char(d: int) -> char {
    if d == 0 {
        '0'
    } else if d == 1 {
        '1'
    } else if d == 2 {
        '2'
    } else if d == 3 {
        '3'
    } else if d == 4 {
        '4'
    } else if d == 5 {
        '5'
    } else if d == 6 {
        '6'
    } else if d == 7 {
        '7'
    } else if d == 8 {
        '8'
    } else {
        '9'
    }
}

/// The text of a square: its column letter and its line number (from 1), as `B1`.
pub open spec fn pos_text(i: int) -> Seq<char> {
    seq![column_letter(column_of(i)), digit_char(line_of(i) + 1)]
}

fn column_letter_of(c: u8) -> (r: char)
    requires
        c < 8,
    ensures
        r == column_letter(c as int),
{
    match c {
        0 => 'A',
        1 => 'B',
        2 => 'C',
        3 => 'D',
        4 => 'E',
        5 => 'F',
        6 => 'G',
        _ => 'H',
    }
}

pub fn digit_of(d: u8) -> (r: char)
    requires
        d < 10,
    ensures
        r == digit_char(d as int),
{
    match d {
        0 => '0',
        1 => '1',
        2 => '2',
        3 => '3',
        4 => '4',
        5 => '5',
        6 => '6',
        7 => '7',
        8 => '8',
        _ => '9',
    }
}

/// Two playable squares with the same coordinates are the same square.
pub proof fn lemma_coords_injective(i: int, j: int)
    requires
        is_playable(i),
        is_playable(j),
        line_of(i) == line_of(j),
        column_of(i) == column_of(j),
    ensures
        i == j,
{
}

/// Law: two playable squares with the same text are the same square, so
/// reading the text of a square (`from_text`) gives that square back.
pub proof fn law_position_text_injective(i: int, j: int)
    requires
        is_playable(i),
        is_playable(j),
        pos_text(i) == pos_text(j),
    ensures
        i == j,
{
    assert(pos_text(i)[0] == pos_text(j)[0]);
    assert(pos_text(i)[1] == pos_text(j)[1]);
    lemma_coords_injective(i, j);
}

/// Law: reading the text of a square gives that square back.
pub proof fn law_position_text_read_back(i: int)
    requires
        is_playable(i),
    ensures
        square_of_text(pos_text(i)) == Some(i),
{
    let j = choose|j: int| is_playable(j) && pos_text(j) == pos_text(i);
    law_position_text_injective(i, j);
}

impl Position {
    /// The text of the position, as `B1`.
    pub fn text_chars(self) -> (r: Vec<char>)
        requires
            is_playable(self@),
        ensures
            r@ == pos_text(self@),
    {
        let (l, c) = self.coords();
        let r = vec![column_letter_of(c), digit_of(l + 1)];
        assert(r@ =~= pos_text(self@));
        r
    }

    /// The text of the position, as `B1`.
    pub fn to_string(self) -> (r: String)
        requires
            is_playable(self@),
        ensures
            r@ == pos_text(self@),
    {
        string_from_chars(&self.text_chars())
    }

    /// The square whose text this is; `Err` when no square has this text.
    pub fn from_chars(s: &Vec<char>) -> (r: Result<Position, ()>)
        ensures
            r matches Ok(p) ==> is_playable(p@) && s@ == pos_text(p@),
            r is Err ==> forall|i: int| is_playable(i) ==> s@ != pos_text(i),
    {
        let mut i: i8 = 5;
        while i < 41
            invariant
                5 <= i <= 41,
                forall|j: int| 5 <= j < i && is_playable(j) ==> s@ != pos_text(j),
            decreases 41 - i,
        {
            if i % 9 != 0 {
                let p = Position::new(i);
                if same_chars(s, &p.text_chars()) {
                    return Ok(p);
                }
            }
            i += 1;
        }
        Err(())
    }

    /// The square whose text this is; `Err` when no square has this text.
    pub fn from_text(s: &str) -> (r: Result<Position, ()>)
        ensures
            r matches Ok(p) ==> is_playable(p@) && s@ == pos_text(p@),
            r is Err ==> forall|i: int| is_playable(i) ==> s@ != pos_text(i),
    {
        Position::from_chars(&chars_of(s))
    }
}

impl std::str::FromStr for Position {
    type Err = ();

    fn from_str(s: &str) -> (r: Result<Self, Self::Err>)
        ensures
            r matches Ok(p) ==> is_playable(p@) && s@ == pos_text(p@),
            r is Err ==> forall|i: int| is_playable(i) ==> s@ != pos_text(i),
    {
        Position::from_text(s)
    }
}

// ------------------------------------------------------------------
// Actions
// ------------------------------------------------------------------
/// The text of an action: the starting square, then the square reached
/// after each move, separated by single spaces, as `B1 E4 A8`.
pub open spec fn action_text(a: ActionModel) -> Seq<char>
    decreases a.1.len(),
{
    if a.1.len() == 0 {
        pos_text(a.0)
    } else {
        action_text((a.0, a.1.drop_last())) + seq![' '] + pos_text(end_pos(a.0, a.1))
    }
}

/// Every square that the action starts from or reaches is playable.
pub open spec fn squares_playable(a: ActionModel) -> bool {
    &&& is_playable(a.0)
    &&& forall|t: int| 0 <= t < a.1.len() ==> #[trigger] is_playable(end_pos(a.0, a.1.take(t + 1)))
}

/// The pieces of a text between single spaces (as `str::split(" ")`).
pub open spec fn split_spaces(s: Seq<char>) -> Seq<Seq<char>>
    decreases s.len(),
{
    if s.len() == 0 {
        seq![Seq::empty()]
    } else {
        let rest = split_spaces(s.drop_last());
        if s.last() == ' ' {
            rest.push(Seq::empty())
        } else {
            rest.update(rest.len() - 1, rest.last().push(s.last()))
        }
    }
}

/// The square whose text this is.
pub open spec fn square_of_text(t: Seq<char>) -> Option<int> {
    if exists|i: int| is_playable(i) && pos_text(i) == t {
        Some(choose|i: int| is_playable(i) && pos_text(i) == t)
    } else {
        None
    }
}

/// The squares named by the texts, `None` if one names no square.
pub open spec fn squares_of_texts(ts: Seq<Seq<char>>) -> Option<Seq<int>>
    decreases ts.len(),
{
    if ts.len() == 0 {
        Some(Seq::empty())
    } else {
        match (squares_of_texts(ts.drop_last()), square_of_text(ts.last())) {
            (Some(ps), Some(p)) => Some(ps.push(p)),
            _ => None,
        }
    }
}

/// The move from square `i` to square `j`, by the sign of the differences
/// of their lines and columns and the distance between their lines; `None`
/// when they share a line or a column.
pub open spec fn move_between(i: int, j: int) -> Option<Move> {
    let (li, ci, lj, cj) = (line_of(i), column_of(i), line_of(j), column_of(j));
    let rep = (if li < lj { lj - li } else { li - lj }) as u8;
    if li < lj && ci < cj {
        Some(Move { dir: Dir::DownRight, repeat: rep })
    } else if li < lj && ci > cj {
        Some(Move { dir: Dir::DownLeft, repeat: rep })
    } else if li > lj && ci < cj {
        Some(Move { dir: Dir::UpRight, repeat: rep })
    } else if li > lj && ci > cj {
        Some(Move { dir: Dir::UpLeft, repeat: rep })
    } else {
        None
    }
}

/// The moves between consecutive squares, `None` if two consecutive squares
/// share a line or a column.
pub open spec fn moves_between(ps: Seq<int>) -> Option<Seq<Move>>
    decreases ps.len(),
{
    if ps.len() <= 1 {
        Some(Seq::empty())
    } else {
        match (moves_between(ps.drop_last()), move_between(ps[ps.len() - 2], ps.last())) {
            (Some(ms), Some(m)) => Some(ms.push(m)),
            _ => None,
        }
    }
}

/// The action that a text describes: at least two squares, at most 13,
/// consecutive squares on different lines and columns.
pub open spec fn action_of_text(s: Seq<char>) -> Result<ActionModel, ()> {
    match squares_of_texts(split_spaces(s)) {
        None => Err(()),
        Some(ps) => if ps.len() < 2 || ps.len() - 1 > 12 {
            Err(())
        } else {
            match moves_between(ps) {
                Some(ms) => Ok((ps[0], ms)),
                None => Err(()),
            }
        },
    }
}

proof fn lemma_square_of_text(t: Seq<char>, i: int)
    requires
        is_playable(i),
        pos_text(i) == t,
    ensures
        square_of_text(t) == Some(i),
{
    let j = choose|j: int| is_playable(j) && pos_text(j) == t;
    law_position_text_injective(i, j);
}

/// Once a text names no square, longer lists of texts name no squares either.
proof fn lemma_squares_none_extends(ts: Seq<Seq<char>>, k: int, j: int)
    requires
        0 <= k <= j <= ts.len(),
        squares_of_texts(ts.take(k)) is None,
    ensures
        squares_of_texts(ts.take(j)) is None,
    decreases j,
{
    if j > k {
        lemma_squares_none_extends(ts, k, j - 1);
        assert(ts.take(j).drop_last() =~= ts.take(j - 1));
    }
}

/// Once two consecutive squares share a line or a column, longer lists give no moves either.
proof fn lemma_moves_none_extends(ps: Seq<int>, k: int, j: int)
    requires
        2 <= k <= j <= ps.len(),
        moves_between(ps.take(k)) is None,
    ensures
        moves_between(ps.take(j)) is None,
    decreases j,
{
    if j > k {
        lemma_moves_none_extends(ps, k, j - 1);
        assert(ps.take(j).drop_last() =~= ps.take(j - 1));
    }
}

/// Splits a text at each space.
fn split_at_spaces(s: &Vec<char>) -> (r: Vec<Vec<char>>)
    ensures
        r@.map_values(|v: Vec<char>| v@) == split_spaces(s@),
{
    let mut r: Vec<Vec<char>> = Vec::new();
    let mut cur: Vec<char> = Vec::new();
    let mut k: usize = 0;
    while k < s.len()
        invariant
            k <= s@.len(),
            r@.map_values(|v: Vec<char>| v@).push(cur@) == split_spaces(s@.take(k as int)),
        decreases s@.len() - k,
    {
        let ghost before = r@.map_values(|v: Vec<char>| v@).push(cur@);
        assert(s@.take(k + 1).drop_last() =~= s@.take(k as int));
        if s[k] == ' ' {
            r.push(cur);
            cur = Vec::new();
            assert(r@.map_values(|v: Vec<char>| v@).push(cur@) =~= before.push(Seq::empty()));
        } else {
            cur.push(s[k]);
            assert(r@.map_values(|v: Vec<char>| v@).push(cur@) =~= before.update(
                before.len() - 1,
                before.last().push(s@[k as int]),
            ));
        }
        k += 1;
    }
    assert(s@.take(s@.len() as int) =~= s@);
    r.push(cur);
    r
}

/// The position that the text names.
fn square_of_chars(t: &Vec<char>) -> (r: Result<Position, ()>)
    ensures
        match r {
            Ok(p) => square_of_text(t@) == Some(p@),
            Err(_) => square_of_text(t@) is None,
        },
{
    let r = Position::from_chars(t);
    proof {
        if let Ok(p) = r {
            lemma_square_of_text(t@, p@);
        }
    }
    r
}

impl Action {
    /// The start and every square reached after a move are playable: the
    /// action has a text.
    pub fn has_text(&self) -> (r: bool)
        ensures
            r == squares_playable(self@),
    {
        let s = self.start().index() as i64;
        if !(5 <= s && s < 41 && s % 9 != 0) {
            return false;
        }
        let moves = self.moves();
        let ghost a = self@;
        let mut cur: i64 = s;
        let mut k: usize = 0;
        assert(moves@.take(0) =~= Seq::<Move>::empty());
        while k < moves.len()
            invariant
                a == self@,
                moves@ == a.1,
                moves@.len() <= 12,
                k <= moves@.len(),
                is_playable(a.0),
                cur == end_pos(a.0, moves@.take(k as int)),
                is_playable(cur as int),
                forall|t: int| 0 <= t < k ==> #[trigger] is_playable(end_pos(a.0, a.1.take(t + 1))),
            decreases moves@.len() - k,
        {
            let m = moves[k];
            let rep = m.repeat as i64;
            let next: i64 = match m.dir {
                Dir::UpLeft => cur + 4 * rep,
                Dir::UpRight => cur + 5 * rep,
                Dir::DownLeft => cur - 5 * rep,
                Dir::DownRight => cur - 4 * rep,
            };
            assert(moves@.take(k + 1).drop_last() =~= moves@.take(k as int));
            assert(next == end_pos(a.0, moves@.take(k + 1)));
            if !(5 <= next && next < 41 && next % 9 != 0) {
                assert(!is_playable(end_pos(a.0, a.1.take(k + 1))));
                return false;
            }
            cur = next;
            k += 1;
        }
        true
    }

    /// The text of the action, as `B1 E4 A8`.
    pub fn text_chars(&self) -> (r: Vec<char>)
        requires
            squares_playable(self@),
        ensures
            r@ == action_text(self@),
    {
        let start = self.start();
        let moves = self.moves();
        let mut r = start.text_chars();
        let mut last = start;
        let mut k: usize = 0;
        while k < moves.len()
            invariant
                k <= moves@.len(),
                moves@ == self@.1,
                start@ == self@.0,
                squares_playable(self@),
                last@ == end_pos(self@.0, moves@.take(k as int)),
                is_playable(last@),
                r@ == action_text((self@.0, moves@.take(k as int))),
            decreases moves@.len() - k,
        {
            let m = moves[k];
            assert(moves@.take(k + 1).drop_last() =~= moves@.take(k as int));
            assert(is_playable(end_pos(self@.0, self@.1.take(k + 1))));
            let new = last.add_move(m);
            r.push(' ');
            push_all(&mut r, &new.text_chars());
            last = new;
            k += 1;
        }
        assert(moves@.take(moves@.len() as int) =~= moves@);
        r
    }

    /// The text of the action, as `B1 E4 A8`.
    pub fn to_string(&self) -> (r: String)
        requires
            squares_playable(self@),
        ensures
            r@ == action_text(self@),
    {
        string_from_chars(&self.text_chars())
    }

    /// Reads an action from its text: squares separated by single spaces.
    pub fn from_text(s: &str) -> (r: Result<Action, ()>)
        ensures
            match r {
                Ok(a) => action_of_text(s@) == Ok::<ActionModel, ()>(a@),
                Err(_) => action_of_text(s@) is Err,
            },
    {
        let chars = chars_of(s);
        let pieces = split_at_spaces(&chars);
        let ghost texts = pieces@.map_values(|v: Vec<char>| v@);
        let mut pos: Vec<Position> = Vec::new();
        let mut k: usize = 0;
        while k < pieces.len()
            invariant
                k <= pieces@.len(),
                texts == pieces@.map_values(|v: Vec<char>| v@),
                texts == split_spaces(s@),
                squares_of_texts(texts.take(k as int)) == Some(pos@.map_values(|p: Position| p@)),
                forall|n: int| 0 <= n < pos@.len() ==> is_playable(#[trigger] pos@[n]@),
            decreases pieces@.len() - k,
        {
            assert(texts.take(k + 1).drop_last() =~= texts.take(k as int));
            match square_of_chars(&pieces[k]) {
                Ok(p) => {
                    let ghost before = pos@;
                    proof {
                        let t = pieces@[k as int]@;
                        assert(exists|i: int| is_playable(i) && pos_text(i) == t);
                    }
                    pos.push(p);
                    assert(pos@.map_values(|p: Position| p@) =~= before.map_values(|p: Position| p@).push(p@));
                },
                Err(_) => {
                    proof {
                        let rest = texts.take(k + 1);
                        assert(rest.last() == pieces@[k as int]@);
                        lemma_squares_none_extends(texts, k + 1, texts.len() as int);
                        assert(texts.take(texts.len() as int) =~= texts);
                    }
                    return Err(());
                },
            }
            k += 1;
        }
        assert(texts.take(pieces@.len() as int) =~= texts);
        let ghost ps = pos@.map_values(|p: Position| p@);
        if pos.len() < 2 || pos.len() - 1 > 12 {
            return Err(());
        }
        let mut moves: Vec<Move> = Vec::new();
        let mut current = pos[0];
        let mut k: usize = 1;
        while k < pos.len()
            invariant
                1 <= k <= pos@.len() <= 13,
                ps == pos@.map_values(|p: Position| p@),
                current@ == ps[k - 1],
                forall|n: int| 0 <= n < pos@.len() ==> is_playable(#[trigger] pos@[n]@),
                moves_between(ps.take(k as int)) == Some(moves@),
                squares_of_texts(split_spaces(s@)) == Some(ps),
                moves@.len() == k - 1,
            decreases pos@.len() - k,
        {
            let new = pos[k];
            assert(ps.take(k + 1).drop_last() =~= ps.take(k as int));
            assert(ps.take(k + 1)[k - 1] == ps[k - 1]);
            let (current_line, current_column) = current.coords();
            let (new_line, new_column) = new.coords();
            let dir = if current_line < new_line && current_column < new_column {
                Dir::DownRight
            } else if current_line < new_line && current_column > new_column {
                Dir::DownLeft
            } else if current_line > new_line && current_column < new_column {
                Dir::UpRight
            } else if current_line > new_line && current_column > new_column {
                Dir::UpLeft
            } else {
                proof {
                    assert(move_between(ps.take(k + 1)[k - 1], ps.take(k + 1).last()) is None);
                    lemma_moves_none_extends(ps, k + 1, ps.len() as int);
                    assert(ps.take(ps.len() as int) =~= ps);
                }
                return Err(());
            };
            let repeat = if current_line < new_line {
                new_line - current_line
            } else {
                current_line - new_line
            };
            moves.push(dir.repeat(repeat));
            current = new;
            k += 1;
        }
        assert(ps.take(pos@.len() as int) =~= ps);
        Ok(Action::from_parts(pos[0], &moves))
    }
}

impl std::str::FromStr for Action {
    type Err = ();

    fn from_str(s: &str) -> (r: Result<Self, Self::Err>)
        ensures
            match r {
                Ok(a) => action_of_text(s@) == Ok::<ActionModel, ()>(a@),
                Err(_) => action_of_text(s@) is Err,
            },
    {
        Action::from_text(s)
    }
}

// ------------------------------------------------------------------
// Reading back the text of an action
// ------------------------------------------------------------------
/// Change of line of one step in direction `d`: up is towards line 0.
pub open spec fn line_step(d: Dir) -> int {
    match d {
        Dir::UpLeft | Dir::UpRight => -1,
        Dir::DownLeft | Dir::DownRight => 1,
    }
}

/// Change of column of one step in direction `d`.
pub open spec fn column_step(d: Dir) -> int {
    match d {
        Dir::UpLeft | Dir::DownLeft => -1,
        Dir::UpRight | Dir::DownRight => 1,
    }
}

/// A step between two playable squares moves one line and one column.
pub proof fn lemma_step_coords(p: int, d: Dir)
    requires
        is_playable(p),
        is_playable(ray(p, d, 1)),
    ensures
        line_of(ray(p, d, 1)) == line_of(p) + line_step(d),
        column_of(ray(p, d, 1)) == column_of(p) + column_step(d),
{
}

/// Law: one step from a playable square lands inside the array; it lands on
/// a playable square exactly when the line and the column it reaches are on
/// the board, and then on that line and column. Otherwise it lands on
/// padding.
pub proof fn law_step_on_board(p: int, d: Dir)
    requires
        is_playable(p),
    ensures
        0 <= ray(p, d, 1) < 46,
        is_playable(ray(p, d, 1)) <==> (0 <= line_of(p) + line_step(d) < 8 && 0 <= column_of(p)
            + column_step(d) < 8),
        is_playable(ray(p, d, 1)) ==> line_of(ray(p, d, 1)) == line_of(p) + line_step(d)
            && column_of(ray(p, d, 1)) == column_of(p) + column_step(d),
{
    if is_playable(ray(p, d, 1)) {
        lemma_step_coords(p, d);
    }
}

/// `k` steps over playable squares move `k` lines and `k` columns.
pub proof fn lemma_ray_coords(p: int, d: Dir, k: int)
    requires
        k >= 0,
        forall|j: int| 0 <= j <= k ==> #[trigger] is_playable(ray(p, d, j)),
    ensures
        line_of(ray(p, d, k)) == line_of(p) + (if line_step(d) < 0 { -k } else { k }),
        column_of(ray(p, d, k)) == column_of(p) + (if column_step(d) < 0 { -k } else { k }),
    decreases k,
{
    if k > 0 {
        lemma_ray_coords(p, d, k - 1);
        assert(is_playable(ray(p, d, k - 1)));
        assert(is_playable(ray(p, d, k)));
        assert(ray(ray(p, d, k - 1), d, 1) == ray(p, d, k));
        lemma_step_coords(ray(p, d, k - 1), d);
    }
}

/// A move over playable squares is read back from its two ends.
proof fn lemma_move_between(p: int, m: Move)
    requires
        m.repeat >= 1,
        forall|j: int| 0 <= j <= m.repeat ==> #[trigger] is_playable(ray(p, m.dir, j)),
    ensures
        move_between(p, ray(p, m.dir, m.repeat as int)) == Some(m),
{
    lemma_ray_coords(p, m.dir, m.repeat as int);
}

/// The text of a square has no space.
proof fn lemma_pos_text_no_space(i: int)
    ensures
        !pos_text(i).contains(' '),
{
    assert(pos_text(i)[0] != ' ');
    assert(pos_text(i)[1] != ' ');
}

/// Appending a piece without spaces extends the last piece.
proof fn lemma_split_append(x: Seq<char>, t: Seq<char>)
    requires
        !t.contains(' '),
    ensures
        split_spaces(x + t) == split_spaces(x).update(
            split_spaces(x).len() - 1,
            split_spaces(x).last() + t,
        ),
        split_spaces(x).len() >= 1,
    decreases t.len(),
{
    lemma_split_len(x);
    if t.len() == 0 {
        assert(x + t =~= x);
        assert(split_spaces(x).last() + t =~= split_spaces(x).last());
        assert(split_spaces(x).update(split_spaces(x).len() - 1, split_spaces(x).last())
            =~= split_spaces(x));
    } else {
        let t0 = t.drop_last();
        assert(!t0.contains(' ')) by {
            if t0.contains(' ') {
                let k = t0.index_of(' ');
                assert(t[k] == ' ');
            }
        }
        assert(t.last() != ' ') by {
            assert(t[t.len() - 1] == t.last());
        }
        lemma_split_append(x, t0);
        assert((x + t).drop_last() =~= x + t0);
        assert((x + t).last() == t.last());
        lemma_split_len(x + t0);
        let a = split_spaces(x);
        let rest = split_spaces(x + t0);
        assert(rest == a.update(a.len() - 1, a.last() + t0));
        assert(rest.len() == a.len());
        assert(rest.last() == a.last() + t0);
        assert((a.last() + t0).push(t.last()) =~= a.last() + t);
        assert(split_spaces(x + t) == rest.update(rest.len() - 1, rest.last().push((x + t).last())));
        assert(split_spaces(x + t) =~= a.update(a.len() - 1, a.last() + t));
    }
}

proof fn lemma_split_len(x: Seq<char>)
    ensures
        split_spaces(x).len() >= 1,
    decreases x.len(),
{
    if x.len() > 0 {
        lemma_split_len(x.drop_last());
    }
}

/// The squares that an action starts from and reaches, in order.
pub open spec fn squares_along(start: int, moves: Seq<Move>) -> Seq<int> {
    Seq::new(moves.len() + 1, |t: int| end_pos(start, moves.take(t)))
}

/// The pieces of the text of an action are the texts of its squares.
proof fn lemma_action_text_split(a: ActionModel)
    ensures
        split_spaces(action_text(a)) == squares_along(a.0, a.1).map_values(|i: int| pos_text(i)),
    decreases a.1.len(),
{
    let along = squares_along(a.0, a.1).map_values(|i: int| pos_text(i));
    if a.1.len() == 0 {
        lemma_pos_text_no_space(a.0);
        lemma_split_append(Seq::empty(), pos_text(a.0));
        assert(Seq::<char>::empty() + pos_text(a.0) =~= pos_text(a.0));
        assert(a.1.take(0) =~= a.1);
        assert(seq![Seq::<char>::empty()].update(0, Seq::<char>::empty() + pos_text(a.0)) =~= along);
    } else {
        let prev = (a.0, a.1.drop_last());
        lemma_action_text_split(prev);
        let x = action_text(prev) + seq![' '];
        let t = pos_text(end_pos(a.0, a.1));
        lemma_pos_text_no_space(end_pos(a.0, a.1));
        lemma_split_append(x, t);
        assert(x.drop_last() =~= action_text(prev));
        let b = split_spaces(action_text(prev));
        assert(split_spaces(x) == b.push(Seq::empty()));
        assert(Seq::<char>::empty() + t =~= t);
        let prev_along = squares_along(a.0, a.1.drop_last()).map_values(|i: int| pos_text(i));
        assert forall|k: int| 0 <= k < prev_along.len() implies prev_along[k] == along[k] by {
            assert(a.1.drop_last().take(k) =~= a.1.take(k));
        }
        assert(a.1.take(a.1.len() as int) =~= a.1);
        assert(split_spaces(action_text(a)) =~= along);
    }
}

/// Reading the texts of squares gives the squares.
proof fn lemma_squares_of_texts(ps: Seq<int>)
    requires
        forall|k: int| 0 <= k < ps.len() ==> is_playable(#[trigger] ps[k]),
    ensures
        squares_of_texts(ps.map_values(|i: int| pos_text(i))) == Some(ps),
    decreases ps.len(),
{
    if ps.len() > 0 {
        let texts = ps.map_values(|i: int| pos_text(i));
        lemma_squares_of_texts(ps.drop_last());
        assert(texts.drop_last() =~= ps.drop_last().map_values(|i: int| pos_text(i)));
        lemma_square_of_text(texts.last(), ps.last());
        assert(ps.drop_last().push(ps.last()) =~= ps);
    }
}

/// The moves read back from the squares of a path over playable squares.
proof fn lemma_moves_between_along(start: int, moves: Seq<Move>)
    requires
        forall|t: int|
            0 <= t < moves.len() ==> #[trigger] moves[t].repeat >= 1 && forall|j: int|
                0 <= j <= moves[t].repeat ==> #[trigger] is_playable(
                    ray(end_pos(start, moves.take(t)), moves[t].dir, j),
                ),
    ensures
        moves_between(squares_along(start, moves)) == Some(moves),
    decreases moves.len(),
{
    if moves.len() > 0 {
        let prev = moves.drop_last();
        assert forall|t: int| 0 <= t < prev.len() implies #[trigger] prev[t].repeat >= 1 && forall|j: int|
            0 <= j <= prev[t].repeat ==> #[trigger] is_playable(ray(end_pos(start, prev.take(t)), prev[t].dir, j)) by {
            assert(prev.take(t) =~= moves.take(t));
            assert(prev[t] == moves[t]);
        }
        lemma_moves_between_along(start, prev);
        let along = squares_along(start, moves);
        assert(along.drop_last() =~= squares_along(start, prev)) by {
            assert forall|k: int| 0 <= k < along.len() - 1 implies along.drop_last()[k] == squares_along(start, prev)[k] by {
                assert(prev.take(k) =~= moves.take(k));
            }
        }
        let t = moves.len() - 1;
        assert(moves.take(t) =~= prev);
        assert(moves.take(t + 1) =~= moves);
        let p = end_pos(start, prev);
        lemma_move_between(p, moves[t]);
        assert(along[along.len() - 2] == p);
        assert(along.last() == end_pos(start, moves));
        assert(prev.push(moves.last()) =~= moves);
    }
}

/// Law: the text of an action that follows a valid path on a board without
/// stray padding names playable squares only, and reading it gives the
/// action back.
pub proof fn law_action_text_roundtrip(
    cells: Seq<Option<crate::geometry::Cell>>,
    turn: Color,
    start: int,
    moves: Seq<Move>,
)
    requires
        padding_free(cells),
        path_ok(cells, turn, start, moves),
        1 <= moves.len() <= 12,
    ensures
        squares_playable((start, moves)),
        action_of_text(action_text((start, moves))) == Ok::<ActionModel, ()>((start, moves)),
{
    assert(is_playable(start));
    // every square on the path is playable
    assert forall|t: int| 0 <= t < moves.len() implies #[trigger] moves[t].repeat >= 1 && forall|j: int|
        0 <= j <= moves[t].repeat ==> #[trigger] is_playable(ray(end_pos(start, moves.take(t)), moves[t].dir, j)) by {
        assert(step_ok(cells, turn, end_pos(start, moves.take(t)), moves[t]));
        lemma_path_start_playable(cells, turn, start, moves, t);
        assert forall|j: int| 0 <= j <= moves[t].repeat implies #[trigger] is_playable(
            ray(end_pos(start, moves.take(t)), moves[t].dir, j),
        ) by {
            if j >= 1 {
                assert(cell_at(cells, ray(end_pos(start, moves.take(t)), moves[t].dir, j)) is Some);
            }
        }
    }
    assert forall|t: int| 0 <= t < moves.len() implies #[trigger] is_playable(end_pos(start, moves.take(t + 1))) by {
        assert(moves.take(t + 1).drop_last() =~= moves.take(t));
        assert(is_playable(ray(end_pos(start, moves.take(t)), moves[t].dir, moves[t].repeat as int)));
    }
    let along = squares_along(start, moves);
    assert forall|k: int| 0 <= k < along.len() implies is_playable(#[trigger] along[k]) by {
        if k > 0 {
            assert(is_playable(end_pos(start, moves.take((k - 1) + 1))));
        } else {
            assert(moves.take(0) =~= Seq::<Move>::empty());
        }
    }
    lemma_action_text_split((start, moves));
    lemma_squares_of_texts(along);
    lemma_moves_between_along(start, moves);
    assert(along[0] == start) by {
        assert(moves.take(0) =~= Seq::<Move>::empty());
    }
}

/// The square from which each move of a valid path starts is playable.
proof fn lemma_path_start_playable(
    cells: Seq<Option<crate::geometry::Cell>>,
    turn: Color,
    start: int,
    moves: Seq<Move>,
    t: int,
)
    requires
        padding_free(cells),
        path_ok(cells, turn, start, moves),
        0 <= t <= moves.len(),
    ensures
        is_playable(end_pos(start, moves.take(t))),
    decreases t,
{
    if t == 0 {
        assert(moves.take(0) =~= Seq::<Move>::empty());
        assert(cell_at(cells, start) is Some);
    } else {
        lemma_path_start_playable(cells, turn, start, moves, t - 1);
        assert(moves.take(t).drop_last() =~= moves.take(t - 1));
        assert(step_ok(cells, turn, end_pos(start, moves.take(t - 1)), moves[t - 1]));
        assert(cell_at(cells, ray(end_pos(start, moves.take(t - 1)), moves[t - 1].dir, moves[t - 1].repeat as int)) is Some);
    }
}

} // verus!
