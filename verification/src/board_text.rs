//! The text of a board, and reading a board back from a text.
//!
//! The text has a heading line (column letters, the player to move, the
//! number of plies), then the eight lines of the board from line 1 (top)
//! to line 8 (bottom); each playable square shows `W w . b B` (white
//! queen, white pawn, empty, black pawn, black queen), the other squares
//! show a block.
use vstd::prelude::*;
use crate::board::{Board, filled, padding_free, lemma_board_len};
use crate::geometry::{
    Cell, Color, Index, Position, column_of, is_playable, line_of, playable_indices, playable_below,
    lemma_playable_indices, row_start, lemma_row_square,
};
use crate::text::{color_name, digit_char, digit_of, string_from_chars, chars_of, push_all};

verus! {

broadcast use lemma_board_len;

/// The character of a cell value.
pub open spec fn cell_char(c: Cell) -> char {
    match c {
        Cell::WhiteQueen => 'W',
        Cell::WhitePawn => 'w',
        Cell::Empty => '.',
        Cell::BlackPawn => 'b',
        Cell::BlackQueen => 'B',
    }
}

/// The cell value that a character stands for, if any.
pub open spec fn char_cell(ch: char) -> Option<Cell> {
    if ch == 'W' {
        Some(Cell::WhiteQueen)
    } else if ch == 'w' {
        Some(Cell::WhitePawn)
    } else if ch == '.' {
        Some(Cell::Empty)
    } else if ch == 'b' {
        Some(Cell::BlackPawn)
    } else if ch == 'B' {
        Some(Cell::BlackQueen)
    } else {
        None
    }
}

impl Cell {
    /// The character of the cell value (`W w . b B`).
    pub fn to_char(self) -> (r: char)
        ensures
            r == cell_char(self),
    {
        match self {
            Cell::WhiteQueen => 'W',
            Cell::WhitePawn => 'w',
            Cell::Empty => '.',
            Cell::BlackPawn => 'b',
            Cell::BlackQueen => 'B',
        }
    }

    /// The cell value that a character stands for, if any.
    pub fn from_char(ch: char) -> (r: Option<Cell>)
        ensures
            r == char_cell(ch),
    {
        if ch == 'W' {
            Some(Cell::WhiteQueen)
        } else if ch == 'w' {
            Some(Cell::WhitePawn)
        } else if ch == '.' {
            Some(Cell::Empty)
        } else if ch == 'b' {
            Some(Cell::BlackPawn)
        } else if ch == 'B' {
            Some(Cell::BlackQueen)
        } else {
            None
        }
    }
}

/// The decimal text of a number, without leading zeros.
pub open spec fn decimal(n: nat) -> Seq<char>
    decreases n,
{
    if n < 10 {
        seq![digit_char(n as int)]
    } else {
        decimal(n / 10).push(digit_char((n % 10) as int))
    }
}

/// Three block characters, for a square that is not playable.
pub open spec fn block() -> Seq<char> {
    seq!['\u{2588}', '\u{2588}', '\u{2588}']
}

/// The column letters, each between spaces.
pub open spec fn columns_text() -> Seq<char> {
    seq![
        ' ', 'A', ' ', ' ', 'B', ' ', ' ', 'C', ' ', ' ', 'D', ' ',
        ' ', 'E', ' ', ' ', 'F', ' ', ' ', 'G', ' ', ' ', 'H', ' ',
    ]
}

/// The heading line: column letters, the player to move, the number of plies.
pub open spec fn header_text(turn: Color, num_ply: nat) -> Seq<char> {
    seq![' ', ' '] + columns_text() + seq![' ', ' ', ' '] + color_name(turn) + seq![' ', ' ', '(']
        + decimal(num_ply) + seq![' ', 'p', 'l', 'i', 'e', 's', ')']
}


/// The beginning of line `m`: its number, then a block when the line starts
/// with a square that is not playable.
pub open spec fn line_label(m: int) -> Seq<char> {
    seq![digit_char(m + 1), ' '] + if m % 2 == 0 {
        block()
    } else {
        Seq::empty()
    }
}

/// The text of the `j`-th playable square of line `m`, and the block after it
/// unless it is in the last column.
pub open spec fn cell_chunk(cells: Seq<Option<Cell>>, m: int, j: int) -> Seq<char> {
    let x = row_start(m) + j;
    seq![' ', cell_char(cells[x]->0), ' '] + if column_of(x) < 7 {
        block()
    } else {
        Seq::empty()
    }
}

/// The text of the first `j` playable squares of line `m`.
pub open spec fn line_cells(cells: Seq<Option<Cell>>, m: int, j: int) -> Seq<char>
    decreases j,
{
    if j <= 0 {
        Seq::empty()
    } else {
        line_cells(cells, m, j - 1) + cell_chunk(cells, m, j - 1)
    }
}

/// The text of line `m`.
pub open spec fn line_text(cells: Seq<Option<Cell>>, m: int) -> Seq<char> {
    line_label(m) + line_cells(cells, m, 4)
}

/// The first `m` lines, each after a line break.
pub open spec fn rows_text(cells: Seq<Option<Cell>>, m: int) -> Seq<char>
    decreases m,
{
    if m <= 0 {
        Seq::empty()
    } else {
        rows_text(cells, m - 1) + seq!['\n'] + line_text(cells, m - 1)
    }
}

/// The text of a board.
pub open spec fn board_text(cells: Seq<Option<Cell>>, turn: Color, num_ply: nat) -> Seq<char> {
    header_text(turn, num_ply) + rows_text(cells, 8)
}


fn decimal_chars(n: u16) -> (r: Vec<char>)
    ensures
        r@ == decimal(n as nat),
    decreases n,
{
    if n < 10 {
        let r = vec![digit_of(n as u8)];
        assert(r@ =~= decimal(n as nat));
        r
    } else {
        let mut r = decimal_chars(n / 10);
        r.push(digit_of((n % 10) as u8));
        r
    }
}

fn push_block(v: &mut Vec<char>)
    ensures
        final(v)@ == old(v)@ + block(),
{
    v.push('\u{2588}');
    v.push('\u{2588}');
    v.push('\u{2588}');
    assert(final(v)@ =~= old(v)@ + block());
}

impl Board {
    /// The text of the board.
    pub fn text_chars(&self) -> (r: Vec<char>)
        requires
            filled(self@),
        ensures
            r@ == board_text(self@, self.spec_turn(), self.spec_num_ply() as nat),
    {
        let mut r: Vec<char> = Vec::new();
        r.push(' ');
        r.push(' ');
        let mut i: u8 = 0;
        while i < 8
            invariant
                i <= 8,
                r@ == seq![' ', ' '] + columns_text().take(3 * i),
            decreases 8 - i,
        {
            r.push(' ');
            r.push(match i {
                0 => 'A',
                1 => 'B',
                2 => 'C',
                3 => 'D',
                4 => 'E',
                5 => 'F',
                6 => 'G',
                _ => 'H',
            });
            r.push(' ');
            i += 1;
            assert(r@ =~= seq![' ', ' '] + columns_text().take(3 * i));
        }
        assert(columns_text().take(24) =~= columns_text());
        r.push(' ');
        r.push(' ');
        r.push(' ');
        push_all(&mut r, &self.current_turn().name_chars());
        r.push(' ');
        r.push(' ');
        r.push('(');
        push_all(&mut r, &decimal_chars(self.plies()));
        r.push(' ');
        r.push('p');
        r.push('l');
        r.push('i');
        r.push('e');
        r.push('s');
        r.push(')');
        assert(r@ =~= header_text(self.spec_turn(), self.spec_num_ply() as nat));
        let mut m: usize = 0;
        while m < 8
            invariant
                m <= 8,
                filled(self@),
                r@ == header_text(self.spec_turn(), self.spec_num_ply() as nat) + rows_text(self@, m as int),
            decreases 8 - m,
        {
            let ghost before = r@;
            r.push('\n');
            r.push(digit_of((m + 1) as u8));
            r.push(' ');
            if m % 2 == 0 {
                push_block(&mut r);
            }
            assert(r@ =~= before + seq!['\n'] + line_label(m as int));
            let start: usize = 5 + ((7 - m) / 2) * 9 + ((7 - m) % 2) * 5;
            let mut j: usize = 0;
            while j < 4
                invariant
                    j <= 4,
                    m < 8,
                    start == row_start(m as int),
                    filled(self@),
                    r@ == before + seq!['\n'] + line_label(m as int) + line_cells(self@, m as int, j as int),
                decreases 4 - j,
            {
                proof {
                    lemma_row_square(m as int, j as int);
                }
                let p = Position::new((start + j) as i8);
                let ghost mid = r@;
                r.push(' ');
                r.push(self.at(p).to_char());
                r.push(' ');
                if p.column() < 7 {
                    push_block(&mut r);
                }
                assert(r@ =~= mid + cell_chunk(self@, m as int, j as int));
                j += 1;
            }
            m += 1;
        }
        r
    }

    /// Every playable square holds a value: the board has a text.
    pub fn is_filled(&self) -> (r: bool)
        ensures
            r == filled(self@),
    {
        let mut i: usize = 0;
        while i < 46
            invariant
                i <= 46,
                forall|j: int| 0 <= j < i && is_playable(j) ==> #[trigger] self@[j] is Some,
            decreases 46 - i,
        {
            let playable = 5 <= i && i < 41 && i % 9 != 0;
            if playable && self.at_index(Index(i)).is_none() {
                return false;
            }
            i += 1;
        }
        true
    }

    /// The text of the board.
    pub fn to_string(&self) -> (r: String)
        requires
            filled(self@),
        ensures
            r@ == board_text(self@, self.spec_turn(), self.spec_num_ply() as nat),
    {
        string_from_chars(&self.text_chars())
    }
}

// ------------------------------------------------------------------
// Reading a board
// ------------------------------------------------------------------
/// The pieces of a text, each ending just after a line break (the last one
/// may end without it), as `str::split_inclusive('\n')`.
pub open spec fn split_inclusive(s: Seq<char>) -> Seq<Seq<char>>
    decreases s.len(),
{
    if s.len() == 0 {
        Seq::empty()
    } else {
        let rest = split_inclusive(s.drop_last());
        if rest.len() == 0 || rest.last().last() == '\n' {
            rest.push(seq![s.last()])
        } else {
            rest.update(rest.len() - 1, rest.last().push(s.last()))
        }
    }
}

/// A line without its line ending (`\n` or `\r\n`).
pub open spec fn strip_line_end(l: Seq<char>) -> Seq<char> {
    if l.len() > 0 && l.last() == '\n' {
        let l2 = l.drop_last();
        if l2.len() > 0 && l2.last() == '\r' {
            l2.drop_last()
        } else {
            l2
        }
    } else {
        l
    }
}

/// The lines of a text, as `str::lines`.
pub open spec fn lines_of(s: Seq<char>) -> Seq<Seq<char>> {
    stripped(split_inclusive(s))
}

/// The index of the first `c` in `s`.
pub open spec fn first_index(s: Seq<char>, c: char) -> Option<int>
    decreases s.len(),
{
    if s.len() == 0 {
        None
    } else if s[0] == c {
        Some(0)
    } else {
        match first_index(s.drop_first(), c) {
            Some(i) => Some(i + 1),
            None => None,
        }
    }
}

/// `pat` occurs in `s` at index `i`.
pub open spec fn occurs_at(s: Seq<char>, pat: Seq<char>, i: int) -> bool {
    0 <= i && i + pat.len() <= s.len() && s.subrange(i, i + pat.len()) == pat
}

/// `pat` occurs in `s`.
pub open spec fn occurs_in(s: Seq<char>, pat: Seq<char>) -> bool {
    exists|i: int| occurs_at(s, pat, i)
}

/// The value of a decimal digit.
pub open spec fn digit_value(ch: char) -> Option<int> {
    if '0' <= ch <= '9' {
        Some(ch as int - '0' as int)
    } else {
        None
    }
}

/// The value of a sequence of decimal digits; `None` if one is not a digit.
pub open spec fn digits_value(ds: Seq<char>) -> Option<int>
    decreases ds.len(),
{
    if ds.len() == 0 {
        Some(0)
    } else {
        match (digits_value(ds.drop_last()), digit_value(ds.last())) {
            (Some(v), Some(d)) => Some(v * 10 + d),
            _ => None,
        }
    }
}

/// A `u16` written in decimal, with an optional leading `+`, as `u16::from_str`.
pub open spec fn parse_u16(t: Seq<char>) -> Option<int> {
    if t.len() == 0 || (t.len() == 1 && (t[0] == '+' || t[0] == '-')) {
        None
    } else {
        let ds = if t[0] == '+' {
            t.drop_first()
        } else {
            t
        };
        match digits_value(ds) {
            Some(v) => if v <= u16::MAX {
                Some(v)
            } else {
                None
            },
            None => None,
        }
    }
}

/// A heading line: Black is to move if the line holds `Black` (else White);
/// the number of plies is the number that follows the first `(`, up to the
/// next space.
pub open spec fn heading_of(line: Seq<char>) -> Option<(Color, int)> {
    let color = if occurs_in(line, color_name(Color::Black)) {
        Color::Black
    } else {
        Color::White
    };
    match first_index(line, '(') {
        None => None,
        Some(i) => {
            let rest = line.skip(i + 1);
            match first_index(rest, ' ') {
                None => None,
                Some(e) => match parse_u16(rest.take(e)) {
                    Some(n) => Some((color, n)),
                    None => None,
                },
            }
        },
    }
}

/// The cell values of the characters that stand for one, in order.
pub open spec fn piece_cells(chars: Seq<char>) -> Seq<Cell>
    decreases chars.len(),
{
    if chars.len() == 0 {
        Seq::empty()
    } else {
        match char_cell(chars.last()) {
            Some(c) => piece_cells(chars.drop_last()).push(c),
            None => piece_cells(chars.drop_last()),
        }
    }
}

/// The cell values read from the lines `lines[lo..hi]`, from the last line up.
pub open spec fn pieces_from_bottom(lines: Seq<Seq<char>>, lo: int, hi: int) -> Seq<Cell>
    decreases hi - lo,
{
    if hi <= lo {
        Seq::empty()
    } else {
        piece_cells(lines[hi - 1]) + pieces_from_bottom(lines, lo, hi - 1)
    }
}

/// The lines of the board part of a text: all lines but a valid heading line.
pub open spec fn body_start(lines: Seq<Seq<char>>) -> int {
    if lines.len() > 0 && heading_of(lines[0]) is Some {
        1
    } else {
        0
    }
}

/// The cell values that `parse` reads: those of the last eight board lines,
/// from the bottom line up.
pub open spec fn parsed_pieces(s: Seq<char>) -> Seq<Cell> {
    let lines = lines_of(s);
    let lo = body_start(lines);
    let from = if lines.len() - lo > 8 {
        lines.len() - 8
    } else {
        lo
    };
    pieces_from_bottom(lines, from, lines.len() as int)
}

/// The slots filled with the values, one per playable square in increasing
/// order of index; the other slots are `None`.
pub open spec fn placed(pieces: Seq<Cell>) -> Seq<Option<Cell>>
    decreases pieces.len(),
{
    if pieces.len() == 0 {
        Seq::new(46, |i: int| None::<Cell>)
    } else {
        placed(pieces.drop_last()).update(playable_indices()[pieces.len() - 1], Some(pieces.last()))
    }
}

/// The player to move that `parse` reads: from a valid heading, else White.
pub open spec fn parsed_turn(s: Seq<char>) -> Color {
    let lines = lines_of(s);
    if body_start(lines) == 1 {
        heading_of(lines[0]).unwrap().0
    } else {
        Color::White
    }
}

/// The number of plies that `parse` reads: from a valid heading, else 0.
pub open spec fn parsed_num_ply(s: Seq<char>) -> int {
    let lines = lines_of(s);
    if body_start(lines) == 1 {
        heading_of(lines[0]).unwrap().1
    } else {
        0
    }
}

/// The texts of a sequence of character vectors.
pub open spec fn texts_of(v: Seq<Vec<char>>) -> Seq<Seq<char>> {
    v.map_values(|l: Vec<char>| l@)
}

/// Each text without its line ending.
pub open spec fn stripped(ls: Seq<Seq<char>>) -> Seq<Seq<char>> {
    ls.map_values(|l: Seq<char>| strip_line_end(l))
}

/// Splits a text into lines, as `str::lines`.
fn split_lines(s: &Vec<char>) -> (r: Vec<Vec<char>>)
    ensures
        texts_of(r@) == lines_of(s@),
{
    // the pieces that end with a line break, then the last piece
    let mut pieces: Vec<Vec<char>> = Vec::new();
    let mut k: usize = 0;
    while k < s.len()
        invariant
            k <= s@.len(),
            texts_of(pieces@) == split_inclusive(s@.take(k as int)),
            forall|j: int| 0 <= j < pieces@.len() ==> #[trigger] pieces@[j]@.len() > 0,
        decreases s@.len() - k,
    {
        let ghost before = texts_of(pieces@);
        assert(s@.take(k + 1).drop_last() =~= s@.take(k as int));
        assert(s@.take(k + 1).last() == s@[k as int]);
        let n = pieces.len();
        if n == 0 || pieces[n - 1][pieces[n - 1].len() - 1] == '\n' {
            proof {
                if n > 0 {
                    assert(before[n - 1] == pieces@[n - 1]@);
                }
            }
            let mut one: Vec<char> = Vec::new();
            one.push(s[k]);
            assert(one@ =~= seq![s@[k as int]]);
            pieces.push(one);
            assert(texts_of(pieces@) =~= before.push(seq![s@[k as int]]));
        } else {
            assert(before[n - 1] == pieces@[n - 1]@);
            let mut last = pieces.pop().unwrap();
            last.push(s[k]);
            pieces.push(last);
            assert(texts_of(pieces@) =~= before.update(before.len() - 1, before.last().push(s@[k as int])));
        }
        k += 1;
    }
    assert(s@.take(s@.len() as int) =~= s@);
    let ghost raw = texts_of(pieces@);
    let mut r: Vec<Vec<char>> = Vec::new();
    let mut k: usize = 0;
    while k < pieces.len()
        invariant
            k <= pieces@.len(),
            raw == texts_of(pieces@),
            raw.len() == pieces@.len(),
            r@.len() == k,
            texts_of(r@) == stripped(raw.take(k as int)),
        decreases pieces@.len() - k,
    {
        let l = &pieces[k];
        let mut end = l.len();
        if end > 0 && l[end - 1] == '\n' {
            end -= 1;
            if end > 0 && l[end - 1] == '\r' {
                end -= 1;
            }
        }
        let mut line: Vec<char> = Vec::new();
        let mut i: usize = 0;
        while i < end
            invariant
                i <= end <= l@.len(),
                line@ == l@.take(i as int),
            decreases end - i,
        {
            line.push(l[i]);
            i += 1;
            assert(line@ =~= l@.take(i as int));
        }
        assert(line@ =~= strip_line_end(l@));
        let ghost before = texts_of(r@);
        assert(raw[k as int] == l@);
        let ghost old_r = r@;
        let ghost lv = line@;
        r.push(line);
        assert forall|j: int| 0 <= j < k + 1 implies #[trigger] texts_of(r@)[j] == stripped(raw.take(k + 1))[j] by {
            assert(r@[j] == old_r.push(r@[k as int])[j]);
            if j < k {
                assert(r@[j] == old_r[j]);
                assert(texts_of(r@)[j] == before[j]);
                assert(before[j] == stripped(raw.take(k as int))[j]);
            } else {
                assert(r@[j]@ == lv);
                assert(texts_of(r@)[j] == lv);
            }
        }
        assert(texts_of(r@) =~= stripped(raw.take(k + 1)));
        k += 1;
    }
    assert(raw.take(pieces@.len() as int) =~= raw);
    r
}

/// The index of the first `c` in `s[from..]`, counted from `from`.
fn find_char(s: &Vec<char>, from: usize, c: char) -> (r: Option<usize>)
    requires
        from <= s@.len(),
    ensures
        match r {
            Some(i) => first_index(s@.skip(from as int), c) == Some(i as int) && i < s@.len() - from,
            None => first_index(s@.skip(from as int), c) is None,
        },
    decreases s@.len() - from,
{
    if from == s.len() {
        assert(s@.skip(from as int).len() == 0);
        None
    } else if s[from] == c {
        assert(s@.skip(from as int)[0] == s@[from as int]);
        Some(0)
    } else {
        assert(s@.skip(from as int).drop_first() =~= s@.skip(from + 1));
        match find_char(s, from + 1, c) {
            Some(i) => Some(i + 1),
            None => None,
        }
    }
}

/// `pat` occurs in `s`.
fn occurs(s: &Vec<char>, pat: &Vec<char>) -> (r: bool)
    ensures
        r == occurs_in(s@, pat@),
{
    if pat.len() > s.len() {
        assert forall|j: int| !occurs_at(s@, pat@, j) by {}
        return false;
    }
    let n = s.len();
    let end = n - pat.len();
    let mut i: usize = 0;
    loop
        invariant
            n == s@.len(),
            end == s@.len() - pat@.len(),
            i <= end,
            forall|j: int| 0 <= j < i ==> !occurs_at(s@, pat@, j),
        decreases end - i,
    {
        let mut k: usize = 0;
        let mut same = true;
        while k < pat.len()
            invariant
                n == s@.len(),
                i + pat@.len() <= s@.len(),
                k <= pat@.len(),
                same == forall|j: int| 0 <= j < k ==> s@[i + j] == pat@[j],
            decreases pat@.len() - k,
        {
            if s[i + k] != pat[k] {
                same = false;
            }
            k += 1;
        }
        if same {
            assert(s@.subrange(i as int, i + pat@.len()) =~= pat@);
            assert(occurs_at(s@, pat@, i as int));
            return true;
        }
        assert(!occurs_at(s@, pat@, i as int)) by {
            if s@.subrange(i as int, i + pat@.len()) == pat@ {
                assert forall|j: int| 0 <= j < pat@.len() implies s@[i + j] == pat@[j] by {
                    assert(s@.subrange(i as int, i + pat@.len())[j] == s@[i + j]);
                }
            }
        }
        if i == end {
            assert forall|j: int| !occurs_at(s@, pat@, j) by {
                if j > i {
                    assert(j + pat@.len() > s@.len());
                }
            }
            return false;
        }
        i += 1;
    }
}

/// The value of the digits `ds[lo..hi]`, or `None` if one is not a digit or
/// the value does not fit in a `u16`.
fn digits_u16(ds: &Vec<char>, lo: usize, hi: usize) -> (r: Option<u16>)
    requires
        lo <= hi <= ds@.len(),
    ensures
        match r {
            Some(v) => digits_value(ds@.subrange(lo as int, hi as int)) == Some(v as int),
            None => digits_value(ds@.subrange(lo as int, hi as int)) is None || digits_value(
                ds@.subrange(lo as int, hi as int),
            )->0 > u16::MAX,
        },
{
    let mut v: u32 = 0;
    let mut k: usize = lo;
    while k < hi
        invariant
            lo <= k <= hi <= ds@.len(),
            v <= u16::MAX,
            digits_value(ds@.subrange(lo as int, k as int)) == Some(v as int),
        decreases hi - k,
    {
        let ch = ds[k];
        assert(ds@.subrange(lo as int, k + 1).drop_last() =~= ds@.subrange(lo as int, k as int));
        if !('0' <= ch && ch <= '9') {
            proof {
                lemma_digits_none_extends(ds@, lo as int, k + 1, hi as int);
            }
            return None;
        }
        let d = (ch as u32) - ('0' as u32);
        v = v * 10 + d;
        if v > 65535 {
            proof {
                lemma_digits_grow(ds@, lo as int, k + 1, hi as int);
            }
            return None;
        }
        k += 1;
    }
    Some(v as u16)
}

/// A non-digit makes any longer sequence of digits invalid.
pub(crate) proof fn lemma_digits_none_extends(ds: Seq<char>, lo: int, k: int, hi: int)
    requires
        0 <= lo < k <= hi <= ds.len(),
        digits_value(ds.subrange(lo, k)) is None,
    ensures
        digits_value(ds.subrange(lo, hi)) is None,
    decreases hi - k,
{
    if hi > k {
        lemma_digits_none_extends(ds, lo, k, hi - 1);
        assert(ds.subrange(lo, hi).drop_last() =~= ds.subrange(lo, hi - 1));
    }
}

/// Adding digits never lowers the value.
pub(crate) proof fn lemma_digits_grow(ds: Seq<char>, lo: int, k: int, hi: int)
    requires
        0 <= lo <= k <= hi <= ds.len(),
        digits_value(ds.subrange(lo, k)) is Some,
    ensures
        digits_value(ds.subrange(lo, hi)) is None || digits_value(ds.subrange(lo, hi))->0 >= digits_value(
            ds.subrange(lo, k),
        )->0,
    decreases hi - k,
{
    if hi > k {
        lemma_digits_grow(ds, lo, k, hi - 1);
        assert(ds.subrange(lo, hi).drop_last() =~= ds.subrange(lo, hi - 1));
        lemma_digits_nonneg(ds.subrange(lo, hi - 1));
    }
}

pub(crate) proof fn lemma_digits_nonneg(ds: Seq<char>)
    ensures
        digits_value(ds) matches Some(v) ==> v >= 0,
    decreases ds.len(),
{
    if ds.len() > 0 {
        lemma_digits_nonneg(ds.drop_last());
    }
}

/// A `u16` written in decimal in `t[lo..hi]`, as `u16::from_str`.
fn parse_u16_at(t: &Vec<char>, lo: usize, hi: usize) -> (r: Option<u16>)
    requires
        lo <= hi <= t@.len(),
    ensures
        match r {
            Some(v) => parse_u16(t@.subrange(lo as int, hi as int)) == Some(v as int),
            None => parse_u16(t@.subrange(lo as int, hi as int)) is None,
        },
{
    let ghost w = t@.subrange(lo as int, hi as int);
    if lo == hi || (hi - lo == 1 && (t[lo] == '+' || t[lo] == '-')) {
        return None;
    }
    let start = if t[lo] == '+' {
        lo + 1
    } else {
        lo
    };
    assert(w[0] == t@[lo as int]);
    assert(t@.subrange(start as int, hi as int) =~= if w[0] == '+' { w.drop_first() } else { w });
    digits_u16(t, start, hi)
}

/// Reads the heading line: the player to move and the number of plies.
fn try_parse_heading(heading: &Vec<char>) -> (r: Option<(Color, u16)>)
    ensures
        match r {
            Some((c, n)) => heading_of(heading@) == Some((c, n as int)),
            None => heading_of(heading@) is None,
        },
{
    let color = if occurs(heading, &Color::Black.name_chars()) {
        Color::Black
    } else {
        Color::White
    };
    let n = heading.len();
    assert(heading@.skip(0) =~= heading@);
    let open = match find_char(heading, 0, '(') {
        Some(i) => i,
        None => {
            return None;
        },
    };
    proof {
        lemma_first_index_bound(heading@, '(');
    }
    let start = open + 1;
    let end = match find_char(heading, start, ' ') {
        Some(e) => e,
        None => {
            return None;
        },
    };
    proof {
        lemma_first_index_bound(heading@.skip(start as int), ' ');
        assert(heading@.skip(start as int).take(end as int) =~= heading@.subrange(start as int, start + end));
    }
    match parse_u16_at(heading, start, start + end) {
        Some(n) => Some((color, n)),
        None => None,
    }
}

proof fn lemma_first_index_bound(s: Seq<char>, c: char)
    ensures
        first_index(s, c) matches Some(i) ==> 0 <= i < s.len() && s[i] == c,
    decreases s.len(),
{
    if s.len() > 0 && s[0] != c {
        lemma_first_index_bound(s.drop_first(), c);
    }
}

/// Splitting the lines `lo..hi` at `mid`: the lower part comes after.
proof fn lemma_pieces_split(ls: Seq<Seq<char>>, lo: int, mid: int, hi: int)
    requires
        lo <= mid <= hi,
    ensures
        pieces_from_bottom(ls, lo, hi) == pieces_from_bottom(ls, mid, hi) + pieces_from_bottom(ls, lo, mid),
    decreases hi - mid,
{
    if hi == mid {
        assert(pieces_from_bottom(ls, mid, hi) =~= Seq::<Cell>::empty());
        assert(pieces_from_bottom(ls, lo, hi) =~= pieces_from_bottom(ls, mid, hi) + pieces_from_bottom(ls, lo, mid));
    } else {
        lemma_pieces_split(ls, lo, mid, hi - 1);
        assert(pieces_from_bottom(ls, lo, hi) =~= pieces_from_bottom(ls, mid, hi) + pieces_from_bottom(ls, lo, mid));
    }
}

/// One more character of a line.
proof fn lemma_piece_cells_step(l: Seq<char>, k: int)
    requires
        0 <= k < l.len(),
    ensures
        piece_cells(l.take(k + 1)) == match char_cell(l[k]) {
            Some(c) => piece_cells(l.take(k)).push(c),
            None => piece_cells(l.take(k)),
        },
{
    assert(l.take(k + 1).drop_last() =~= l.take(k));
}

/// A prefix of a line holds no more pieces than the line.
proof fn lemma_piece_cells_prefix(l: Seq<char>, k: int)
    requires
        0 <= k <= l.len(),
    ensures
        piece_cells(l.take(k)).len() <= piece_cells(l).len(),
    decreases l.len() - k,
{
    if k < l.len() {
        lemma_piece_cells_step(l, k);
        lemma_piece_cells_prefix(l, k + 1);
    } else {
        assert(l.take(k) =~= l);
    }
}

/// Placing one more value.
proof fn lemma_placed_push(s: Seq<Cell>, c: Cell)
    ensures
        placed(s.push(c)) == placed(s).update(playable_indices()[s.len() as int], Some(c)),
{
    assert(s.push(c).drop_last() =~= s);
}

impl Board {
    /// Reads a board from its text (see `to_string`). A heading line is
    /// optional; the last eight lines give the playable squares from the
    /// bottom up; the other characters are ignored.
    pub fn parse(board_str: &str) -> (r: Board)
        requires
            parsed_pieces(board_str@).len() <= 32,
        ensures
            r@ == placed(parsed_pieces(board_str@)),
            r.spec_turn() == parsed_turn(board_str@),
            r.spec_num_ply() == parsed_num_ply(board_str@),
    {
        Board::try_parse(board_str).unwrap()
    }

    /// Reads a board from its text, as `parse`; `None` when the text gives
    /// more than 32 squares.
    pub fn try_parse(board_str: &str) -> (r: Option<Board>)
        ensures
            r is Some <==> parsed_pieces(board_str@).len() <= 32,
            r matches Some(b) ==> {
                &&& b@ == placed(parsed_pieces(board_str@))
                &&& b.spec_turn() == parsed_turn(board_str@)
                &&& b.spec_num_ply() == parsed_num_ply(board_str@)
            },
    {
        let chars = chars_of(board_str);
        let lines = split_lines(&chars);
        let ghost ls = texts_of(lines@);
        let mut board = Board::blank();
        let mut first: usize = 0;
        if lines.len() > 0 {
            // Only parse and consume the first line if it is a correct heading
            match try_parse_heading(&lines[0]) {
                Some((color, plies)) => {
                    board.set_turn_and_plies(color, plies);
                    first = 1;
                },
                None => {},
            }
        }
        assert(first == body_start(ls));
        let ghost lo = if ls.len() - first > 8 {
            ls.len() - 8
        } else {
            first as int
        };
        assert(lines_of(chars@) == ls);
        assert(parsed_pieces(board_str@) == pieces_from_bottom(ls, lo, ls.len() as int));
        let positions = Position::all();
        proof {
            lemma_playable_indices();
        }
        let mut placed_count: usize = 0;
        let mut parsed_lines: usize = 0;
        let mut li: usize = lines.len();
        assert(pieces_from_bottom(ls, li as int, ls.len() as int) =~= Seq::<Cell>::empty());
        assert(board@ =~= placed(Seq::empty()));
        while li > first && parsed_lines < 8
            invariant
                first <= li <= lines@.len(),
                lo <= li,
                ls == texts_of(lines@),
                parsed_lines == lines@.len() - li,
                parsed_lines <= 8,
                lo == (if ls.len() - first > 8 {
                    ls.len() - 8
                } else {
                    first as int
                }),
                positions@.len() == 32,
                forall|k: int| 0 <= k < 32 ==> positions@[k]@ == #[trigger] playable_indices()[k],
                forall|k: int| 0 <= k < 32 ==> 5 <= #[trigger] playable_indices()[k] < 41,
                placed_count <= 32,
                parsed_pieces(board_str@) == pieces_from_bottom(ls, lo, ls.len() as int),
                placed_count == pieces_from_bottom(ls, li as int, ls.len() as int).len(),
                board@ == placed(pieces_from_bottom(ls, li as int, ls.len() as int)),
                board.spec_turn() == parsed_turn(board_str@),
                board.spec_num_ply() == parsed_num_ply(board_str@),
            decreases li,
        {
            proof {
                lemma_pieces_split(ls, lo, li - 1, ls.len() as int);
                lemma_pieces_split(ls, li - 1, li as int, ls.len() as int);
                assert(pieces_from_bottom(ls, li - 1, li - 1) =~= Seq::<Cell>::empty());
                assert(pieces_from_bottom(ls, li - 1, li as int) =~= piece_cells(ls[li - 1]));
            }
            li -= 1;
            let line = &lines[li];
            let ghost done = pieces_from_bottom(ls, li + 1, ls.len() as int);
            assert(line@ == ls[li as int]);
            assert(line@.take(0) =~= Seq::<char>::empty());
            assert(done + piece_cells(line@.take(0)) =~= done);
            let mut k: usize = 0;
            while k < line.len()
                invariant
                    k <= line@.len(),
                    line@ == ls[li as int],
                    positions@.len() == 32,
                    forall|k: int| 0 <= k < 32 ==> positions@[k]@ == #[trigger] playable_indices()[k],
                    forall|k: int| 0 <= k < 32 ==> 5 <= #[trigger] playable_indices()[k] < 41,
                    placed_count <= 32,
                    parsed_pieces(board_str@).len() >= (done + piece_cells(line@)).len(),
                    placed_count == (done + piece_cells(line@.take(k as int))).len(),
                    board@ == placed(done + piece_cells(line@.take(k as int))),
                    board.spec_turn() == parsed_turn(board_str@),
                    board.spec_num_ply() == parsed_num_ply(board_str@),
                decreases line@.len() - k,
            {
                proof {
                    lemma_piece_cells_step(line@, k as int);
                    lemma_piece_cells_prefix(line@, k + 1);
                }
                match Cell::from_char(line[k]) {
                    Some(cell) => {
                        let ghost before = done + piece_cells(line@.take(k as int));
                        if placed_count == 32 {
                            return None;
                        }
                        proof {
                            lemma_placed_push(before, cell);
                            assert(before.push(cell) =~= done + piece_cells(line@.take(k + 1)));
                        }
                        board.set(positions[placed_count], cell);
                        placed_count += 1;
                    },
                    None => {},
                }
                k += 1;
            }
            assert(line@.take(line@.len() as int) =~= line@);
            parsed_lines += 1;
        }
        proof {
            assert(li == lo);
        }
        Some(board)
    }
}

impl std::str::FromStr for Board {
    type Err = &'static str;

    fn from_str(s: &str) -> (r: Result<Self, Self::Err>)
        ensures
            r is Ok <==> parsed_pieces(s@).len() <= 32,
            r matches Ok(b) ==> {
                &&& b@ == placed(parsed_pieces(s@))
                &&& b.spec_turn() == parsed_turn(s@)
                &&& b.spec_num_ply() == parsed_num_ply(s@)
            },
            r matches Err(e) ==> e@ == "more than 32 squares"@,
    {
        match Board::try_parse(s) {
            Some(b) => Ok(b),
            None => Err("more than 32 squares"),
        }
    }
}

} // verus!
