//! Reading back the text of a board gives the board.
use vstd::prelude::*;
use crate::board::complete;
use crate::game::{
    initial_state, play_through, law_initial_sound, law_initial_board, law_play_through_sound,
    law_games_end,
};
use crate::rules::ActionModel;
use crate::board_text::{
    split_inclusive, stripped, lines_of, board_text, header_text, rows_text, line_text, line_label,
    line_cells, cell_chunk, columns_text, block, decimal, digits_value, digit_value, piece_cells,
    char_cell, cell_char, pieces_from_bottom, first_index, occurs_at,
    occurs_in, parse_u16, heading_of, placed, parsed_pieces, parsed_turn, parsed_num_ply, body_start,
};
use crate::geometry::{
    Cell, Color, column_of, is_playable, playable_below, playable_indices, lemma_playable_indices,
    row_start, read_square, lemma_playable_indices_read, MAX_PLY,
};
use crate::text::{color_name, digit_char};

verus! {

/// A line of text: not empty, without line breaks or carriage returns.
pub open spec fn plain_line(l: Seq<char>) -> bool {
    &&& l.len() > 0
    &&& forall|i: int| 0 <= i < l.len() ==> #[trigger] l[i] != '\n' && l[i] != '\r'
}

/// Lines joined with line breaks between them.
pub open spec fn join_lines(ls: Seq<Seq<char>>) -> Seq<char>
    decreases ls.len(),
{
    if ls.len() == 0 {
        Seq::empty()
    } else if ls.len() == 1 {
        ls[0]
    } else {
        join_lines(ls.drop_last()) + seq!['\n'] + ls.last()
    }
}

/// The last piece of a non-empty text is not empty and ends with the
/// text's last character.
proof fn lemma_split_last(s: Seq<char>)
    ensures
        s.len() > 0 ==> {
            &&& split_inclusive(s).len() > 0
            &&& split_inclusive(s).last().len() > 0
            &&& split_inclusive(s).last().last() == s.last()
        },
    decreases s.len(),
{
    if s.len() > 0 {
        lemma_split_last(s.drop_last());
    }
}

/// A text that ends with a line break (or is empty) splits apart from
/// what follows it.
proof fn lemma_split_concat(s: Seq<char>, t: Seq<char>)
    requires
        s.len() == 0 || s.last() == '\n',
    ensures
        split_inclusive(s + t) == split_inclusive(s) + split_inclusive(t),
    decreases t.len(),
{
    if t.len() == 0 {
        assert(s + t =~= s);
        assert(split_inclusive(s) + split_inclusive(t) =~= split_inclusive(s));
    } else {
        let t2 = t.drop_last();
        lemma_split_concat(s, t2);
        lemma_split_last(s);
        lemma_split_last(t2);
        assert((s + t).drop_last() =~= s + t2);
        assert((s + t).last() == t.last());
        let rest = split_inclusive(s + t2);
        if t2.len() == 0 {
            assert(split_inclusive(t2) =~= Seq::<Seq<char>>::empty());
            assert(rest =~= split_inclusive(s));
            assert(split_inclusive(t) =~= seq![seq![t.last()]]);
            assert(split_inclusive(s + t) =~= split_inclusive(s) + split_inclusive(t));
        } else {
            assert(rest.last() == split_inclusive(t2).last());
            assert(split_inclusive(s + t) =~= split_inclusive(s) + split_inclusive(t));
        }
    }
}

/// A text without line breaks but at its end is one piece.
proof fn lemma_split_single(w: Seq<char>)
    requires
        w.len() > 0,
        forall|i: int| 0 <= i < w.len() - 1 ==> #[trigger] w[i] != '\n',
    ensures
        split_inclusive(w) == seq![w],
    decreases w.len(),
{
    let w2 = w.drop_last();
    if w.len() == 1 {
        assert(split_inclusive(w2) =~= Seq::<Seq<char>>::empty());
        assert(w =~= seq![w.last()]);
    } else {
        lemma_split_single(w2);
        assert(w2.push(w.last()) =~= w);
    }
}

/// The pieces of joined plain lines: each line with its line break, the
/// last one without.
proof fn lemma_split_join(ls: Seq<Seq<char>>)
    requires
        ls.len() > 0,
        forall|i: int| 0 <= i < ls.len() ==> plain_line(#[trigger] ls[i]),
    ensures
        split_inclusive(join_lines(ls)) == Seq::new(
            ls.len(),
            |i: int|
                if i < ls.len() - 1 {
                    ls[i].push('\n')
                } else {
                    ls[i]
                },
        ),
        join_lines(ls).len() > 0,
        join_lines(ls).last() == ls.last().last(),
    decreases ls.len(),
{
    let n = ls.len();
    if n == 1 {
        assert(plain_line(ls[0]));
        lemma_split_single(ls[0]);
        assert(split_inclusive(join_lines(ls)) =~= Seq::new(
            ls.len(),
            |i: int|
                if i < ls.len() - 1 {
                    ls[i].push('\n')
                } else {
                    ls[i]
                },
        ));
    } else {
        let ls2 = ls.drop_last();
        assert forall|i: int| 0 <= i < ls2.len() implies plain_line(#[trigger] ls2[i]) by {
            assert(ls2[i] == ls[i]);
        }
        lemma_split_join(ls2);
        let x = join_lines(ls2);
        let last = ls.last();
        assert(plain_line(ls[n - 1]));
        assert(plain_line(ls2[n - 2]));
        let p2 = split_inclusive(x);
        lemma_split_last(x);
        // the line break closes the last piece of `x`
        assert(x.push('\n').drop_last() =~= x);
        assert(split_inclusive(x.push('\n')) == p2.update(p2.len() - 1, p2.last().push('\n')));
        lemma_split_concat(x.push('\n'), last);
        lemma_split_single(last);
        assert(join_lines(ls) =~= x.push('\n') + last);
        assert(split_inclusive(join_lines(ls)) =~= Seq::new(
            ls.len(),
            |i: int|
                if i < ls.len() - 1 {
                    ls[i].push('\n')
                } else {
                    ls[i]
                },
        ));
    }
}

/// The lines of joined plain lines are those lines.
pub proof fn lemma_lines_of_join(ls: Seq<Seq<char>>)
    requires
        ls.len() > 0,
        forall|i: int| 0 <= i < ls.len() ==> plain_line(#[trigger] ls[i]),
    ensures
        lines_of(join_lines(ls)) == ls,
{
    lemma_split_join(ls);
    let p = split_inclusive(join_lines(ls));
    assert forall|i: int| 0 <= i < ls.len() implies #[trigger] stripped(p)[i] == ls[i] by {
        assert(plain_line(ls[i]));
        if i < ls.len() - 1 {
            assert(ls[i].push('\n').drop_last() =~= ls[i]);
        }
    }
    assert(stripped(p) =~= ls);
}

/// The lines of the text of a board: the heading, then the eight lines of
/// the board from the top.
pub open spec fn text_lines(cells: Seq<Option<Cell>>, turn: Color, num_ply: nat) -> Seq<Seq<char>> {
    seq![header_text(turn, num_ply)] + Seq::new(8, |m: int| line_text(cells, m))
}

/// A heading followed by the first `m` lines of the board, joined.
proof fn lemma_rows_join(h: Seq<char>, cells: Seq<Option<Cell>>, m: int)
    requires
        0 <= m <= 8,
    ensures
        h + rows_text(cells, m) == join_lines(seq![h] + Seq::new(m as nat, |i: int| line_text(cells, i))),
    decreases m,
{
    let ls = seq![h] + Seq::new(m as nat, |i: int| line_text(cells, i));
    if m == 0 {
        assert(ls =~= seq![h]);
        assert(h + rows_text(cells, m) =~= h);
    } else {
        lemma_rows_join(h, cells, m - 1);
        assert(ls.drop_last() =~= seq![h] + Seq::new((m - 1) as nat, |i: int| line_text(cells, i)));
        assert(h + rows_text(cells, m) =~= (h + rows_text(cells, m - 1)) + seq!['\n'] + line_text(cells, m - 1));
    }
}

/// The text of a board is its lines joined.
proof fn lemma_board_text_join(cells: Seq<Option<Cell>>, turn: Color, num_ply: nat)
    ensures
        board_text(cells, turn, num_ply) == join_lines(text_lines(cells, turn, num_ply)),
{
    lemma_rows_join(header_text(turn, num_ply), cells, 8);
}

/// A text without line breaks or carriage returns.
pub open spec fn no_breaks(s: Seq<char>) -> bool {
    forall|i: int| 0 <= i < s.len() ==> #[trigger] s[i] != '\n' && s[i] != '\r'
}

/// The decimal digit characters.
pub open spec fn is_digit(ch: char) -> bool {
    '0' <= ch <= '9'
}

/// The character of a digit is a digit of that value.
proof fn lemma_digit_char(d: int)
    requires
        0 <= d < 10,
    ensures
        is_digit(digit_char(d)),
        digit_value(digit_char(d)) == Some(d),
{
}

/// The decimal text of a number: digits only, at least one, of that value.
pub proof fn lemma_decimal(n: nat)
    ensures
        decimal(n).len() > 0,
        forall|i: int| 0 <= i < decimal(n).len() ==> is_digit(#[trigger] decimal(n)[i]),
        digits_value(decimal(n)) == Some(n as int),
    decreases n,
{
    if n < 10 {
        lemma_digit_char(n as int);
        assert(decimal(n).drop_last() =~= Seq::<char>::empty());
        assert(digits_value(Seq::<char>::empty()) == Some(0int));
    } else {
        lemma_decimal(n / 10);
        lemma_digit_char((n % 10) as int);
        assert(decimal(n).drop_last() =~= decimal(n / 10));
        assert((n / 10) * 10 + n % 10 == n);
    }
}

/// The heading line has no line breaks.
proof fn lemma_header_plain(turn: Color, num_ply: nat)
    ensures
        plain_line(header_text(turn, num_ply)),
{
    lemma_decimal(num_ply);
    let h = header_text(turn, num_ply);
    assert(no_breaks(seq![' ', ' '] + columns_text() + seq![' ', ' ', ' '] + color_name(turn) + seq![' ', ' ', '(']));
    assert(no_breaks(decimal(num_ply)));
    assert(no_breaks(seq![' ', 'p', 'l', 'i', 'e', 's', ')']));
    assert(no_breaks(h));
}

/// A line of the board has no line breaks.
proof fn lemma_line_plain(cells: Seq<Option<Cell>>, m: int)
    requires
        0 <= m < 8,
    ensures
        plain_line(line_text(cells, m)),
{
    assert(no_breaks(block()));
    lemma_digit_char(m + 1);
    assert(no_breaks(line_label(m)));
    lemma_line_cells_plain(cells, m, 4);
}

/// The squares of a line have no line breaks.
proof fn lemma_line_cells_plain(cells: Seq<Option<Cell>>, m: int, j: int)
    ensures
        no_breaks(line_cells(cells, m, j)),
    decreases j,
{
    if j > 0 {
        lemma_line_cells_plain(cells, m, j - 1);
        let c = cells[row_start(m) + j - 1]->0;
        assert(cell_char(c) != '\n' && cell_char(c) != '\r');
        assert(no_breaks(block()));
        assert(no_breaks(cell_chunk(cells, m, j - 1)));
    }
}

/// The pieces of two texts one after the other.
proof fn lemma_piece_cells_add(a: Seq<char>, b: Seq<char>)
    ensures
        piece_cells(a + b) == piece_cells(a) + piece_cells(b),
    decreases b.len(),
{
    if b.len() == 0 {
        assert(a + b =~= a);
        assert(piece_cells(b) =~= Seq::<Cell>::empty());
        assert(piece_cells(a) + piece_cells(b) =~= piece_cells(a));
    } else {
        lemma_piece_cells_add(a, b.drop_last());
        assert((a + b).drop_last() =~= a + b.drop_last());
        assert((a + b).last() == b.last());
        assert(piece_cells(a + b) =~= piece_cells(a) + piece_cells(b));
    }
}

/// A text without piece characters holds no pieces.
proof fn lemma_piece_cells_none(s: Seq<char>)
    requires
        forall|i: int| 0 <= i < s.len() ==> char_cell(#[trigger] s[i]) is None,
    ensures
        piece_cells(s) == Seq::<Cell>::empty(),
    decreases s.len(),
{
    if s.len() > 0 {
        lemma_piece_cells_none(s.drop_last());
    }
}

/// The character of a cell value reads back as that value.
proof fn lemma_cell_char(c: Cell)
    ensures
        char_cell(cell_char(c)) == Some(c),
{
}

/// A square of a line holds exactly its cell value.
proof fn lemma_chunk_pieces(cells: Seq<Option<Cell>>, m: int, j: int)
    ensures
        piece_cells(cell_chunk(cells, m, j)) == seq![cells[row_start(m) + j]->0],
{
    let c = cells[row_start(m) + j]->0;
    lemma_cell_char(c);
    let three = seq![' ', cell_char(c), ' '];
    assert(three =~= seq![' '] + seq![cell_char(c)] + seq![' ']);
    assert(piece_cells(seq![' ']) =~= Seq::<Cell>::empty()) by {
        lemma_piece_cells_none(seq![' ']);
    }
    assert(piece_cells(seq![cell_char(c)]) =~= seq![c]) by {
        assert(seq![cell_char(c)].drop_last() =~= Seq::<char>::empty());
        assert(seq![cell_char(c)].last() == cell_char(c));
        assert(piece_cells(Seq::<char>::empty()) =~= Seq::<Cell>::empty());
    }
    lemma_piece_cells_add(seq![' '], seq![cell_char(c)]);
    lemma_piece_cells_add(seq![' '] + seq![cell_char(c)], seq![' ']);
    let tail = if column_of(row_start(m) + j) < 7 {
        block()
    } else {
        Seq::empty()
    };
    lemma_piece_cells_none(tail);
    lemma_piece_cells_add(three, tail);
    assert(piece_cells(cell_chunk(cells, m, j)) =~= seq![c]);
}

/// The first `j` squares of a line hold their cell values in order.
proof fn lemma_line_cells_pieces(cells: Seq<Option<Cell>>, m: int, j: int)
    requires
        0 <= j,
    ensures
        piece_cells(line_cells(cells, m, j)) == Seq::new(j as nat, |t: int| cells[row_start(m) + t]->0),
    decreases j,
{
    if j == 0 {
        assert(piece_cells(line_cells(cells, m, j)) =~= Seq::<Cell>::empty());
    } else {
        lemma_line_cells_pieces(cells, m, j - 1);
        lemma_chunk_pieces(cells, m, j - 1);
        lemma_piece_cells_add(line_cells(cells, m, j - 1), cell_chunk(cells, m, j - 1));
        assert(piece_cells(line_cells(cells, m, j)) =~= Seq::new(
            j as nat,
            |t: int| cells[row_start(m) + t]->0,
        ));
    }
}

/// A line of the board holds the cell values of its four squares.
proof fn lemma_line_pieces(cells: Seq<Option<Cell>>, m: int)
    requires
        0 <= m < 8,
    ensures
        piece_cells(line_text(cells, m)) == Seq::new(4, |t: int| cells[row_start(m) + t]->0),
{
    lemma_digit_char(m + 1);
    lemma_piece_cells_none(line_label(m));
    lemma_line_cells_pieces(cells, m, 4);
    lemma_piece_cells_add(line_label(m), line_cells(cells, m, 4));
    assert(piece_cells(line_text(cells, m)) =~= Seq::new(4, |t: int| cells[row_start(m) + t]->0));
}

/// The values read from the bottom `q` lines of the board, bottom line first.
proof fn lemma_bottom_pieces(cells: Seq<Option<Cell>>, turn: Color, num_ply: nat, q: int)
    requires
        0 <= q <= 8,
    ensures
        pieces_from_bottom(text_lines(cells, turn, num_ply), 1, 1 + q) == Seq::new(
            (4 * q) as nat,
            |k: int| cells[row_start(q - 1 - k / 4) + k % 4]->0,
        ),
    decreases q,
{
    let ls = text_lines(cells, turn, num_ply);
    if q == 0 {
        assert(pieces_from_bottom(ls, 1, 1) =~= Seq::<Cell>::empty());
    } else {
        lemma_bottom_pieces(cells, turn, num_ply, q - 1);
        assert(ls[q] == line_text(cells, q - 1));
        lemma_line_pieces(cells, q - 1);
        let upper = Seq::new((4 * (q - 1)) as nat, |k: int| cells[row_start(q - 2 - k / 4) + k % 4]->0);
        let here = Seq::new(4, |t: int| cells[row_start(q - 1) + t]->0);
        assert forall|k: int| 0 <= k < 4 * q implies #[trigger] (here + upper)[k] == cells[row_start(q - 1 - k / 4) + k % 4]->0 by {
            if k >= 4 {
                assert((k - 4) / 4 == k / 4 - 1);
                assert((k - 4) % 4 == k % 4);
            }
        }
        assert(pieces_from_bottom(ls, 1, 1 + q) =~= Seq::new(
            (4 * q) as nat,
            |k: int| cells[row_start(q - 1 - k / 4) + k % 4]->0,
        ));
    }
}

/// The values placed by `placed`: the `k`-th at the `k`-th playable index,
/// nothing elsewhere.
proof fn lemma_placed_at(s: Seq<Cell>)
    requires
        s.len() <= 32,
    ensures
        placed(s).len() == 46,
        forall|k: int| 0 <= k < s.len() ==> placed(s)[#[trigger] playable_indices()[k]] == Some(s[k]),
        forall|i: int| 0 <= i < 46 && !is_playable(i) ==> #[trigger] placed(s)[i] is None,
    decreases s.len(),
{
    lemma_playable_indices();
    if s.len() > 0 {
        let s2 = s.drop_last();
        lemma_placed_at(s2);
        let n = s.len() - 1;
        assert(playable_indices()[n] < 41);
        assert forall|k: int| 0 <= k < s.len() implies placed(s)[#[trigger] playable_indices()[k]] == Some(s[k]) by {
            if k < n {
                assert(playable_indices()[k] < playable_indices()[n]);
                assert(s2[k] == s[k]);
            }
        }
        assert forall|i: int| 0 <= i < 46 && !is_playable(i) implies #[trigger] placed(s)[i] is None by {
            assert(is_playable(playable_indices()[n]));
        }
    } else {
        assert forall|k: int| 0 <= k < s.len() implies placed(s)[#[trigger] playable_indices()[k]] == Some(s[k]) by {}
    }
}

/// Every playable index below `k` is one of the playable indices below `k`.
proof fn lemma_playable_below_has(k: int, x: int)
    requires
        is_playable(x),
        x < k,
    ensures
        playable_below(k).contains(x),
    decreases k,
{
    if x < k - 1 {
        lemma_playable_below_has(k - 1, x);
        let p = playable_below(k - 1);
        let j = choose|j: int| 0 <= j < p.len() && p[j] == x;
        if is_playable(k - 1) {
            assert(playable_below(k)[j] == x);
        } else {
            assert(playable_below(k)[j] == x);
        }
    } else {
        assert(playable_below(k)[playable_below(k).len() - 1] == x);
    }
}

/// The first index of a character that occurs at `i` and not before.
proof fn lemma_first_index_at(s: Seq<char>, c: char, i: int)
    requires
        0 <= i < s.len(),
        s[i] == c,
        forall|j: int| 0 <= j < i ==> #[trigger] s[j] != c,
    ensures
        first_index(s, c) == Some(i),
    decreases i,
{
    if i > 0 {
        assert(s[0] != c);
        lemma_first_index_at(s.drop_first(), c, i - 1);
    }
}

/// The heading line up to the `(` that precedes the number of plies.
pub open spec fn heading_prefix(turn: Color) -> Seq<char> {
    seq![' ', ' '] + columns_text() + seq![' ', ' ', ' '] + color_name(turn) + seq![' ', ' ', '(']
}

/// The end of the heading line.
pub open spec fn plies_suffix() -> Seq<char> {
    seq![' ', 'p', 'l', 'i', 'e', 's', ')']
}

/// Law: the heading line of a board's text reads back as the player to move
/// and the number of plies.
pub proof fn law_heading_read_back(turn: Color, num_ply: nat)
    requires
        num_ply <= u16::MAX,
    ensures
        heading_of(header_text(turn, num_ply)) == Some((turn, num_ply as int)),
{
    let p = heading_prefix(turn);
    let d = decimal(num_ply);
    let h = header_text(turn, num_ply);
    lemma_decimal(num_ply);
    assert(h =~= p + d + plies_suffix());
    assert(p.len() == 37);
    assert(p[36] == '(');
    assert forall|j: int| 0 <= j < 36 implies #[trigger] h[j] != '(' by {
        assert(h[j] == p[j]);
    }
    lemma_first_index_at(h, '(', 36);
    let rest = h.skip(37);
    assert(rest =~= d + plies_suffix());
    assert forall|j: int| 0 <= j < d.len() implies #[trigger] rest[j] != ' ' by {
        assert(rest[j] == d[j]);
        assert(is_digit(d[j]));
    }
    assert(rest[d.len() as int] == ' ');
    lemma_first_index_at(rest, ' ', d.len() as int);
    assert(rest.take(d.len() as int) =~= d);
    assert(is_digit(d[0]));
    assert(parse_u16(d) == Some(num_ply as int));
    let black = color_name(Color::Black);
    match turn {
        Color::Black => {
            assert(h.subrange(29, 34) =~= black);
            assert(occurs_at(h, black, 29));
        },
        Color::White => {
            assert forall|i: int| !occurs_at(h, black, i) by {
                if occurs_at(h, black, i) {
                    assert(h.subrange(i, i + 5)[0] == black[0]);
                    assert(h.subrange(i, i + 5)[1] == black[1]);
                    assert(h[i] == 'B');
                    assert(h[i + 1] == 'l');
                    if i < 37 {
                        assert(h[i] == p[i]);
                        assert(h[i + 1] == p[i + 1]);
                    } else if i < 37 + d.len() {
                        assert(h[i] == d[i - 37]);
                        assert(is_digit(d[i - 37]));
                    } else {
                        assert(h[i] == plies_suffix()[i - 37 - d.len()]);
                    }
                }
            }
        },
    }
}

/// Reading the text of a complete board gives the board back: its squares,
/// the player to move and the number of plies.
pub proof fn law_text_read_back(cells: Seq<Option<Cell>>, turn: Color, num_ply: nat)
    requires
        complete(cells),
        num_ply <= u16::MAX,
    ensures
        parsed_pieces(board_text(cells, turn, num_ply)).len() == 32,
        placed(parsed_pieces(board_text(cells, turn, num_ply))) == cells,
        parsed_turn(board_text(cells, turn, num_ply)) == turn,
        parsed_num_ply(board_text(cells, turn, num_ply)) == num_ply,
{
    let t = board_text(cells, turn, num_ply);
    let ls = text_lines(cells, turn, num_ply);
    lemma_board_text_join(cells, turn, num_ply);
    lemma_header_plain(turn, num_ply);
    assert forall|i: int| 0 <= i < ls.len() implies plain_line(#[trigger] ls[i]) by {
        if i > 0 {
            lemma_line_plain(cells, i - 1);
        }
    }
    lemma_lines_of_join(ls);
    assert(lines_of(t) == ls);
    law_heading_read_back(turn, num_ply);
    assert(body_start(ls) == 1);
    lemma_bottom_pieces(cells, turn, num_ply, 8);
    let pieces = parsed_pieces(t);
    assert(pieces == pieces_from_bottom(ls, 1, 9));
    assert(pieces =~= Seq::new(32, |k: int| cells[read_square(k)]->0));
    lemma_playable_indices_read();
    lemma_playable_indices();
    lemma_placed_at(pieces);
    assert forall|i: int| 0 <= i < 46 implies #[trigger] placed(pieces)[i] == cells[i] by {
        if is_playable(i) {
            lemma_playable_below_has(41, i);
            let k = choose|k: int| 0 <= k < playable_indices().len() && playable_indices()[k] == i;
            assert(placed(pieces)[playable_indices()[k]] == Some(pieces[k]));
            assert(read_square(k) == i);
            assert(cells[i] is Some);
        }
    }
    assert(placed(pieces) =~= cells);
}

/// Law: the first line of the text of any board is a heading that reads
/// back as the board's player to move and number of plies.
pub proof fn law_text_heading(cells: Seq<Option<Cell>>, turn: Color, num_ply: nat)
    requires
        num_ply <= u16::MAX,
    ensures
        lines_of(board_text(cells, turn, num_ply)).len() == 9,
        lines_of(board_text(cells, turn, num_ply))[0] == header_text(turn, num_ply),
        heading_of(lines_of(board_text(cells, turn, num_ply))[0]) == Some((turn, num_ply as int)),
{
    let ls = text_lines(cells, turn, num_ply);
    lemma_board_text_join(cells, turn, num_ply);
    lemma_header_plain(turn, num_ply);
    assert forall|i: int| 0 <= i < ls.len() implies plain_line(#[trigger] ls[i]) by {
        if i > 0 {
            lemma_line_plain(cells, i - 1);
        }
    }
    lemma_lines_of_join(ls);
    law_heading_read_back(turn, num_ply);
}

/// Law: the text of any board reached from the initial board by legal play
/// reads back as that board: its squares, the player to move and the number
/// of plies.
pub proof fn law_played_board_read_back(steps: Seq<ActionModel>)
    requires
        play_through(initial_state(), steps) is Some,
    ensures
        ({
            let f = play_through(initial_state(), steps)->0;
            &&& complete(f.0)
            &&& 0 <= f.2 <= MAX_PLY
            &&& parsed_pieces(board_text(f.0, f.1, f.2 as nat)).len() == 32
            &&& placed(parsed_pieces(board_text(f.0, f.1, f.2 as nat))) == f.0
            &&& parsed_turn(board_text(f.0, f.1, f.2 as nat)) == f.1
            &&& parsed_num_ply(board_text(f.0, f.1, f.2 as nat)) == f.2
        }),
{
    let f = play_through(initial_state(), steps)->0;
    law_initial_sound();
    law_initial_board();
    law_play_through_sound(initial_state(), steps);
    law_games_end(initial_state(), steps);
    law_text_read_back(f.0, f.1, f.2 as nat);
}

} // verus!
