//! The mathematical model of a textual grid: how a character sequence is
//! split into lines, and which positions of the resulting grid are live.

use vstd::prelude::*;

verus! {

/// A character marks a live cell unless it is one of the two dead markers,
/// `.` and space.
pub open spec fn is_live_char(c: char) -> bool {
    c != '.' && c != ' '
}

/// Index of the first newline in `s`, or `s.len()` if `s` holds none.
pub open spec fn first_nl(s: Seq<char>) -> nat
    decreases s.len(),
{
    if s.len() == 0 {
        0
    } else if s[0] == '\n' {
        0
    } else {
        1 + first_nl(s.drop_first())
    }
}

/// `first_nl` points at a newline when there is one, and nothing before it
/// is a newline.
pub proof fn lemma_first_nl(s: Seq<char>)
    ensures
        first_nl(s) <= s.len(),
        first_nl(s) < s.len() ==> s[first_nl(s) as int] == '\n',
        forall|j: int| 0 <= j < first_nl(s) ==> s[j] != '\n',
    decreases s.len(),
{
    if s.len() == 0 {
    } else if s[0] == '\n' {
    } else {
        lemma_first_nl(s.drop_first());
        assert forall|j: int| 0 <= j < first_nl(s) implies s[j] != '\n' by {
            if j > 0 {
                assert(s.drop_first()[j - 1] == s[j]);
            }
        }
    }
}

/// A line loses one trailing carriage return: the terminator of a
/// `"\r\n"`-delimited row is not part of the row.
pub open spec fn strip_cr(line: Seq<char>) -> Seq<char> {
    if line.len() > 0 && line.last() == '\r' {
        line.drop_last()
    } else {
        line
    }
}

/// The lines of `text`: segments delimited by `'\n'`, each stripped of one
/// trailing `'\r'`, with no empty segment after a final terminator. An
/// empty text has no lines; a text without a newline is one line, kept
/// whole.
pub open spec fn line_split(text: Seq<char>) -> Seq<Seq<char>>
    decreases text.len(),
{
    if text.len() == 0 {
        Seq::empty()
    } else if first_nl(text) >= text.len() {
        seq![text]
    } else {
        seq![strip_cr(text.take(first_nl(text) as int))] + line_split(
            text.skip(first_nl(text) as int + 1),
        )
    }
}

/// Prepending a newline-free prefix leaves the first newline right after
/// that prefix.
pub proof fn lemma_first_nl_concat(pre: Seq<char>, rest: Seq<char>)
    requires
        forall|j: int| 0 <= j < pre.len() ==> pre[j] != '\n',
    ensures
        first_nl(pre + seq!['\n'] + rest) == pre.len(),
    decreases pre.len(),
{
    let t = pre + seq!['\n'] + rest;
    if pre.len() == 0 {
        assert(t[0] == '\n');
    } else {
        assert(t[0] == pre[0]);
        lemma_first_nl_concat(pre.drop_first(), rest);
        assert(t.drop_first() =~= pre.drop_first() + seq!['\n'] + rest);
    }
}

/// Splitting a text that begins with a newline-free line and its terminator
/// yields that line (with a trailing carriage return stripped) followed by
/// the split of the remainder.
pub proof fn lemma_line_split_step(pre: Seq<char>, rest: Seq<char>)
    requires
        forall|j: int| 0 <= j < pre.len() ==> pre[j] != '\n',
    ensures
        line_split(pre + seq!['\n'] + rest) == seq![strip_cr(pre)] + line_split(rest),
{
    let t = pre + seq!['\n'] + rest;
    lemma_first_nl_concat(pre, rest);
    assert(t.len() > 0);
    assert(first_nl(t) < t.len());
    assert(t.take(pre.len() as int) =~= pre);
    assert(t.skip(pre.len() as int + 1) =~= rest);
}

/// A nonempty text without a newline is a single line, kept whole.
pub proof fn lemma_line_split_single(text: Seq<char>)
    requires
        text.len() > 0,
        forall|j: int| 0 <= j < text.len() ==> text[j] != '\n',
    ensures
        line_split(text) == seq![text],
{
    lemma_first_nl(text);
    if first_nl(text) < text.len() {
        assert(text[first_nl(text) as int] == '\n');
    }
}

/// The length of the longest line, 0 if there are no lines.
pub open spec fn max_line_len(lines: Seq<Seq<char>>) -> nat
    decreases lines.len(),
{
    if lines.len() == 0 {
        0
    } else if lines.last().len() > max_line_len(lines.drop_last()) {
        lines.last().len()
    } else {
        max_line_len(lines.drop_last())
    }
}

/// The set of coordinates whose source character is present and live.
/// A position beyond a short line's length belongs to no line character and
/// is therefore dead.
pub open spec fn live_cells(lines: Seq<Seq<char>>) -> Set<(nat, nat)> {
    Set::new(
        |cell: (nat, nat)|
            cell.0 < lines.len() && cell.1 < lines[cell.0 as int].len() && is_live_char(
                lines[cell.0 as int][cell.1 as int],
            ),
    )
}

/// The live coordinates among the cells visited by a row-major walk that
/// has finished every row before `row` and, within `row`, every column
/// before `col`.
pub open spec fn live_upto(lines: Seq<Seq<char>>, row: nat, col: nat) -> Set<(nat, nat)> {
    Set::new(
        |cell: (nat, nat)|
            (cell.0 < row || (cell.0 == row && cell.1 < col)) && cell.0 < lines.len() && cell.1
                < lines[cell.0 as int].len() && is_live_char(lines[cell.0 as int][cell.1 as int]),
    )
}

/// Before any cell is visited, nothing is live.
pub proof fn lemma_live_upto_start(lines: Seq<Seq<char>>)
    ensures
        live_upto(lines, 0, 0) == Set::<(nat, nat)>::empty(),
{
    assert(live_upto(lines, 0, 0) =~= Set::<(nat, nat)>::empty());
}

/// Visiting a dead character changes nothing: the cell was not live before
/// and is not live after.
pub proof fn lemma_live_upto_dead(lines: Seq<Seq<char>>, row: nat, col: nat)
    requires
        row < lines.len(),
        col < lines[row as int].len(),
        !is_live_char(lines[row as int][col as int]),
    ensures
        live_upto(lines, row, col).remove((row, col)) == live_upto(lines, row, col + 1),
{
    assert(live_upto(lines, row, col).remove((row, col)) =~= live_upto(lines, row, col + 1));
}

/// Visiting a live character adds exactly that cell.
pub proof fn lemma_live_upto_live(lines: Seq<Seq<char>>, row: nat, col: nat)
    requires
        row < lines.len(),
        col < lines[row as int].len(),
        is_live_char(lines[row as int][col as int]),
    ensures
        live_upto(lines, row, col).insert((row, col)) == live_upto(lines, row, col + 1),
{
    assert(live_upto(lines, row, col).insert((row, col)) =~= live_upto(lines, row, col + 1));
}

/// Finishing a row is the same as standing at the start of the next one.
pub proof fn lemma_live_upto_row(lines: Seq<Seq<char>>, row: nat)
    requires
        row < lines.len(),
    ensures
        live_upto(lines, row, lines[row as int].len()) == live_upto(lines, row + 1, 0),
{
    assert(live_upto(lines, row, lines[row as int].len()) =~= live_upto(lines, row + 1, 0));
}

/// After the last row the walk has seen every cell.
pub proof fn lemma_live_upto_done(lines: Seq<Seq<char>>)
    ensures
        live_upto(lines, lines.len(), 0) == live_cells(lines),
{
    assert(live_upto(lines, lines.len(), 0) =~= live_cells(lines));
}

/// Row count of the grid described by `text`.
pub open spec fn grid_rows(text: Seq<char>) -> nat {
    line_split(text).len()
}

/// Column count of the grid described by `text`.
pub open spec fn grid_cols(text: Seq<char>) -> nat {
    max_line_len(line_split(text))
}

/// The live coordinates of the grid described by `text`.
pub open spec fn grid_live(text: Seq<char>) -> Set<(nat, nat)> {
    live_cells(line_split(text))
}

/// Every character of every line comes from the text itself: splitting
/// invents no characters.
pub proof fn lemma_line_split_chars(text: Seq<char>)
    ensures
        forall|r: int, c: int|
            0 <= r < line_split(text).len() && 0 <= c < line_split(text)[r].len()
                ==> exists|k: int|
                0 <= k < text.len() && #[trigger] line_split(text)[r][c] == text[k],
    decreases text.len(),
{
    let lines = line_split(text);
    if text.len() == 0 {
    } else if first_nl(text) >= text.len() {
        assert forall|r: int, c: int|
            0 <= r < lines.len() && 0 <= c < lines[r].len() implies exists|k: int|
            0 <= k < text.len() && #[trigger] lines[r][c] == text[k] by {
            assert(lines[r][c] == text[c]);
        }
    } else {
        let i = first_nl(text) as int;
        let rest = text.skip(i + 1);
        lemma_line_split_chars(rest);
        assert forall|r: int, c: int|
            0 <= r < lines.len() && 0 <= c < lines[r].len() implies exists|k: int|
            0 <= k < text.len() && #[trigger] lines[r][c] == text[k] by {
            if r == 0 {
                assert(lines[0] == strip_cr(text.take(i)));
                assert(lines[0][c] == text.take(i)[c]);
                assert(lines[0][c] == text[c]);
            } else {
                assert(lines[r] == line_split(rest)[r - 1]);
                assert(0 <= r - 1 < line_split(rest).len() && 0 <= c < line_split(rest)[r
                    - 1].len());
                let k = choose|k: int|
                    0 <= k < rest.len() && #[trigger] line_split(rest)[r - 1][c] == rest[k];
                assert(lines[r][c] == text[i + 1 + k]);
            }
        }
    }
}

/// A text made of `.` and space characters alone describes a grid with no
/// live cells: such a state equals the empty one of its dimensions.
pub proof fn lemma_blank_text_has_no_live_cells(text: Seq<char>)
    requires
        forall|k: int| 0 <= k < text.len() ==> text[k] == '.' || text[k] == ' ',
    ensures
        grid_live(text) == Set::<(nat, nat)>::empty(),
{
    lemma_line_split_chars(text);
    let lines = line_split(text);
    assert forall|cell: (nat, nat)| !grid_live(text).contains(cell) by {
        if grid_live(text).contains(cell) {
            let r = cell.0 as int;
            let c = cell.1 as int;
            assert(is_live_char(lines[r][c]));
            let k = choose|k: int| 0 <= k < text.len() && #[trigger] lines[r][c] == text[k];
            assert(text[k] == '.' || text[k] == ' ');
        }
    }
    assert(grid_live(text) =~= Set::<(nat, nat)>::empty());
}

/// The empty text describes the empty grid: no rows, no columns, no live
/// cells.
pub proof fn lemma_empty_text(text: Seq<char>)
    requires
        text.len() == 0,
    ensures
        grid_rows(text) == 0,
        grid_cols(text) == 0,
        grid_live(text) == Set::<(nat, nat)>::empty(),
{
    assert(grid_live(text) =~= Set::<(nat, nat)>::empty());
}

/// A cell is live exactly when its source character is present and live;
/// every other position, the padding beyond a short line included, is
/// dead.
pub proof fn lemma_live_cell_characterization(text: Seq<char>, row: nat, col: nat)
    ensures
        grid_live(text).contains((row, col)) <==> (row < grid_rows(text) && col < line_split(
            text,
        )[row as int].len() && is_live_char(line_split(text)[row as int][col as int])),
{
}

} // verus!
