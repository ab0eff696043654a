//! The textual form of a minefield: one row per line, `*` for a mine and any
//! other character for a safe cell. Blank lines and the white space around a
//! row do not count.

use vstd::prelude::*;
use crate::FirstClickPolicy;
use std::time::Instant;
use crate::clock::now;
use crate::game::{Cell, CellContent, CellState, Game, GameState, GameView, ParseGameError};
use crate::grid::{
    count_cells, lemma_count_bound, lemma_count_push, lemma_index_div_mod, lemma_numbered,
    live_mine, numbered,
};

verus! {

/// Whether `char::is_whitespace` holds of `c`: whether the character has the
/// Unicode property White_Space.
pub uninterp spec fn char_is_whitespace(c: char) -> bool;

/// Calls `char::is_whitespace`, which depends on the character alone.
#[verifier::external_body]
fn is_whitespace(c: char) -> (b: bool)
    ensures
        b == char_is_whitespace(c),
{
    c.is_whitespace()
}

/// Length of the first line of `s`: the number of characters before the
/// first line feed, or all of them where there is none.
pub open spec fn line_end(s: Seq<char>) -> nat
    decreases s.len(),
{
    if s.len() == 0 || s[0] == '\n' {
        0
    } else {
        1 + line_end(s.drop_first())
    }
}

/// `s` without the white space at its start.
pub open spec fn trim_start(s: Seq<char>) -> Seq<char>
    decreases s.len(),
{
    if s.len() > 0 && char_is_whitespace(s[0]) {
        trim_start(s.drop_first())
    } else {
        s
    }
}

/// `s` without the white space at its end.
pub open spec fn trim_end(s: Seq<char>) -> Seq<char>
    decreases s.len(),
{
    if s.len() > 0 && char_is_whitespace(s.last()) {
        trim_end(s.drop_last())
    } else {
        s
    }
}

/// `s` without the white space at either end.
pub open spec fn trimmed(s: Seq<char>) -> Seq<char> {
    trim_end(trim_start(s))
}

/// The rows of a text: its lines, each without the white space around it,
/// the empty ones left out.
pub open spec fn rows_of(text: Seq<char>) -> Seq<Seq<char>>
    decreases text.len(),
{
    if text.len() == 0 {
        Seq::empty()
    } else {
        let n = line_end(text);
        let row = trimmed(text.take(n as int));
        let rest = if n < text.len() {
            rows_of(text.skip(n as int + 1))
        } else {
            Seq::empty()
        };
        if row.len() > 0 {
            seq![row] + rest
        } else {
            rest
        }
    }
}

/// The cell that a character of the text stands for, before the numbers are
/// filled in.
pub open spec fn cell_of_char(c: char) -> Cell {
    Cell {
        content: if c == '*' {
            CellContent::Mine
        } else {
            CellContent::Number(0)
        },
        state: CellState::Covered,
    }
}

/// The cells that rows of one width stand for, row by row, before the
/// numbers are filled in.
pub open spec fn cells_of_rows(rows: Seq<Seq<char>>, width: int) -> Seq<Cell> {
    Seq::new((rows.len() * width) as nat, |i: int| cell_of_char(rows[i / width][i % width]))
}

/// Row `y` is the first whose length differs from that of the first row.
pub open spec fn first_uneven(rows: Seq<Seq<char>>, y: int) -> bool {
    &&& 0 <= y < rows.len()
    &&& rows[y].len() != rows[0].len()
    &&& forall|j: int| 0 <= j < y ==> (#[trigger] rows[j]).len() == rows[0].len()
}

/// All rows are as long as the first.
pub open spec fn even(rows: Seq<Seq<char>>) -> bool {
    forall|j: int| 0 <= j < rows.len() ==> (#[trigger] rows[j]).len() == rows[0].len()
}

/// No row is empty.
pub proof fn lemma_rows_nonempty(text: Seq<char>)
    ensures
        forall|k: int| 0 <= k < rows_of(text).len() ==> (#[trigger] rows_of(text)[k]).len() > 0,
    decreases text.len(),
{
    if text.len() > 0 {
        let n = line_end(text);
        let row = trimmed(text.take(n as int));
        let rest = if n < text.len() {
            rows_of(text.skip(n as int + 1))
        } else {
            Seq::empty()
        };
        if n < text.len() {
            lemma_rows_nonempty(text.skip(n as int + 1));
        }
        assert forall|k: int| 0 <= k < rows_of(text).len() implies (#[trigger] rows_of(
            text,
        )[k]).len() > 0 by {
            if row.len() > 0 {
                if k > 0 {
                    assert(rows_of(text)[k] == rest[k - 1]);
                }
            } else {
                assert(rows_of(text)[k] == rest[k]);
            }
        }
    }
}

/// A line ends where the first line feed stands.
pub proof fn lemma_line_end(s: Seq<char>, n: int)
    requires
        0 <= n <= s.len(),
        forall|k: int| 0 <= k < n ==> s[k] != '\n',
        n == s.len() || s[n] == '\n',
    ensures
        line_end(s) == n,
    decreases n,
{
    if n > 0 {
        lemma_line_end(s.drop_first(), n - 1);
    }
}

/// Trimming the start drops exactly the leading run of white space.
pub proof fn lemma_trim_start(s: Seq<char>, n: int)
    requires
        0 <= n <= s.len(),
        forall|k: int| 0 <= k < n ==> char_is_whitespace(s[k]),
        n == s.len() || !char_is_whitespace(s[n]),
    ensures
        trim_start(s) == s.skip(n),
    decreases n,
{
    if n > 0 {
        lemma_trim_start(s.drop_first(), n - 1);
        assert(s.drop_first().skip(n - 1) =~= s.skip(n));
    } else {
        assert(s.skip(0) =~= s);
    }
}

/// Trimming the end drops exactly the trailing run of white space.
pub proof fn lemma_trim_end(s: Seq<char>, m: int)
    requires
        0 <= m <= s.len(),
        forall|k: int| m <= k < s.len() ==> char_is_whitespace(s[k]),
        m == 0 || !char_is_whitespace(s[m - 1]),
    ensures
        trim_end(s) == s.take(m),
    decreases s.len() - m,
{
    if m < s.len() {
        lemma_trim_end(s.drop_last(), m);
        assert(s.drop_last().take(m) =~= s.take(m));
    } else {
        assert(s.take(m) =~= s);
    }
}

/// The characters of a string, one by one.
fn chars_of(text: &str) -> (chars: Vec<char>)
    ensures
        chars@ == text@,
{
    let mut chars: Vec<char> = Vec::new();
    for c in it: text.chars()
        invariant
            chars@ == it.seq().take(it.index() as int),
            it.seq() == text@,
    {
        chars.push(c);
    }
    chars
}

/// The rows that the spans cut out of the text.
pub open spec fn span_rows(chars: Seq<char>, spans: Seq<(usize, usize)>) -> Seq<Seq<char>> {
    Seq::new(spans.len(), |k: int| chars.subrange(spans[k].0 as int, spans[k].1 as int))
}

/// Where the rows of a text stand in it: for each, the index of its first
/// character and the index after its last.
fn row_spans(chars: &Vec<char>) -> (spans: Vec<(usize, usize)>)
    ensures
        span_rows(chars@, spans@) == rows_of(chars@),
        forall|k: int|
            0 <= k < spans@.len() ==> (#[trigger] spans@[k]).0 < spans@[k].1 <= chars@.len(),
{
    let mut spans: Vec<(usize, usize)> = Vec::new();
    let len = chars.len();
    let mut pos: usize = 0;
    proof {
        assert(chars@.skip(0) =~= chars@);
        assert(span_rows(chars@, spans@) + rows_of(chars@.skip(0)) =~= rows_of(chars@));
    }
    while pos < len
        invariant
            len == chars@.len(),
            pos <= len,
            span_rows(chars@, spans@) + rows_of(chars@.skip(pos as int)) == rows_of(chars@),
            forall|k: int|
                0 <= k < spans@.len() ==> (#[trigger] spans@[k]).0 < spans@[k].1 <= chars@.len(),
        decreases len - pos,
    {
        let ghost rest = chars@.skip(pos as int);
        let mut end = pos;
        while end < len && chars[end] != '\n'
            invariant
                len == chars@.len(),
                pos <= end <= len,
                forall|k: int| pos <= k < end ==> chars@[k] != '\n',
            decreases len - end,
        {
            end += 1;
        }
        let mut a = pos;
        while a < end && is_whitespace(chars[a])
            invariant
                len == chars@.len(),
                pos <= a <= end <= len,
                forall|k: int| pos <= k < a ==> char_is_whitespace(chars@[k]),
            decreases end - a,
        {
            a += 1;
        }
        let mut b = end;
        while b > a && is_whitespace(chars[b - 1])
            invariant
                len == chars@.len(),
                a <= b <= end <= len,
                forall|k: int| b <= k < end ==> char_is_whitespace(chars@[k]),
            decreases b,
        {
            b -= 1;
        }
        let ghost before = spans@;
        proof {
            let line = rest.take(end - pos);
            lemma_line_end(rest, end - pos);
            lemma_trim_start(line, a - pos);
            lemma_trim_end(line.skip(a - pos), b - a);
            assert(line.skip(a - pos).take(b - a) =~= chars@.subrange(a as int, b as int));
            if end < len {
                assert(rest.skip((end - pos) + 1) =~= chars@.skip(end + 1));
            }
        }
        if a < b {
            spans.push((a, b));
            proof {
                assert(span_rows(chars@, spans@) =~= span_rows(chars@, before) + seq![
                    chars@.subrange(a as int, b as int),
                ]);
            }
        }
        if end < len {
            pos = end + 1;
        } else {
            pos = len;
            proof {
                assert(rows_of(chars@.skip(len as int)) =~= Seq::<Seq<char>>::empty());
            }
        }
        proof {
            assert(span_rows(chars@, spans@) + rows_of(chars@.skip(pos as int)) =~= span_rows(
                chars@,
                before,
            ) + rows_of(rest));
        }
    }
    proof {
        assert(rows_of(chars@.skip(pos as int)) =~= Seq::<Seq<char>>::empty());
        assert(span_rows(chars@, spans@) + Seq::<Seq<char>>::empty() =~= span_rows(
            chars@,
            spans@,
        ));
    }
    spans
}

/// The rows as sequences of characters.
pub open spec fn row_seqs(rows: Seq<Vec<char>>) -> Seq<Seq<char>> {
    Seq::new(rows.len(), |k: int| rows[k]@)
}

/// The game that rows of one width stand for, with its timer running from
/// `started`: all cells covered, a mine for each `*`, the numbers filled in.
pub open spec fn game_of_rows(rows: Seq<Seq<char>>, started: Instant) -> GameView {
    let width = rows[0].len() as int;
    let height = rows.len() as int;
    let raw = cells_of_rows(rows, width);
    GameView {
        cells: numbered(raw, width, height),
        width,
        height,
        num_mines: count_cells(raw, live_mine()) as int,
        state: GameState::Playing,
        unplaced: false,
        first_click_policy: FirstClickPolicy::Unprotected,
        start_time: Some(started),
        final_time: None,
    }
}

/// `r` is what reading the rows gives. There must be a row, or the input is
/// empty; the rows must be as long as the first, or the first that is not is
/// reported with both lengths; and then the rows give their game.
pub open spec fn reads_as(
    rows: Seq<Seq<char>>,
    started: Instant,
    r: Result<Game, ParseGameError>,
) -> bool {
    match r {
        Ok(game) => rows.len() > 0 && even(rows) && game@ == game_of_rows(rows, started),
        Err(ParseGameError::EmptyInput) => rows.len() == 0,
        Err(ParseGameError::InconsistentRowLength { expected, actual, row_index }) => {
            &&& first_uneven(rows, row_index as int)
            &&& expected == rows[0].len()
            &&& actual == rows[row_index as int].len()
        },
    }
}

impl Game {
    /// Makes a game of the rows of a minefield, `*` for a mine and any other
    /// character for a safe cell. All cells start covered, the numbers are
    /// filled in, and the timer runs from `started`.
    ///
    /// Fails with `EmptyInput` where there is no row, and with
    /// `InconsistentRowLength` at the first row that is not as long as the
    /// first.
    pub fn from_rows(rows: &Vec<Vec<char>>, started: Instant) -> (r: Result<Game, ParseGameError>)
        ensures
            reads_as(row_seqs(rows@), started, r),
            r matches Ok(game) ==> game@.wf(),
    {
        if rows.len() == 0 {
            return Err(ParseGameError::EmptyInput);
        }
        let ghost lines = row_seqs(rows@);
        let height = rows.len();
        let width = rows[0].len();
        let ghost w = width as int;
        let mut num_mines: usize = 0;
        let mut board: Vec<Cell> = Vec::new();
        let mut y: usize = 0;
        while y < height
            invariant
                y <= height,
                height == rows@.len(),
                lines == row_seqs(rows@),
                w == width,
                w == lines[0].len(),
                forall|j: int| 0 <= j < y ==> (#[trigger] lines[j]).len() == w,
                board@.len() == y * w,
                forall|i: int|
                    0 <= i < board@.len() ==> (#[trigger] board@[i]) == cell_of_char(
                        lines[i / w][i % w],
                    ),
                num_mines == count_cells(board@, live_mine()),
            decreases height - y,
        {
            let row = &rows[y];
            let current_width = row.len();
            proof {
                assert(lines[y as int] == row@);
            }
            if current_width != width {
                return Err(
                    ParseGameError::InconsistentRowLength {
                        expected: width,
                        actual: current_width,
                        row_index: y,
                    },
                );
            }
            let mut x: usize = 0;
            while x < width
                invariant
                    x <= width,
                    row@.len() == w,
                    w == width,
                    y < height,
                    height == lines.len(),
                    lines[y as int] == row@,
                    board@.len() == y * w + x,
                    forall|i: int|
                        0 <= i < board@.len() ==> (#[trigger] board@[i]) == cell_of_char(
                            lines[i / w][i % w],
                        ),
                    num_mines == count_cells(board@, live_mine()),
                decreases width - x,
            {
                let c = row[x];
                let cell = Cell {
                    content: if c == '*' {
                        CellContent::Mine
                    } else {
                        CellContent::Number(0)
                    },
                    state: CellState::Covered,
                };
                proof {
                    lemma_count_push(board@, cell, live_mine());
                    lemma_count_bound(board@.push(cell), live_mine());
                    lemma_index_div_mod(w, y + 1, x as int, y as int);
                }
                board.push(cell);
                proof {
                    assert(board@.len() == board.len());
                }
                if c == '*' {
                    num_mines += 1;
                }
                x += 1;
            }
            proof {
                assert((y + 1) * w == y * w + w) by (nonlinear_arith);
            }
            y += 1;
        }
        proof {
            assert(height * w == w * height) by (nonlinear_arith);
            assert(board@ =~= cells_of_rows(lines, w));
            lemma_numbered(board@, w, height as int);
        }
        let mut game = Game {
            board,
            width,
            height,
            num_mines,
            state: GameState::Playing,
            first_click: false,
            first_click_policy: FirstClickPolicy::Unprotected,
            start_time: Some(started),
            final_time: None,
        };
        game.calculate_numbers();
        Ok(game)
    }

    /// Reads a minefield from text: one row per line, `*` for a mine and any
    /// other character for a safe cell. The white space around a row and
    /// blank lines do not count. The rows are read as `from_rows` reads
    /// them, with the timer running from now.
    pub fn from_text(text: &str) -> (r: Result<Game, ParseGameError>)
        ensures
            exists|started: Instant| reads_as(rows_of(text@), started, r),
            r matches Ok(game) ==> game@.wf() && game@.width > 0,
    {
        let chars = chars_of(text);
        let spans = row_spans(&chars);
        let mut rows: Vec<Vec<char>> = Vec::new();
        let mut k: usize = 0;
        while k < spans.len()
            invariant
                k <= spans@.len(),
                forall|j: int|
                    0 <= j < spans@.len() ==> (#[trigger] spans@[j]).0 < spans@[j].1
                        <= chars@.len(),
                rows@.len() == k,
                row_seqs(rows@) == span_rows(chars@, spans@).take(k as int),
            decreases spans@.len() - k,
        {
            let (a, b) = spans[k];
            let mut row: Vec<char> = Vec::new();
            let mut x: usize = a;
            while x < b
                invariant
                    a <= x <= b <= chars@.len(),
                    row@ == chars@.subrange(a as int, x as int),
                decreases b - x,
            {
                row.push(chars[x]);
                proof {
                    assert(row@ =~= chars@.subrange(a as int, x + 1));
                }
                x += 1;
            }
            let ghost earlier = rows@;
            let ghost line = row@;
            rows.push(row);
            proof {
                let cut = span_rows(chars@, spans@);
                assert forall|j: int| 0 <= j < k + 1 implies row_seqs(rows@)[j] == cut.take(
                    k + 1,
                )[j] by {
                    if j < k {
                        assert(rows@[j] == earlier[j]);
                        assert(row_seqs(earlier)[j] == cut.take(k as int)[j]);
                    } else {
                        assert(rows@[j]@ == line);
                    }
                }
                assert(row_seqs(rows@) =~= cut.take(k + 1));
            }
            k += 1;
        }
        proof {
            assert(span_rows(chars@, spans@).take(k as int) =~= span_rows(chars@, spans@));
            lemma_rows_nonempty(text@);
        }
        let started = now();
        let r = Game::from_rows(&rows, started);
        proof {
            assert(reads_as(rows_of(text@), started, r));
        }
        r
    }
}

} // verus!
