//! The board as text: one line per row, one symbol and a space per cell.

use vstd::prelude::*;
use vstd::string::StringExecFns;
use crate::game::{Cell, CellContent, CellState, Game, GameState};
use crate::grid::index_of;

verus! {

/// The character of the digit `d`.
pub open spec fn digit_char(d: int) -> char {
    seq!['0', '1', '2', '3', '4', '5', '6', '7', '8', '9'][d]
}

/// `n` written in decimal.
pub open spec fn decimal_text(n: nat) -> Seq<char>
    decreases n,
{
    if n < 10 {
        seq![digit_char(n as int)]
    } else {
        decimal_text(n / 10).push(digit_char((n % 10) as int))
    }
}

/// How a cell shows. While the game is on, a covered cell shows `#` and a
/// flagged one `F`. Otherwise the cell shows what it holds: `*` for a mine,
/// `X` for one that went off, `.` for zero, and any other number in decimal.
pub open spec fn cell_text(cell: Cell, playing: bool) -> Seq<char> {
    if playing && cell.state is Covered {
        seq!['#']
    } else if playing && cell.state is Flagged {
        seq!['F']
    } else {
        match cell.content {
            CellContent::Mine => seq!['*'],
            CellContent::Explosion => seq!['X'],
            CellContent::Number(n) => if n == 0 {
                seq!['.']
            } else {
                decimal_text(n as nat)
            },
        }
    }
}

/// The first `x` cells of row `y`, each followed by a space.
pub open spec fn row_text(cells: Seq<Cell>, width: int, playing: bool, y: int, x: int) -> Seq<
    char,
>
    decreases x,
{
    if x <= 0 {
        Seq::empty()
    } else {
        row_text(cells, width, playing, y, x - 1) + cell_text(
            cells[index_of(width, x - 1, y)],
            playing,
        ) + seq![' ']
    }
}

/// The first `y` rows, each followed by a line feed.
pub open spec fn rows_text(cells: Seq<Cell>, width: int, playing: bool, y: int) -> Seq<char>
    decreases y,
{
    if y <= 0 {
        Seq::empty()
    } else {
        rows_text(cells, width, playing, y - 1) + row_text(cells, width, playing, y - 1, width)
            + seq!['\n']
    }
}

/// The decimal digit `d` as a string.
fn digit_str(d: usize) -> (s: &'static str)
    requires
        d < 10,
    ensures
        s@ == seq![digit_char(d as int)],
{
    proof {
        reveal_strlit("0");
        reveal_strlit("1");
        reveal_strlit("2");
        reveal_strlit("3");
        reveal_strlit("4");
        reveal_strlit("5");
        reveal_strlit("6");
        reveal_strlit("7");
        reveal_strlit("8");
        reveal_strlit("9");
    }
    let s = match d {
        0 => "0",
        1 => "1",
        2 => "2",
        3 => "3",
        4 => "4",
        5 => "5",
        6 => "6",
        7 => "7",
        8 => "8",
        _ => "9",
    };
    proof {
        assert(s@ =~= seq![digit_char(d as int)]);
    }
    s
}

/// Appends `n` in decimal.
pub(crate) fn push_decimal(out: &mut String, n: usize)
    ensures
        final(out)@ == old(out)@ + decimal_text(n as nat),
    decreases n,
{
    if n >= 10 {
        push_decimal(out, n / 10);
    }
    out.append(digit_str(n % 10));
    proof {
        if n >= 10 {
            assert(old(out)@ + decimal_text(n as nat / 10) + seq![digit_char(n as int % 10)]
                =~= old(out)@ + decimal_text(n as nat));
        }
    }
}

/// Appends how the cell shows.
fn push_cell(out: &mut String, cell: Cell, playing: bool)
    ensures
        final(out)@ == old(out)@ + cell_text(cell, playing),
{
    proof {
        reveal_strlit("#");
        reveal_strlit("F");
        reveal_strlit("*");
        reveal_strlit("X");
        reveal_strlit(".");
    }
    let ghost before = out@;
    if playing && cell.state == CellState::Covered {
        out.append("#");
        proof {
            assert("#"@ =~= seq!['#']);
        }
    } else if playing && cell.state == CellState::Flagged {
        out.append("F");
        proof {
            assert("F"@ =~= seq!['F']);
        }
    } else {
        match cell.content {
            CellContent::Mine => {
                out.append("*");
                proof {
                    assert("*"@ =~= seq!['*']);
                }
            },
            CellContent::Explosion => {
                out.append("X");
                proof {
                    assert("X"@ =~= seq!['X']);
                }
            },
            CellContent::Number(n) => {
                if n == 0 {
                    out.append(".");
                    proof {
                        assert("."@ =~= seq!['.']);
                    }
                } else {
                    push_decimal(out, n as usize);
                }
            },
        }
    }
}

impl Game {
    /// The board as text: one line per row, and for each cell its symbol and
    /// a space. While the game is on, covered and flagged cells hide what
    /// they hold.
    pub fn to_string(&self) -> (text: String)
        requires
            self@.shaped(),
        ensures
            text@ == rows_text(self@.cells, self@.width, self@.state is Playing, self@.height),
    {
        let playing = self.state == GameState::Playing;
        let ghost cells = self.board@;
        let ghost w = self.width as int;
        let mut text = String::new();
        let mut y: usize = 0;
        while y < self.height
            invariant
                self@.shaped(),
                cells == self.board@,
                w == self.width,
                playing == (self.state is Playing),
                y <= self.height,
                text@ == rows_text(cells, w, playing, y as int),
            decreases self.height - y,
        {
            let ghost above = text@;
            let mut x: usize = 0;
            proof {
                assert(above + row_text(cells, w, playing, y as int, 0) =~= above);
            }
            while x < self.width
                invariant
                    self@.shaped(),
                    cells == self.board@,
                    w == self.width,
                    y < self.height,
                    x <= self.width,
                    text@ == above + row_text(cells, w, playing, y as int, x as int),
                decreases self.width - x,
            {
                let i = self.index(x, y);
                let ghost left = text@;
                push_cell(&mut text, self.board[i], playing);
                text.append(" ");
                proof {
                    reveal_strlit(" ");
                    assert(" "@ =~= seq![' ']);
                    assert(text@ =~= above + row_text(cells, w, playing, y as int, x + 1));
                }
                x += 1;
            }
            text.append("\n");
            proof {
                reveal_strlit("\n");
                assert("\n"@ =~= seq!['\n']);
                assert(text@ =~= rows_text(cells, w, playing, y + 1));
            }
            y += 1;
        }
        text
    }
}

} // verus!
