use vstd::prelude::*;

use crate::board::{on_grid, Board, Cell, Piece, COLS, ROWS};

verus! {

/// How a cell is drawn: blank, `X` for the first player, `O` for the second.
pub open spec fn cell_char(c: Cell) -> char {
    match c {
        Cell::Empty => ' ',
        Cell::Piece(Piece::Player1) => 'X',
        Cell::Piece(Piece::Player2) => 'O',
    }
}

/// The label of column `col` (counted from 0): its number counted from 1.
pub open spec fn label_char(col: int) -> char {
    if col == 0 {
        '1'
    } else if col == 1 {
        '2'
    } else if col == 2 {
        '3'
    } else if col == 3 {
        '4'
    } else if col == 4 {
        '5'
    } else if col == 5 {
        '6'
    } else {
        '7'
    }
}

/// The first `n` entries of a line, each followed by a space but the last
/// one of the line.
pub open spec fn spaced(f: spec_fn(int) -> char, n: int) -> Seq<char>
    decreases n,
{
    if n <= 0 {
        Seq::empty()
    } else {
        spaced(f, n - 1) + seq![f(n - 1)] + (if n - 1 < COLS - 1 {
            seq![' ']
        } else {
            Seq::empty()
        })
    }
}

/// The line that draws row `r`.
pub open spec fn row_line(b: Board, r: int) -> Seq<char> {
    seq!['|'] + spaced(|c: int| cell_char(b.cell_at(r, c)), COLS as int) + seq!['|', '\n']
}

/// The lines of the top `k` rows, from the top row down.
pub open spec fn top_rows(b: Board, k: int) -> Seq<char>
    decreases k,
{
    if k <= 0 {
        Seq::empty()
    } else {
        top_rows(b, k - 1) + row_line(b, ROWS - k)
    }
}

/// The bottom border and the column labels.
pub open spec fn footer() -> Seq<char> {
    seq!['+'] + Seq::new(13, |i: int| '-') + seq!['+', '\n', ' '] + spaced(
        |c: int| label_char(c),
        COLS as int,
    ) + seq!['\n']
}

/// The whole drawing of `b`: its rows from the top down, then the footer.
pub open spec fn rendering(b: Board) -> Seq<char> {
    top_rows(b, ROWS as int) + footer()
}

/// Width of one drawn line of the grid, its newline included.
pub open spec fn line_width() -> int {
    2 * COLS + 2
}

/// Where the symbol of cell `(r, c)` stands in the drawing: rows are drawn
/// from the top, each on a line of its own after the left border, and the
/// cells of a line are one space apart.
pub open spec fn cell_position(r: int, c: int) -> int {
    (ROWS - 1 - r) * line_width() + 1 + 2 * c
}

/// `ch` is the symbol of a cell holding `content`: a blank for an empty
/// cell, `X` for the first player's piece, `O` for the second player's.
pub open spec fn shows(ch: char, content: Cell) -> bool {
    &&& content == Cell::Empty ==> ch == ' '
    &&& content == Cell::Piece(Piece::Player1) ==> ch == 'X'
    &&& content == Cell::Piece(Piece::Player2) ==> ch == 'O'
}

proof fn lemma_spaced(f: spec_fn(int) -> char, n: int)
    requires
        0 <= n <= COLS,
    ensures
        spaced(f, n).len() == (if n == COLS {
            2 * n - 1
        } else {
            2 * n
        }),
        forall|k: int| 0 <= k < n ==> #[trigger] spaced(f, n)[2 * k] == f(k),
    decreases n,
{
    if n > 0 {
        lemma_spaced(f, n - 1);
        let prev = spaced(f, n - 1);
        assert forall|k: int| 0 <= k < n implies #[trigger] spaced(f, n)[2 * k] == f(k) by {
            if k < n - 1 {
                assert(spaced(f, n)[2 * k] == prev[2 * k]);
            }
        }
    }
}

proof fn lemma_top_rows(b: Board, k: int)
    requires
        0 <= k <= ROWS,
    ensures
        top_rows(b, k).len() == k * line_width(),
        forall|j: int, i: int|
            0 <= j < k && 0 <= i < line_width() ==> #[trigger] top_rows(b, k)[j * line_width() + i]
                == row_line(b, ROWS - 1 - j)[i],
    decreases k,
{
    let f = |c: int| cell_char(b.cell_at(ROWS - k, c));
    lemma_spaced(f, COLS as int);
    if k > 0 {
        lemma_top_rows(b, k - 1);
        assert(row_line(b, ROWS - k).len() == line_width());
        assert forall|j: int, i: int|
            0 <= j < k && 0 <= i < line_width() implies #[trigger] top_rows(b, k)[j * line_width() + i]
                == row_line(b, ROWS - 1 - j)[i] by {
            if j < k - 1 {
                assert(top_rows(b, k)[j * line_width() + i] == top_rows(b, k - 1)[j * line_width() + i]);
            } else {
                assert(top_rows(b, k)[j * line_width() + i] == row_line(b, ROWS - k)[i]);
            }
        }
    }
}

/// Every cell is drawn as what it holds, wherever the other pieces are: the
/// symbol at `cell_position(r, c)` shows the content of cell `(r, c)`.
pub proof fn lemma_rendering_shows_cells(b: Board)
    ensures
        rendering(b).len() == (ROWS + 2) * line_width() - 1,
        forall|r: int, c: int|
            on_grid(r, c) ==> shows(#[trigger] rendering(b)[cell_position(r, c)], b.cell_at(r, c)),
{
    lemma_top_rows(b, ROWS as int);
    lemma_spaced(|c: int| label_char(c), COLS as int);
    assert forall|r: int, c: int| on_grid(r, c) implies shows(
        #[trigger] rendering(b)[cell_position(r, c)],
        b.cell_at(r, c),
    ) by {
        let j = ROWS - 1 - r;
        let f = |k: int| cell_char(b.cell_at(r, k));
        lemma_spaced(f, COLS as int);
        assert(rendering(b)[cell_position(r, c)] == top_rows(b, ROWS as int)[j * line_width() + (1 + 2
            * c)]);
        assert(row_line(b, r)[1 + 2 * c] == spaced(f, COLS as int)[2 * c]);
    }
}

fn cell_symbol(c: Cell) -> (text: &'static str)
    ensures
        text@ == seq![cell_char(c)],
{
    match c {
        Cell::Empty => {
            proof {
                reveal_strlit(" ");
            }
            " "
        },
        Cell::Piece(Piece::Player1) => {
            proof {
                reveal_strlit("X");
            }
            "X"
        },
        Cell::Piece(Piece::Player2) => {
            proof {
                reveal_strlit("O");
            }
            "O"
        },
    }
}

fn column_label(col: usize) -> (text: &'static str)
    ensures
        text@ == seq![label_char(col as int)],
{
    if col == 0 {
        proof {
            reveal_strlit("1");
        }
        "1"
    } else if col == 1 {
        proof {
            reveal_strlit("2");
        }
        "2"
    } else if col == 2 {
        proof {
            reveal_strlit("3");
        }
        "3"
    } else if col == 3 {
        proof {
            reveal_strlit("4");
        }
        "4"
    } else if col == 4 {
        proof {
            reveal_strlit("5");
        }
        "5"
    } else if col == 5 {
        proof {
            reveal_strlit("6");
        }
        "6"
    } else {
        proof {
            reveal_strlit("7");
        }
        "7"
    }
}

impl Board {
    /// Draws the grid, top row first, with `X` and `O` for the players'
    /// pieces, a border and the column numbers.
    pub fn render(&self) -> (text: String)
        ensures
            text@ == rendering(*self),
            text@.len() == (ROWS + 2) * line_width() - 1,
            forall|r: int, c: int|
                on_grid(r, c) ==> shows(#[trigger] text@[cell_position(r, c)], self.cell_at(r, c)),
    {
        proof {
            lemma_rendering_shows_cells(*self);
        }
        let mut out = String::new();
        let mut k: usize = 0;
        while k < ROWS
            invariant
                k <= ROWS,
                out@ == top_rows(*self, k as int),
            decreases ROWS - k,
        {
            proof {
                reveal_strlit("|");
                reveal_strlit(" ");
                reveal_strlit("\n");
                reveal_strlit("-");
            }
            let row = ROWS - 1 - k;
            let ghost before = out@;
            out.append("|");
            let mut col: usize = 0;
            while col < COLS
                invariant
                    col <= COLS,
                    row < ROWS,
                    out@ == before + seq!['|'] + spaced(
                        |c: int| cell_char(self.cell_at(row as int, c)),
                        col as int,
                    ),
                decreases COLS - col,
            {
                proof {
                    reveal_strlit(" ");
                }
                out.append(cell_symbol(self.cell(row, col)));
                if col < COLS - 1 {
                    out.append(" ");
                }
                col += 1;
            }
            proof {
                reveal_strlit("|");
                reveal_strlit("\n");
            }
            out.append("|");
            out.append("\n");
            assert(out@ =~= top_rows(*self, k + 1));
            k += 1;
        }
        let ghost rows = out@;
        proof {
            reveal_strlit("+");
        }
        out.append("+");
        let mut i: usize = 0;
        while i < 2 * COLS - 1
            invariant
                i <= 2 * COLS - 1,
                out@ == rows + seq!['+'] + Seq::new(i as nat, |j: int| '-'),
            decreases 2 * COLS - 1 - i,
        {
            proof {
                reveal_strlit("|");
                reveal_strlit(" ");
                reveal_strlit("\n");
                reveal_strlit("-");
            }
            out.append("-");
            i += 1;
            assert(out@ =~= rows + seq!['+'] + Seq::new(i as nat, |j: int| '-'));
        }
        proof {
            reveal_strlit("+");
            reveal_strlit("\n");
            reveal_strlit(" ");
        }
        out.append("+");
        out.append("\n");
        out.append(" ");
        let ghost head = out@;
        let mut col: usize = 0;
        while col < COLS
            invariant
                col <= COLS,
                out@ == head + spaced(|c: int| label_char(c), col as int),
            decreases COLS - col,
        {
            proof {
                reveal_strlit("|");
                reveal_strlit(" ");
                reveal_strlit("\n");
                reveal_strlit("-");
            }
            out.append(column_label(col));
            if col < COLS - 1 {
                out.append(" ");
            }
            col += 1;
        }
        proof {
            reveal_strlit("\n");
        }
        out.append("\n");
        assert(out@ =~= rendering(*self));
        out
    }
}

} // verus!
