use vstd::prelude::*;

verus! {

/// Number of rows of the grid (row 0 is the bottom row).
pub const ROWS: usize = 6;

/// Number of columns of the grid.
pub const COLS: usize = 7;

/// Number of cells of the grid.
pub const CELLS: usize = ROWS * COLS;

/// The two players.
#[derive(Copy, Clone, Debug, PartialEq, Eq, Structural)]
pub enum Piece {
    Player1,
    Player2,
}

impl Piece {
    /// The other player.
    pub open spec fn other(self) -> Piece {
        match self {
            Piece::Player1 => Piece::Player2,
            Piece::Player2 => Piece::Player1,
        }
    }

    pub fn opponent(self) -> (res: Self)
        ensures
            res == self.other(),
            res != self,
            res.other() == self,
    {
        match self {
            Piece::Player1 => Piece::Player2,
            Piece::Player2 => Piece::Player1,
        }
    }
}

/// One cell of the grid.
#[derive(Copy, Clone, Debug, PartialEq, Eq, Structural)]
pub enum Cell {
    Empty,
    Piece(Piece),
}

/// Sum of the first `n` column heights.
pub open spec fn sum_heights(h: Seq<usize>, n: int) -> int
    decreases n,
{
    if n <= 0 || n > h.len() {
        0
    } else {
        sum_heights(h, n - 1) + h[n - 1] as int
    }
}

/// Whether `(r, c)` lies on the grid.
pub open spec fn on_grid(r: int, c: int) -> bool {
    0 <= r < ROWS && 0 <= c < COLS
}

/// A Connect Four position: the grid, the height of each column and the
/// number of pieces played so far.
#[derive(Copy, Clone, Debug, PartialEq, Eq)]
pub struct Board {
    cells: [[Cell; COLS]; ROWS],
    heights: [usize; COLS],
    move_count: u32,
}

impl Board {
    /// Content of cell `(r, c)`.
    pub closed spec fn cell_at(self, r: int, c: int) -> Cell {
        self.cells@[r]@[c]
    }

    /// Number of pieces in column `c`.
    pub closed spec fn height_of(self, c: int) -> int {
        self.heights@[c] as int
    }

    /// Number of pieces played.
    pub closed spec fn count(self) -> int {
        self.move_count as int
    }

    /// Well-formedness: pieces rest on top of each other from the bottom of
    /// each column, and the move counter is the total number of pieces.
    #[verifier::type_invariant]
    pub closed spec fn wf(self) -> bool {
        &&& forall|c: int| 0 <= c < COLS ==> #[trigger] self.heights@[c] <= ROWS
        &&& forall|r: int, c: int|
            on_grid(r, c) ==> ((#[trigger] self.cells@[r]@[c] == Cell::Empty) <==> r
                >= self.heights@[c])
        &&& self.move_count as int == sum_heights(self.heights@, COLS as int)
    }

    /// Whether a piece can be dropped into column `col`.
    pub open spec fn is_open_col(self, col: int) -> bool {
        0 <= col < COLS && self.height_of(col) < ROWS
    }

    /// `self` is `prev` with `piece` placed on top of column `col`: that
    /// column grows by one, the piece fills its lowest empty cell, one more
    /// move is counted and nothing else changes.
    pub open spec fn is_drop_of(self, prev: Board, col: int, piece: Piece) -> bool {
        &&& self.count() == prev.count() + 1
        &&& self.height_of(col) == prev.height_of(col) + 1
        &&& forall|c: int| 0 <= c < COLS && c != col ==> #[trigger] self.height_of(c) == prev.height_of(c)
        &&& self.cell_at(prev.height_of(col), col) == Cell::Piece(piece)
        &&& forall|r: int, c: int|
            on_grid(r, c) && !(r == prev.height_of(col) && c == col) ==> #[trigger] self.cell_at(r, c)
                == prev.cell_at(r, c)
    }

    /// Whether every cell of the grid is empty.
    pub open spec fn is_empty_board(self) -> bool {
        &&& forall|r: int, c: int| on_grid(r, c) ==> #[trigger] self.cell_at(r, c) == Cell::Empty
        &&& forall|c: int| 0 <= c < COLS ==> #[trigger] self.height_of(c) == 0
        &&& self.count() == 0
    }

    /// The position after `piece` falls into column `col`: it lands on the
    /// lowest empty cell of that column, and one more move has been played.
    pub closed spec fn dropped(self, col: int, piece: Piece) -> Board {
        let row = self.heights@[col];
        Board {
            cells: vstd::array::spec_array_update(
                self.cells,
                row as int,
                vstd::array::spec_array_update(self.cells@[row as int], col, Cell::Piece(piece)),
            ),
            heights: vstd::array::spec_array_update(self.heights, col, (row + 1) as usize),
            move_count: (self.move_count + 1) as u32,
        }
    }

    pub fn new() -> (b: Self)
        ensures
            b.is_empty_board(),
    {
        let row: [Cell; COLS] = [Cell::Empty; COLS];
        let cells: [[Cell; COLS]; ROWS] = [row; ROWS];
        let heights: [usize; COLS] = [0; COLS];
        proof {
            assert forall|c: int| 0 <= c < COLS implies heights@[c] == 0 && row@[c] == Cell::Empty by {}
            assert forall|r: int| 0 <= r < ROWS implies cells@[r] == row by {}
            assert(sum_heights(heights@, COLS as int) == 0) by {
                reveal_with_fuel(sum_heights, 8);
            }
        }
        Board { cells, heights, move_count: 0 }
    }
}


/// With every height at most `ROWS`, the sum of the first `n` heights is at
/// most `ROWS * n`, and reaches it exactly when each of them is `ROWS`.
proof fn lemma_sum_heights_bound(h: Seq<usize>, n: int)
    requires
        0 <= n <= h.len(),
        forall|c: int| 0 <= c < n ==> #[trigger] h[c] <= ROWS,
    ensures
        0 <= sum_heights(h, n) <= ROWS * n,
        (sum_heights(h, n) == ROWS * n) <==> (forall|c: int| 0 <= c < n ==> #[trigger] h[c] == ROWS),
    decreases n,
{
    if n > 0 {
        lemma_sum_heights_bound(h, n - 1);
        if sum_heights(h, n) == ROWS * n {
            assert forall|c: int| 0 <= c < n implies #[trigger] h[c] == ROWS by {
                if c < n - 1 {
                    assert(h[n - 1] <= ROWS);
                }
            }
        }
    }
}

/// Changing one height changes the sum by the difference.
proof fn lemma_sum_heights_update(h: Seq<usize>, n: int, col: int, v: usize)
    requires
        0 <= col < n <= h.len(),
    ensures
        sum_heights(h.update(col, v), n) == sum_heights(h, n) - h[col] + v,
    decreases n,
{
    if n - 1 > col {
        lemma_sum_heights_update(h, n - 1, col, v);
    } else {
        assert(sum_heights(h.update(col, v), n - 1) == sum_heights(h, n - 1)) by {
            lemma_sum_heights_same_prefix(h, h.update(col, v), n - 1);
        }
    }
}

/// The sum only depends on the first `n` heights.
proof fn lemma_sum_heights_same_prefix(h1: Seq<usize>, h2: Seq<usize>, n: int)
    requires
        0 <= n <= h1.len(),
        n <= h2.len(),
        forall|c: int| 0 <= c < n ==> h1[c] == h2[c],
    ensures
        sum_heights(h1, n) == sum_heights(h2, n),
    decreases n,
{
    if n > 0 {
        lemma_sum_heights_same_prefix(h1, h2, n - 1);
    }
}

impl Board {
    /// What well-formedness says of a position in terms of its cells, its
    /// heights and its move count.
    pub proof fn lemma_wf_facts(self)
        requires
            self.wf(),
        ensures
            0 <= self.count() <= CELLS,
            forall|c: int| 0 <= c < COLS ==> 0 <= #[trigger] self.height_of(c) <= ROWS,
            forall|r: int, c: int|
                on_grid(r, c) ==> ((#[trigger] self.cell_at(r, c) == Cell::Empty) <==> r
                    >= self.height_of(c)),
            (self.count() == CELLS) <==> (forall|c: int|
                0 <= c < COLS ==> !#[trigger] self.is_open_col(c)),
            self.count() == self.height_of(0) + self.height_of(1) + self.height_of(2) + self.height_of(3)
                + self.height_of(4) + self.height_of(5) + self.height_of(6),
    {
        reveal_with_fuel(sum_heights, 8);
        lemma_sum_heights_bound(self.heights@, COLS as int);
        if self.count() != CELLS {
            let c = choose|c: int| 0 <= c < COLS && #[trigger] self.heights@[c] != ROWS;
            assert(self.is_open_col(c));
        } else {
            assert forall|c: int| 0 <= c < COLS implies !#[trigger] self.is_open_col(c) by {
                assert(self.heights@[c] == ROWS);
            }
        }
    }

    /// Dropping a piece into an open column fills exactly the lowest empty
    /// cell of that column, raises that column by one, counts one more move
    /// and keeps the position well-formed.
    pub proof fn lemma_dropped(self, col: int, piece: Piece)
        requires
            self.wf(),
            self.is_open_col(col),
        ensures
            self.dropped(col, piece).wf(),
            self.dropped(col, piece).is_drop_of(self, col, piece),
    {
        let d = self.dropped(col, piece);
        let row = self.heights@[col] as int;
        self.lemma_wf_facts();
        lemma_sum_heights_update(self.heights@, COLS as int, col, (row + 1) as usize);
        assert(d.heights@ =~= self.heights@.update(col, (row + 1) as usize));
        assert(d.cells@ =~= self.cells@.update(row, d.cells@[row]));
        assert(d.cells@[row]@ =~= self.cells@[row]@.update(col, Cell::Piece(piece)));
        assert forall|r: int, c: int| on_grid(r, c) implies ((#[trigger] d.cells@[r]@[c] == Cell::Empty)
            <==> r >= d.heights@[c]) by {
            if r != row {
                assert(d.cells@[r] == self.cells@[r]);
            }
        }
    }

    pub fn cols(&self) -> (n: usize)
        ensures
            n == COLS,
    {
        COLS
    }

    pub fn rows(&self) -> (n: usize)
        ensures
            n == ROWS,
    {
        ROWS
    }

    pub fn cell(&self, row: usize, col: usize) -> (c: Cell)
        requires
            row < ROWS,
            col < COLS,
        ensures
            c == self.cell_at(row as int, col as int),
    {
        self.cells[row][col]
    }

    pub fn height(&self, col: usize) -> (h: usize)
        requires
            col < COLS,
        ensures
            h == self.height_of(col as int),
            h <= ROWS,
    {
        proof {
            use_type_invariant(self);
        }
        self.heights[col]
    }

    pub fn move_count(&self) -> (n: u32)
        ensures
            n == self.count(),
            n <= CELLS,
    {
        proof {
            use_type_invariant(self);
            self.lemma_wf_facts();
        }
        self.move_count
    }

    pub fn is_valid_move(&self, col: usize) -> (b: bool)
        ensures
            b == self.is_open_col(col as int),
    {
        col < COLS && self.heights[col] < ROWS
    }

    pub fn drop_piece(&self, col: usize, piece: Piece) -> (res: Option<Board>)
        ensures
            self.is_open_col(col as int) ==> res == Some(self.dropped(col as int, piece)),
            !self.is_open_col(col as int) ==> res is None,
            res matches Some(next) ==> next.is_drop_of(*self, col as int, piece),
    {
        if !self.is_valid_move(col) {
            return None;
        }
        proof {
            use_type_invariant(self);
            self.lemma_wf_facts();
            self.lemma_dropped(col as int, piece);
        }
        let row = self.heights[col];
        let mut cells = self.cells;
        cells[row][col] = Cell::Piece(piece);
        let mut heights = self.heights;
        heights[col] += 1;
        let ghost d = self.dropped(col as int, piece);
        proof {
            assert(cells[row as int] =~= d.cells[row as int]);
            assert(cells =~= d.cells);
            assert(heights =~= d.heights);
        }
        Some(Board { cells, heights, move_count: self.move_count + 1 })
    }
}

impl Board {
    /// The open columns among the first `n`, in increasing order.
    pub open spec fn open_cols_upto(self, n: int) -> Seq<usize>
        decreases n,
    {
        if n <= 0 {
            Seq::empty()
        } else if self.is_open_col(n - 1) {
            self.open_cols_upto(n - 1).push((n - 1) as usize)
        } else {
            self.open_cols_upto(n - 1)
        }
    }

    /// The open columns, in increasing order.
    pub open spec fn open_cols(self) -> Seq<usize> {
        self.open_cols_upto(COLS as int)
    }

    /// The open columns among the first `n` are listed once each, in
    /// increasing order, and nothing else is listed.
    pub proof fn lemma_open_cols_upto(self, n: int)
        requires
            0 <= n,
        ensures
            self.open_cols_upto(n).len() <= n,
            forall|i: int|
                0 <= i < self.open_cols_upto(n).len() ==> #[trigger] self.open_cols_upto(n)[i] < n
                    && self.is_open_col(self.open_cols_upto(n)[i] as int),
            forall|i: int, j: int|
                0 <= i < j < self.open_cols_upto(n).len() ==> #[trigger] self.open_cols_upto(n)[i]
                    < #[trigger] self.open_cols_upto(n)[j],
            forall|c: int|
                0 <= c < n && self.is_open_col(c) ==> #[trigger] self.open_cols_upto(n).contains(
                    c as usize,
                ),
        decreases n,
    {
        if n > 0 {
            self.lemma_open_cols_upto(n - 1);
            let prev = self.open_cols_upto(n - 1);
            let cur = self.open_cols_upto(n);
            assert forall|c: int| 0 <= c < n && self.is_open_col(c) implies #[trigger] cur.contains(
                c as usize,
            ) by {
                if c < n - 1 {
                    assert(prev.contains(c as usize));
                    let i = choose|i: int| 0 <= i < prev.len() && prev[i] == c as usize;
                    assert(cur[i] == c as usize);
                } else {
                    assert(cur[prev.len() as int] == c as usize);
                }
            }
        }
    }

    /// The open columns are exactly the columns that accept a piece, each
    /// listed once, in increasing order.
    pub proof fn lemma_open_cols(self)
        ensures
            self.open_cols().len() <= COLS,
            forall|i: int|
                0 <= i < self.open_cols().len() ==> #[trigger] self.is_open_col(
                    self.open_cols()[i] as int,
                ),
            forall|i: int, j: int|
                0 <= i < j < self.open_cols().len() ==> #[trigger] self.open_cols()[i]
                    < #[trigger] self.open_cols()[j],
            forall|c: int| #[trigger]
                self.is_open_col(c) ==> self.open_cols().contains(c as usize),
    {
        self.lemma_open_cols_upto(COLS as int);
        assert forall|i: int| 0 <= i < self.open_cols().len() implies #[trigger] self.is_open_col(
            self.open_cols()[i] as int,
        ) by {
            assert(self.open_cols_upto(COLS as int)[i] < COLS);
        }
    }

    /// The columns that accept a piece, in increasing order.
    pub fn valid_moves(&self) -> (moves: Vec<usize>)
        ensures
            moves@ == self.open_cols(),
            forall|c: int| 0 <= c < COLS ==> (self.is_open_col(c) <==> moves@.contains(c as usize)),
    {
        proof {
            self.lemma_open_cols();
        }
        let mut moves: Vec<usize> = Vec::new();
        let mut col: usize = 0;
        while col < COLS
            invariant
                col <= COLS,
                moves@ == self.open_cols_upto(col as int),
            decreases COLS - col,
        {
            if self.is_valid_move(col) {
                moves.push(col);
            }
            col += 1;
        }
        moves
    }
}

impl Default for Board {
    fn default() -> (b: Self)
        ensures
            b.is_empty_board(),
    {
        Board::new()
    }
}

/// Before the grid is full, a drop counts exactly one more move.
pub broadcast proof fn lemma_dropped_count(b: Board, col: int, piece: Piece)
    requires
        b.count() < CELLS,
    ensures
        #[trigger] b.dropped(col, piece).count() == b.count() + 1,
{
}

impl Board {
    /// Dropping into two different open columns gives the same position in
    /// either order, and each column stays open after the other drop.
    pub proof fn lemma_drops_commute(self, c1: int, p1: Piece, c2: int, p2: Piece)
        requires
            self.wf(),
            self.is_open_col(c1),
            self.is_open_col(c2),
            c1 != c2,
        ensures
            self.dropped(c1, p1).is_open_col(c2),
            self.dropped(c2, p2).is_open_col(c1),
            self.dropped(c1, p1).dropped(c2, p2) == self.dropped(c2, p2).dropped(c1, p1),
    {
        self.lemma_dropped(c1, p1);
        self.lemma_dropped(c2, p2);
        let x = self.dropped(c1, p1).dropped(c2, p2);
        let y = self.dropped(c2, p2).dropped(c1, p1);
        let h1 = self.heights@[c1] as int;
        let h2 = self.heights@[c2] as int;
        assert(x.heights =~= y.heights);
        assert forall|r: int| 0 <= r < ROWS implies x.cells@[r] =~= y.cells@[r] by {
            if r == h1 && r == h2 {
                assert(x.cells@[r]@ =~= y.cells@[r]@);
            }
        }
        assert(x.cells =~= y.cells);
    }
}

/// The position after trying each move of `moves` in turn from `b`: a move
/// into an open column drops the piece, any other move is refused and
/// changes nothing.
pub open spec fn play(b: Board, moves: Seq<(int, Piece)>) -> Board
    decreases moves.len(),
{
    if moves.len() == 0 {
        b
    } else {
        let prev = play(b, moves.drop_last());
        let (col, piece) = moves.last();
        if prev.is_open_col(col) {
            prev.dropped(col, piece)
        } else {
            prev
        }
    }
}

/// How many moves of `moves`, tried in turn from `b`, were accepted.
pub open spec fn accepted(b: Board, moves: Seq<(int, Piece)>) -> nat
    decreases moves.len(),
{
    if moves.len() == 0 {
        0
    } else {
        accepted(b, moves.drop_last()) + (if play(b, moves.drop_last()).is_open_col(moves.last().0) {
            1nat
        } else {
            0nat
        })
    }
}

/// Trying a sequence of moves keeps the position well-formed, and the move
/// count grows by exactly the number of accepted moves; from an empty board
/// the move count is the number of accepted moves.
pub proof fn lemma_play_counts(b: Board, moves: Seq<(int, Piece)>)
    requires
        b.wf(),
    ensures
        play(b, moves).wf(),
        play(b, moves).count() == b.count() + accepted(b, moves),
        b.is_empty_board() ==> play(b, moves).count() == accepted(b, moves),
    decreases moves.len(),
{
    if moves.len() > 0 {
        lemma_play_counts(b, moves.drop_last());
        let prev = play(b, moves.drop_last());
        if prev.is_open_col(moves.last().0) {
            prev.lemma_dropped(moves.last().0, moves.last().1);
        }
    }
}

impl Board {
    /// `self` is `b` reflected left to right: column `c` of one is column
    /// `COLS - 1 - c` of the other, with the same move count.
    pub open spec fn is_mirror_of(self, b: Board) -> bool {
        &&& forall|r: int, c: int|
            on_grid(r, c) ==> #[trigger] self.cell_at(r, c) == b.cell_at(r, COLS - 1 - c)
        &&& forall|c: int| 0 <= c < COLS ==> #[trigger] self.height_of(c) == b.height_of(COLS - 1 - c)
        &&& self.count() == b.count()
    }

    /// Reflection is symmetric.
    pub proof fn lemma_mirror_symmetric(self, b: Board)
        requires
            self.is_mirror_of(b),
        ensures
            b.is_mirror_of(self),
    {
        assert forall|r: int, c: int| on_grid(r, c) implies #[trigger] b.cell_at(r, c) == self.cell_at(
            r,
            COLS - 1 - c,
        ) by {
            assert(self.cell_at(r, COLS - 1 - c) == b.cell_at(r, COLS - 1 - (COLS - 1 - c)));
        }
        assert forall|c: int| 0 <= c < COLS implies #[trigger] b.height_of(c) == self.height_of(
            COLS - 1 - c,
        ) by {
            assert(self.height_of(COLS - 1 - c) == b.height_of(COLS - 1 - (COLS - 1 - c)));
        }
    }

    /// Dropping into column `c` of `b` and into the reflected column of its
    /// reflection gives reflected positions.
    pub proof fn lemma_mirror_dropped(self, b: Board, c: int, piece: Piece)
        requires
            self.wf(),
            b.wf(),
            self.is_mirror_of(b),
            b.is_open_col(c),
        ensures
            self.is_open_col(COLS - 1 - c),
            self.dropped(COLS - 1 - c, piece).wf(),
            b.dropped(c, piece).wf(),
            self.dropped(COLS - 1 - c, piece).is_mirror_of(b.dropped(c, piece)),
    {
        let mc = COLS - 1 - c;
        assert(self.height_of(mc) == b.height_of(c));
        self.lemma_dropped(mc, piece);
        b.lemma_dropped(c, piece);
        let x = self.dropped(mc, piece);
        let y = b.dropped(c, piece);
        assert forall|r: int, k: int| on_grid(r, k) implies #[trigger] x.cell_at(r, k) == y.cell_at(
            r,
            COLS - 1 - k,
        ) by {
            if !(r == self.height_of(mc) && k == mc) {
                assert(x.cell_at(r, k) == self.cell_at(r, k));
                assert(y.cell_at(r, COLS - 1 - k) == b.cell_at(r, COLS - 1 - k));
            }
        }
        assert forall|k: int| 0 <= k < COLS implies #[trigger] x.height_of(k) == y.height_of(
            COLS - 1 - k,
        ) by {
            if k != mc {
                assert(x.height_of(k) == self.height_of(k));
                assert(y.height_of(COLS - 1 - k) == b.height_of(COLS - 1 - k));
            }
        }
    }
}

} // verus!
