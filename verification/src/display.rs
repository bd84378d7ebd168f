//! Textual rendering of the board: eight rows prefixed by their row index,
//! each cell two characters wide, under a column-index header.

use crate::board::{Board, Color, PieceKind};
use vstd::prelude::*;

verus! {

/// The one-letter code of a side: `W` for White, `B` for Black.
pub open spec fn color_char(c: Color) -> char {
    match c {
        Color::White => 'W',
        Color::Black => 'B',
    }
}

/// The one-letter code of a piece kind. Note that the Bishop shares the
/// letter `B` with the Black side code; the collision is part of the
/// rendered format.
pub open spec fn kind_char(k: PieceKind) -> char {
    match k {
        PieceKind::King => 'K',
        PieceKind::Queen => 'Q',
        PieceKind::Rook => 'R',
        PieceKind::Bishop => 'B',
        PieceKind::Knight => 'N',
        PieceKind::Pawn => 'P',
    }
}

/// The two characters of one cell: `--` when empty, else side code then
/// kind code.
pub open spec fn square_chars(sq: Option<(Color, PieceKind)>) -> Seq<char> {
    match sq {
        None => seq!['-', '-'],
        Some((c, k)) => seq![color_char(c), kind_char(k)],
    }
}

/// The digit character of row index `i` in [0, 7].
pub open spec fn row_digit(i: int) -> char {
    if i == 0 {
        '0'
    } else if i == 1 {
        '1'
    } else if i == 2 {
        '2'
    } else if i == 3 {
        '3'
    } else if i == 4 {
        '4'
    } else if i == 5 {
        '5'
    } else if i == 6 {
        '6'
    } else {
        '7'
    }
}

/// The first `n` cells of row `i`, joined by single spaces.
pub open spec fn row_cells(b: Board, i: int, n: int) -> Seq<char>
    decreases n,
{
    if n <= 0 {
        Seq::empty()
    } else if n == 1 {
        square_chars(b.spec_piece(i, 0))
    } else {
        row_cells(b, i, n - 1) + seq![' '] + square_chars(b.spec_piece(i, n - 1))
    }
}

/// One full row line: the row index, a space, and the eight cells.
pub open spec fn row_chars(b: Board, i: int) -> Seq<char> {
    seq![row_digit(i), ' '] + row_cells(b, i, 8)
}

/// The first `n` row lines, each preceded by a newline.
pub open spec fn rows_block(b: Board, n: int) -> Seq<char>
    decreases n,
{
    if n <= 0 {
        Seq::empty()
    } else {
        rows_block(b, n - 1) + seq!['\n'] + row_chars(b, n - 1)
    }
}

/// The column-index header line.
pub open spec fn header_chars() -> Seq<char> {
    "  0  1  2  3  4  5  6  7"@
}

/// The whole rendering: the header, then the eight rows on lines of their
/// own.
pub open spec fn board_chars(b: Board) -> Seq<char> {
    header_chars() + rows_block(b, 8)
}

impl Color {
    /// The one-letter code of this side.
    pub fn code(&self) -> (r: &'static str)
        ensures
            r@ == seq![color_char(*self)],
    {
        proof {
            reveal_strlit("W");
            reveal_strlit("B");
            assert("W"@ =~= seq!['W']);
            assert("B"@ =~= seq!['B']);
        }
        match self {
            Color::White => "W",
            Color::Black => "B",
        }
    }
}

impl PieceKind {
    /// The one-letter code of this piece kind.
    pub fn code(&self) -> (r: &'static str)
        ensures
            r@ == seq![kind_char(*self)],
    {
        proof {
            reveal_strlit("K");
            reveal_strlit("Q");
            reveal_strlit("R");
            reveal_strlit("B");
            reveal_strlit("N");
            reveal_strlit("P");
            assert("K"@ =~= seq!['K']);
            assert("Q"@ =~= seq!['Q']);
            assert("R"@ =~= seq!['R']);
            assert("B"@ =~= seq!['B']);
            assert("N"@ =~= seq!['N']);
            assert("P"@ =~= seq!['P']);
        }
        match self {
            PieceKind::King => "K",
            PieceKind::Queen => "Q",
            PieceKind::Rook => "R",
            PieceKind::Bishop => "B",
            PieceKind::Knight => "N",
            PieceKind::Pawn => "P",
        }
    }
}

/// The row-index prefix of row `i`: its digit and a space.
fn row_label(i: i32) -> (r: &'static str)
    requires
        0 <= i <= 7,
    ensures
        r@ == seq![row_digit(i as int), ' '],
{
    proof {
        reveal_strlit("0 ");
        reveal_strlit("1 ");
        reveal_strlit("2 ");
        reveal_strlit("3 ");
        reveal_strlit("4 ");
        reveal_strlit("5 ");
        reveal_strlit("6 ");
        reveal_strlit("7 ");
        assert("0 "@ =~= seq!['0', ' ']);
        assert("1 "@ =~= seq!['1', ' ']);
        assert("2 "@ =~= seq!['2', ' ']);
        assert("3 "@ =~= seq!['3', ' ']);
        assert("4 "@ =~= seq!['4', ' ']);
        assert("5 "@ =~= seq!['5', ' ']);
        assert("6 "@ =~= seq!['6', ' ']);
        assert("7 "@ =~= seq!['7', ' ']);
    }
    if i == 0 {
        "0 "
    } else if i == 1 {
        "1 "
    } else if i == 2 {
        "2 "
    } else if i == 3 {
        "3 "
    } else if i == 4 {
        "4 "
    } else if i == 5 {
        "5 "
    } else if i == 6 {
        "6 "
    } else {
        "7 "
    }
}

/// The eight cells of row `i`, joined by single spaces.
pub fn row_to_string(b: &Board, i: i32) -> (r: String)
    requires
        0 <= i <= 7,
    ensures
        r@ == row_cells(*b, i as int, 8),
{
    let mut s = String::new();
    assert(s@ =~= Seq::<char>::empty());
    let mut j: i32 = 0;
    while j < 8
        invariant
            0 <= i <= 7,
            0 <= j <= 8,
            s@ == row_cells(*b, i as int, j as int),
        decreases 8 - j,
    {
        if j > 0 {
            s.append(" ");
            proof {
                reveal_strlit(" ");
                assert(" "@ =~= seq![' ']);
            }
        }
        match b.piece(i, j) {
            None => {
                s.append("--");
                proof {
                    reveal_strlit("--");
                    assert("--"@ =~= seq!['-', '-']);
                }
            },
            Some((c, k)) => {
                s.append(c.code());
                s.append(k.code());
            },
        }
        proof {
            assert(s@ =~= row_cells(*b, i as int, j as int + 1));
        }
        j = j + 1;
    }
    s
}

/// The eight row lines, each holding its row index and its cells.
pub fn row_strings(b: &Board) -> (r: Vec<String>)
    ensures
        r@.len() == 8,
        forall|t: int| 0 <= t < 8 ==> #[trigger] r@[t]@ == row_chars(*b, t),
{
    let mut r: Vec<String> = Vec::new();
    let mut i: i32 = 0;
    while i < 8
        invariant
            0 <= i <= 8,
            r@.len() == i,
            forall|t: int| 0 <= t < i ==> #[trigger] r@[t]@ == row_chars(*b, t),
        decreases 8 - i,
    {
        let mut line = String::new();
        assert(line@ =~= Seq::<char>::empty());
        line.append(row_label(i));
        let cells = row_to_string(b, i);
        line.append(cells.as_str());
        proof {
            assert(line@ =~= row_chars(*b, i as int));
        }
        r.push(line);
        i = i + 1;
    }
    r
}

impl Board {
    /// The textual rendering of the board: the column-index header, then
    /// each row on a line of its own.
    pub fn render(&self) -> (r: String)
        ensures
            r@ == board_chars(*self),
    {
        let mut s = String::from_str("  0  1  2  3  4  5  6  7");
        let rows = row_strings(self);
        let mut i: usize = 0;
        while i < 8
            invariant
                i <= 8,
                rows@.len() == 8,
                forall|t: int| 0 <= t < 8 ==> #[trigger] rows@[t]@ == row_chars(*self, t),
                s@ == header_chars() + rows_block(*self, i as int),
            decreases 8 - i,
        {
            s.append("\n");
            s.append(rows[i].as_str());
            proof {
                reveal_strlit("\n");
                assert("\n"@ =~= seq!['\n']);
                assert(s@ =~= header_chars() + rows_block(*self, i as int + 1));
            }
            i = i + 1;
        }
        s
    }
}

} // verus!
