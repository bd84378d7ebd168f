//! The board engine: data model, occupancy queries, per-kind move rules,
//! and the single mutation (moving a piece to a generated destination).

use vstd::prelude::*;

verus! {

/// The two sides. Used for ownership comparison and pawn-direction selection.
#[derive(Debug, Copy, Clone, PartialEq, Eq, Structural)]
pub enum Color {
    White,
    Black,
}

/// The six piece kinds of standard chess.
#[derive(Debug, Copy, Clone, PartialEq, Eq, Structural)]
pub enum PieceKind {
    King,
    Queen,
    Rook,
    Bishop,
    Knight,
    Pawn,
}

/// An 8x8 board, stored row-major: square (i, j) lives at index i * 8 + j.
#[derive(Debug)]
pub struct Board {
    squares: [Option<(Color, PieceKind)>; 64],
}

/// A coordinate pair names a square of the board exactly when both
/// components lie in [0, 7].
pub open spec fn in_bounds(i: int, j: int) -> bool {
    0 <= i <= 7 && 0 <= j <= 7
}

/// The kind standing on column `j` of a back rank in the starting position.
pub open spec fn back_rank_kind(j: int) -> PieceKind {
    if j == 0 || j == 7 {
        PieceKind::Rook
    } else if j == 1 || j == 6 {
        PieceKind::Knight
    } else if j == 2 || j == 5 {
        PieceKind::Bishop
    } else if j == 3 {
        PieceKind::Queen
    } else {
        PieceKind::King
    }
}

/// The occupant of square (i, j) in the starting position: Black's back rank
/// on row 0, Black's pawns on row 1, White's pawns on row 6, White's back
/// rank on row 7, everything else (and every off-board coordinate) empty.
pub open spec fn start_piece(i: int, j: int) -> Option<(Color, PieceKind)> {
    if !in_bounds(i, j) {
        None
    } else if i == 0 {
        Some((Color::Black, back_rank_kind(j)))
    } else if i == 1 {
        Some((Color::Black, PieceKind::Pawn))
    } else if i == 6 {
        Some((Color::White, PieceKind::Pawn))
    } else if i == 7 {
        Some((Color::White, back_rank_kind(j)))
    } else {
        None
    }
}

impl Board {
    /// The occupant of square (i, j); `None` off the board or on an empty
    /// square. This is the mathematical model every contract is stated over.
    pub closed spec fn spec_piece(&self, i: int, j: int) -> Option<(Color, PieceKind)> {
        if in_bounds(i, j) {
            self.squares@[i * 8 + j]
        } else {
            None
        }
    }

    /// The side owning square (i, j); `None` off the board or on an empty
    /// square.
    pub open spec fn spec_color(&self, i: int, j: int) -> Option<Color> {
        match self.spec_piece(i, j) {
            Some(p) => Some(p.0),
            None => None,
        }
    }

    /// Whether (i, j) names a square of the board.
    fn inside_board(&self, i: i32, j: i32) -> (r: bool)
        ensures
            r == in_bounds(i as int, j as int),
    {
        i >= 0 && j >= 0 && i <= 7 && j <= 7
    }

    /// The occupant at (i, j). Total: out-of-range coordinates read as empty.
    pub fn piece(&self, i: i32, j: i32) -> (r: Option<(Color, PieceKind)>)
        ensures
            r == self.spec_piece(i as int, j as int),
    {
        if self.inside_board(i, j) {
            self.squares[(i * 8 + j) as usize]
        } else {
            None
        }
    }

    /// The side at (i, j). Total: `None` off the board or on an empty square.
    pub fn color(&self, i: i32, j: i32) -> (r: Option<Color>)
        ensures
            r == self.spec_color(i as int, j as int),
    {
        match self.piece(i, j) {
            Some((c, _)) => Some(c),
            None => None,
        }
    }

    /// A board in the standard starting position.
    pub fn new() -> (r: Board)
        ensures
            forall|i: int, j: int| #[trigger] r.spec_piece(i, j) == start_piece(i, j),
    {
        let mut squares: [Option<(Color, PieceKind)>; 64] = [None; 64];
        let mut idx: usize = 0;
        while idx < 64
            invariant
                idx <= 64,
                forall|t: int| 0 <= t < idx ==> squares@[t] == start_piece(t / 8, t % 8),
            decreases 64 - idx,
        {
            squares[idx] = start_square(idx / 8, idx % 8);
            idx = idx + 1;
        }
        let r = Board { squares };
        assert forall|i: int, j: int| #[trigger] r.spec_piece(i, j) == start_piece(i, j) by {
            if in_bounds(i, j) {
                let t = i * 8 + j;
                assert(t / 8 == i && t % 8 == j);
            }
        }
        r
    }
}

impl Board {
    /// A board with no pieces, to be populated through `set_piece`.
    pub fn empty() -> (r: Board)
        ensures
            forall|i: int, j: int| #[trigger] r.spec_piece(i, j) is None,
    {
        Board { squares: [None; 64] }
    }

    /// Places `p` on square (i, j), replacing whatever stood there.
    pub fn set_piece(&mut self, i: i32, j: i32, p: Option<(Color, PieceKind)>)
        requires
            in_bounds(i as int, j as int),
        ensures
            forall|a: int, b: int|
                #[trigger] final(self).spec_piece(a, b) == (if a == i as int && b == j as int {
                    p
                } else {
                    old(self).spec_piece(a, b)
                }),
    {
        self.squares[(i * 8 + j) as usize] = p;
        proof {
            assert forall|a: int, b: int|
                #[trigger] self.spec_piece(a, b) == (if a == i as int && b == j as int {
                    p
                } else {
                    old(self).spec_piece(a, b)
                }) by {
                if in_bounds(a, b) {
                    assert(a * 8 + b == i as int * 8 + j as int ==> a == i as int && b == j as int);
                }
            }
        }
    }
}

/// Whether (ni, nj) is one of the eight knight offsets from (i, j):
/// the (+-2, +-1) and (+-1, +-2) jumps.
pub open spec fn knight_offset(i: int, j: int, ni: int, nj: int) -> bool {
    let di = ni - i;
    let dj = nj - j;
    ||| (di == -2 || di == 2) && (dj == -1 || dj == 1)
    ||| (di == -1 || di == 1) && (dj == -2 || dj == 2)
}

/// Whether (ni, nj) is one of the eight unit offsets from (i, j).
pub open spec fn king_offset(i: int, j: int, ni: int, nj: int) -> bool {
    let di = ni - i;
    let dj = nj - j;
    -1 <= di <= 1 && -1 <= dj <= 1 && !(di == 0 && dj == 0)
}

/// The row direction a pawn of side `c` advances in: Black toward the
/// higher row numbers, White toward the lower ones.
pub open spec fn pawn_dir(c: Color) -> int {
    match c {
        Color::Black => 1,
        Color::White => -1,
    }
}

/// The rank a pawn of side `c` starts on, from which the double step is
/// offered.
pub open spec fn pawn_start_rank(c: Color) -> int {
    match c {
        Color::Black => 1,
        Color::White => 6,
    }
}

impl Board {
    /// Walking a ray from the candidate square (ci, cj) in direction
    /// (di, dj), with at most `fuel` squares left to examine: does the walk
    /// reach and include (ni, nj)? The walk stops before a square that is
    /// off the board or held by `origin`'s own side, and stops after a
    /// square held by the opposing side (a capture blocks further sliding).
    pub open spec fn ray_reach(
        &self,
        ci: int,
        cj: int,
        di: int,
        dj: int,
        origin: Option<Color>,
        ni: int,
        nj: int,
        fuel: nat,
    ) -> bool
        decreases fuel,
    {
        if fuel == 0 {
            false
        } else if !in_bounds(ci, cj) {
            false
        } else if self.spec_color(ci, cj) == origin {
            false
        } else if ci == ni && cj == nj {
            true
        } else if self.spec_piece(ci, cj) is Some {
            false
        } else {
            self.ray_reach(ci + di, cj + dj, di, dj, origin, ni, nj, (fuel - 1) as nat)
        }
    }

    /// Whether a slider standing on (i, j) reaches (ni, nj) along the single
    /// direction (di, dj). Eight steps of fuel cover the whole board.
    pub open spec fn ray_move(&self, i: int, j: int, di: int, dj: int, ni: int, nj: int) -> bool {
        self.ray_reach(i + di, j + dj, di, dj, self.spec_color(i, j), ni, nj, 8)
    }

    /// The rook rule: a ray along each of the four orthogonal directions.
    pub open spec fn rook_move(&self, i: int, j: int, ni: int, nj: int) -> bool {
        ||| self.ray_move(i, j, 1, 0, ni, nj)
        ||| self.ray_move(i, j, 0, 1, ni, nj)
        ||| self.ray_move(i, j, -1, 0, ni, nj)
        ||| self.ray_move(i, j, 0, -1, ni, nj)
    }

    /// The bishop rule: a ray along each of the four diagonal directions.
    pub open spec fn bishop_move(&self, i: int, j: int, ni: int, nj: int) -> bool {
        ||| self.ray_move(i, j, 1, 1, ni, nj)
        ||| self.ray_move(i, j, 1, -1, ni, nj)
        ||| self.ray_move(i, j, -1, 1, ni, nj)
        ||| self.ray_move(i, j, -1, -1, ni, nj)
    }

    /// The raw pawn candidates for a pawn of side `c` on (i, j): the forward
    /// square when empty; the double forward square when the pawn stands on
    /// its starting rank and the destination is empty (the intervening
    /// square is deliberately not consulted — see the note on `moves_for`);
    /// and each diagonal square when held by the opposing side.
    pub open spec fn pawn_raw(&self, c: Color, i: int, j: int, ni: int, nj: int) -> bool {
        let d = pawn_dir(c);
        ||| (ni == i + d && nj == j && self.spec_color(ni, nj) is None)
        ||| (ni == i + 2 * d && nj == j && i == pawn_start_rank(c) && self.spec_color(ni, nj) is None)
        ||| (ni == i + d && (nj == j - 1 || nj == j + 1) && in_bounds(ni, nj)
            && self.spec_color(ni, nj) is Some && self.spec_color(ni, nj) != Some(c))
    }

    /// The kind-specific raw candidate rule for the piece on (i, j); false
    /// everywhere when the square is empty or off the board. Raw candidates
    /// may still lie off the board or on a friendly square; `is_move` adds
    /// the uniform filter.
    pub open spec fn raw_move(&self, i: int, j: int, ni: int, nj: int) -> bool {
        match self.spec_piece(i, j) {
            None => false,
            Some((c, k)) => match k {
                PieceKind::Knight => knight_offset(i, j, ni, nj),
                PieceKind::King => king_offset(i, j, ni, nj),
                PieceKind::Rook => self.rook_move(i, j, ni, nj),
                PieceKind::Bishop => self.bishop_move(i, j, ni, nj),
                PieceKind::Queen => self.rook_move(i, j, ni, nj) || self.bishop_move(i, j, ni, nj),
                PieceKind::Pawn => self.pawn_raw(c, i, j, ni, nj),
            },
        }
    }

    /// The move rule `moves_for` enumerates: a raw candidate of the piece on
    /// (i, j) that lies on the board and is not held by the mover's own
    /// side. False everywhere when the source square is empty.
    pub open spec fn is_move(&self, i: int, j: int, ni: int, nj: int) -> bool {
        &&& in_bounds(ni, nj)
        &&& self.spec_color(ni, nj) != self.spec_color(i, j)
        &&& self.raw_move(i, j, ni, nj)
    }
}

/// Whether two optional sides are the same value.
fn color_eq(a: Option<Color>, b: Option<Color>) -> (r: bool)
    ensures
        r == (a == b),
{
    match (a, b) {
        (None, None) => true,
        (Some(Color::White), Some(Color::White)) => true,
        (Some(Color::Black), Some(Color::Black)) => true,
        _ => false,
    }
}

impl Board {
    /// The squares a ray from (si, sj) in direction (di, dj) covers:
    /// step outward, collecting empty squares, until the board edge or a
    /// friendly piece stops the ray, or an opposing piece is collected as
    /// its final square.
    fn expand_direction(&self, si: i32, sj: i32, di: i32, dj: i32) -> (r: Vec<(i32, i32)>)
        requires
            in_bounds(si as int, sj as int),
            -1 <= di <= 1,
            -1 <= dj <= 1,
            !(di == 0 && dj == 0),
        ensures
            forall|ni: i32, nj: i32|
                #[trigger] r@.contains((ni, nj)) <==> self.ray_move(
                    si as int,
                    sj as int,
                    di as int,
                    dj as int,
                    ni as int,
                    nj as int,
                ),
    {
        let origin = self.color(si, sj);
        let mut r: Vec<(i32, i32)> = Vec::new();
        let mut ci: i32 = si + di;
        let mut cj: i32 = sj + dj;
        let ghost mut fuel: nat = 8;
        loop
            invariant_except_break
                -1 <= di <= 1,
                -1 <= dj <= 1,
                !(di == 0 && dj == 0),
                0 <= si <= 7,
                0 <= sj <= 7,
                fuel <= 8,
                di == 1 ==> ci == si + 9 - fuel,
                di == -1 ==> ci == si - 9 + fuel,
                di == 0 ==> ci == si,
                dj == 1 ==> cj == sj + 9 - fuel,
                dj == -1 ==> cj == sj - 9 + fuel,
                dj == 0 ==> cj == sj,
                origin == self.spec_color(si as int, sj as int),
                forall|ni: i32, nj: i32|
                    #![trigger r@.contains((ni, nj))]
                    #![trigger self.ray_reach(ci as int, cj as int, di as int, dj as int, origin, ni as int, nj as int, fuel)]
                    self.ray_move(si as int, sj as int, di as int, dj as int, ni as int, nj as int)
                        <==> r@.contains((ni, nj)) || self.ray_reach(
                        ci as int,
                        cj as int,
                        di as int,
                        dj as int,
                        origin,
                        ni as int,
                        nj as int,
                        fuel,
                    ),
            ensures
                forall|ni: i32, nj: i32|
                    #[trigger] r@.contains((ni, nj)) <==> self.ray_move(
                        si as int,
                        sj as int,
                        di as int,
                        dj as int,
                        ni as int,
                        nj as int,
                    ),
            decreases fuel,
        {
            if !self.inside_board(ci, cj) || color_eq(origin, self.color(ci, cj)) {
                // the ray ends before this square
                proof {
                    assert forall|ni: i32, nj: i32|
                        #[trigger] r@.contains((ni, nj)) <==> self.ray_move(
                            si as int,
                            sj as int,
                            di as int,
                            dj as int,
                            ni as int,
                            nj as int,
                        ) by {
                        assert(!self.ray_reach(
                            ci as int,
                            cj as int,
                            di as int,
                            dj as int,
                            origin,
                            ni as int,
                            nj as int,
                            fuel,
                        ));
                    }
                }
                break;
            }
            let ghost prev = r@;
            let ghost oci = ci as int;
            let ghost ocj = cj as int;
            let ghost ofuel = fuel;
            r.push((ci, cj));
            proof {
                assert(ofuel >= 1);
                assert forall|ni: i32, nj: i32|
                    #[trigger] r@.contains((ni, nj)) <==> prev.contains((ni, nj)) || (ni == ci
                        && nj == cj) by {
                    if prev.contains((ni, nj)) {
                        let idx = choose|idx: int|
                            0 <= idx < prev.len() && prev[idx] == (ni, nj);
                        assert(r@[idx] == (ni, nj));
                    }
                    if ni == ci && nj == cj {
                        assert(r@[prev.len() as int] == (ci, cj));
                    }
                    if r@.contains((ni, nj)) {
                        let idx = choose|idx: int| 0 <= idx < r@.len() && r@[idx] == (ni, nj);
                        if idx < prev.len() {
                            assert(prev[idx] == (ni, nj));
                        }
                    }
                }
            }
            let capture = !color_eq(self.color(ci, cj), None);
            if capture {
                // an opposing piece is taken and blocks further sliding
                proof {
                    assert forall|ni: i32, nj: i32|
                        #[trigger] r@.contains((ni, nj)) <==> self.ray_move(
                            si as int,
                            sj as int,
                            di as int,
                            dj as int,
                            ni as int,
                            nj as int,
                        ) by {
                        assert(self.ray_reach(
                            oci,
                            ocj,
                            di as int,
                            dj as int,
                            origin,
                            ni as int,
                            nj as int,
                            ofuel,
                        ) == (oci == ni as int && ocj == nj as int));
                    }
                }
                break;
            }
            proof {
                fuel = (fuel - 1) as nat;
            }
            ci = ci + di;
            cj = cj + dj;
            proof {
                assert forall|ni: i32, nj: i32|
                    self.ray_move(si as int, sj as int, di as int, dj as int, ni as int, nj as int)
                        <==> #[trigger] r@.contains((ni, nj)) || self.ray_reach(
                        ci as int,
                        cj as int,
                        di as int,
                        dj as int,
                        origin,
                        ni as int,
                        nj as int,
                        fuel,
                    ) by {
                    assert(self.ray_reach(
                        oci,
                        ocj,
                        di as int,
                        dj as int,
                        origin,
                        ni as int,
                        nj as int,
                        ofuel,
                    ) == ((oci == ni as int && ocj == nj as int) || self.ray_reach(
                        ci as int,
                        cj as int,
                        di as int,
                        dj as int,
                        origin,
                        ni as int,
                        nj as int,
                        fuel,
                    )));
                }
            }
        }
        r
    }
}

/// Membership in a pushed sequence: the old members plus the new element.
proof fn lemma_push_contains(s: Seq<(i32, i32)>, x: (i32, i32), m: (i32, i32))
    ensures
        s.push(x).contains(m) <==> s.contains(m) || m == x,
{
    if s.contains(m) {
        let idx = choose|idx: int| 0 <= idx < s.len() && s[idx] == m;
        assert(s.push(x)[idx] == m);
    }
    if m == x {
        assert(s.push(x)[s.len() as int] == m);
    }
    if s.push(x).contains(m) {
        let idx = choose|idx: int| 0 <= idx < s.push(x).len() && s.push(x)[idx] == m;
        if idx < s.len() {
            assert(s[idx] == m);
        }
    }
}

/// Membership in a concatenation: a member of either part.
proof fn lemma_concat_contains(a: Seq<(i32, i32)>, b: Seq<(i32, i32)>, m: (i32, i32))
    ensures
        (a + b).contains(m) <==> a.contains(m) || b.contains(m),
{
    if a.contains(m) {
        let idx = choose|idx: int| 0 <= idx < a.len() && a[idx] == m;
        assert((a + b)[idx] == m);
    }
    if b.contains(m) {
        let idx = choose|idx: int| 0 <= idx < b.len() && b[idx] == m;
        assert((a + b)[a.len() + idx] == m);
    }
    if (a + b).contains(m) {
        let idx = choose|idx: int| 0 <= idx < (a + b).len() && (a + b)[idx] == m;
        if idx < a.len() {
            assert(a[idx] == m);
        } else {
            assert(b[idx - a.len()] == m);
        }
    }
}

/// Pushing an element that is not yet a member keeps the members pairwise
/// distinct.
proof fn lemma_push_no_duplicates(s: Seq<(i32, i32)>, x: (i32, i32))
    requires
        s.no_duplicates(),
        !s.contains(x),
    ensures
        s.push(x).no_duplicates(),
{
    assert forall|p: int, q: int|
        0 <= p < s.push(x).len() && 0 <= q < s.push(x).len() && p != q implies s.push(x)[p]
        != s.push(x)[q] by {
        if p < s.len() && q < s.len() {
            assert(s[p] == s.push(x)[p] && s[q] == s.push(x)[q]);
        } else if p < s.len() {
            assert(s.push(x)[q] == x && s.push(x)[p] == s[p]);
            assert(s.contains(s[p]));
        } else if q < s.len() {
            assert(s.push(x)[p] == x && s.push(x)[q] == s[q]);
            assert(s.contains(s[q]));
        }
    }
}

impl Board {
    /// Extends `acc` with the squares the ray from (si, sj) along (di, dj)
    /// covers.
    fn add_ray(&self, acc: &mut Vec<(i32, i32)>, si: i32, sj: i32, di: i32, dj: i32)
        requires
            in_bounds(si as int, sj as int),
            -1 <= di <= 1,
            -1 <= dj <= 1,
            !(di == 0 && dj == 0),
        ensures
            forall|ni: i32, nj: i32|
                #[trigger] final(acc)@.contains((ni, nj)) <==> old(acc)@.contains((ni, nj))
                    || self.ray_move(si as int, sj as int, di as int, dj as int, ni as int, nj as int),
    {
        let mut v = self.expand_direction(si, sj, di, dj);
        let ghost a = acc@;
        let ghost b = v@;
        acc.append(&mut v);
        proof {
            assert forall|ni: i32, nj: i32|
                #[trigger] acc@.contains((ni, nj)) <==> a.contains((ni, nj)) || b.contains(
                    (ni, nj),
                ) by {
                lemma_concat_contains(a, b, (ni, nj));
            }
        }
    }

    /// The raw rook candidates: the four orthogonal rays.
    fn rook_moves(&self, i: i32, j: i32) -> (r: Vec<(i32, i32)>)
        requires
            in_bounds(i as int, j as int),
        ensures
            forall|ni: i32, nj: i32|
                #[trigger] r@.contains((ni, nj)) <==> self.rook_move(
                    i as int,
                    j as int,
                    ni as int,
                    nj as int,
                ),
    {
        let mut r: Vec<(i32, i32)> = Vec::new();
        self.add_ray(&mut r, i, j, 1, 0);
        self.add_ray(&mut r, i, j, 0, 1);
        self.add_ray(&mut r, i, j, -1, 0);
        self.add_ray(&mut r, i, j, 0, -1);
        r
    }

    /// The raw bishop candidates: the four diagonal rays.
    fn bishop_moves(&self, i: i32, j: i32) -> (r: Vec<(i32, i32)>)
        requires
            in_bounds(i as int, j as int),
        ensures
            forall|ni: i32, nj: i32|
                #[trigger] r@.contains((ni, nj)) <==> self.bishop_move(
                    i as int,
                    j as int,
                    ni as int,
                    nj as int,
                ),
    {
        let mut r: Vec<(i32, i32)> = Vec::new();
        self.add_ray(&mut r, i, j, 1, 1);
        self.add_ray(&mut r, i, j, 1, -1);
        self.add_ray(&mut r, i, j, -1, 1);
        self.add_ray(&mut r, i, j, -1, -1);
        r
    }

    /// The raw queen candidates: the rook and bishop rays together.
    fn queen_moves(&self, i: i32, j: i32) -> (r: Vec<(i32, i32)>)
        requires
            in_bounds(i as int, j as int),
        ensures
            forall|ni: i32, nj: i32|
                #[trigger] r@.contains((ni, nj)) <==> self.rook_move(
                    i as int,
                    j as int,
                    ni as int,
                    nj as int,
                ) || self.bishop_move(i as int, j as int, ni as int, nj as int),
    {
        let mut r = self.rook_moves(i, j);
        let mut v = self.bishop_moves(i, j);
        let ghost a = r@;
        let ghost b = v@;
        r.append(&mut v);
        proof {
            assert forall|ni: i32, nj: i32|
                #[trigger] r@.contains((ni, nj)) <==> a.contains((ni, nj)) || b.contains(
                    (ni, nj),
                ) by {
                lemma_concat_contains(a, b, (ni, nj));
            }
        }
        r
    }

    /// The raw knight candidates: the eight fixed jumps.
    fn knight_moves(&self, i: i32, j: i32) -> (r: Vec<(i32, i32)>)
        requires
            in_bounds(i as int, j as int),
        ensures
            forall|ni: i32, nj: i32|
                #[trigger] r@.contains((ni, nj)) <==> knight_offset(
                    i as int,
                    j as int,
                    ni as int,
                    nj as int,
                ),
    {
        let mut r: Vec<(i32, i32)> = Vec::new();
        r.push((i - 2, j - 1));
        r.push((i - 2, j + 1));
        r.push((i - 1, j - 2));
        r.push((i - 1, j + 2));
        r.push((i + 1, j - 2));
        r.push((i + 1, j + 2));
        r.push((i + 2, j - 1));
        r.push((i + 2, j + 1));
        proof {
            assert forall|ni: i32, nj: i32|
                #[trigger] r@.contains((ni, nj)) <==> knight_offset(
                    i as int,
                    j as int,
                    ni as int,
                    nj as int,
                ) by {
                if knight_offset(i as int, j as int, ni as int, nj as int) {
                    if ni == i - 2 && nj == j - 1 {
                        assert(r@[0] == (ni, nj));
                    } else if ni == i - 2 && nj == j + 1 {
                        assert(r@[1] == (ni, nj));
                    } else if ni == i - 1 && nj == j - 2 {
                        assert(r@[2] == (ni, nj));
                    } else if ni == i - 1 && nj == j + 2 {
                        assert(r@[3] == (ni, nj));
                    } else if ni == i + 1 && nj == j - 2 {
                        assert(r@[4] == (ni, nj));
                    } else if ni == i + 1 && nj == j + 2 {
                        assert(r@[5] == (ni, nj));
                    } else if ni == i + 2 && nj == j - 1 {
                        assert(r@[6] == (ni, nj));
                    } else {
                        assert(r@[7] == (ni, nj));
                    }
                }
                if r@.contains((ni, nj)) {
                    let idx = choose|idx: int| 0 <= idx < r@.len() && r@[idx] == (ni, nj);
                }
            }
        }
        r
    }

    /// The raw king candidates: the eight unit offsets.
    fn king_moves(&self, i: i32, j: i32) -> (r: Vec<(i32, i32)>)
        requires
            in_bounds(i as int, j as int),
        ensures
            forall|ni: i32, nj: i32|
                #[trigger] r@.contains((ni, nj)) <==> king_offset(
                    i as int,
                    j as int,
                    ni as int,
                    nj as int,
                ),
    {
        let mut r: Vec<(i32, i32)> = Vec::new();
        r.push((i - 1, j - 1));
        r.push((i - 1, j));
        r.push((i - 1, j + 1));
        r.push((i, j - 1));
        r.push((i, j + 1));
        r.push((i + 1, j - 1));
        r.push((i + 1, j));
        r.push((i + 1, j + 1));
        proof {
            assert forall|ni: i32, nj: i32|
                #[trigger] r@.contains((ni, nj)) <==> king_offset(
                    i as int,
                    j as int,
                    ni as int,
                    nj as int,
                ) by {
                if king_offset(i as int, j as int, ni as int, nj as int) {
                    if ni == i - 1 && nj == j - 1 {
                        assert(r@[0] == (ni, nj));
                    } else if ni == i - 1 && nj == j {
                        assert(r@[1] == (ni, nj));
                    } else if ni == i - 1 && nj == j + 1 {
                        assert(r@[2] == (ni, nj));
                    } else if ni == i && nj == j - 1 {
                        assert(r@[3] == (ni, nj));
                    } else if ni == i && nj == j + 1 {
                        assert(r@[4] == (ni, nj));
                    } else if ni == i + 1 && nj == j - 1 {
                        assert(r@[5] == (ni, nj));
                    } else if ni == i + 1 && nj == j {
                        assert(r@[6] == (ni, nj));
                    } else {
                        assert(r@[7] == (ni, nj));
                    }
                }
                if r@.contains((ni, nj)) {
                    let idx = choose|idx: int| 0 <= idx < r@.len() && r@[idx] == (ni, nj);
                }
            }
        }
        r
    }

    /// The raw pawn candidates for a pawn of side `c` on (i, j).
    fn pawn_moves(&self, c: Color, i: i32, j: i32) -> (r: Vec<(i32, i32)>)
        requires
            in_bounds(i as int, j as int),
            self.spec_color(i as int, j as int) == Some(c),
        ensures
            forall|ni: i32, nj: i32|
                #[trigger] r@.contains((ni, nj)) <==> self.pawn_raw(
                    c,
                    i as int,
                    j as int,
                    ni as int,
                    nj as int,
                ),
    {
        let d: i32 = match c {
            Color::Black => 1,
            Color::White => -1,
        };
        let start: i32 = match c {
            Color::Black => 1,
            Color::White => 6,
        };
        let ai = i + d;
        let jl = j - 1;
        let jr = j + 1;
        let mut r: Vec<(i32, i32)> = Vec::new();
        // the two diagonal captures: on the board and held by the opposing side
        if self.inside_board(ai, j - 1) && !color_eq(self.color(ai, j - 1), None) && !color_eq(
            self.color(ai, j - 1),
            Some(c),
        ) {
            let ghost s = r@;
            r.push((ai, j - 1));
            proof {
                assert forall|a: i32, b: i32|
                    #[trigger] r@.contains((a, b)) <==> s.contains((a, b)) || (a == ai && b == j
                        - 1) by {
                    lemma_push_contains(s, (ai, jl), (a, b));
                }
            }
        }
        assert(forall|a: i32, b: i32|
            #[trigger] r@.contains((a, b)) <==> (a as int == i + pawn_dir(c) && b as int == j - 1
                && in_bounds(a as int, b as int) && self.spec_color(a as int, b as int) is Some
                && self.spec_color(a as int, b as int) != Some(c)));
        if self.inside_board(ai, j + 1) && !color_eq(self.color(ai, j + 1), None) && !color_eq(
            self.color(ai, j + 1),
            Some(c),
        ) {
            let ghost s = r@;
            r.push((ai, j + 1));
            proof {
                assert forall|a: i32, b: i32|
                    #[trigger] r@.contains((a, b)) <==> s.contains((a, b)) || (a == ai && b == j
                        + 1) by {
                    lemma_push_contains(s, (ai, jr), (a, b));
                }
            }
        }
        assert(forall|a: i32, b: i32|
            #[trigger] r@.contains((a, b)) <==> (a as int == i + pawn_dir(c) && (b as int == j - 1
                || b as int == j + 1) && in_bounds(a as int, b as int) && self.spec_color(
                a as int,
                b as int,
            ) is Some && self.spec_color(a as int, b as int) != Some(c)));
        // the forward square, when empty
        if color_eq(self.color(ai, j), None) {
            let ghost s = r@;
            r.push((ai, j));
            proof {
                assert forall|a: i32, b: i32|
                    #[trigger] r@.contains((a, b)) <==> s.contains((a, b)) || (a == ai && b
                        == j) by {
                    lemma_push_contains(s, (ai, j), (a, b));
                }
            }
        }
        // the double forward square, from the starting rank, when empty
        if i == start {
            let di = i + 2 * d;
            if color_eq(self.color(di, j), None) {
                let ghost s = r@;
                r.push((di, j));
                proof {
                    assert forall|a: i32, b: i32|
                        #[trigger] r@.contains((a, b)) <==> s.contains((a, b)) || (a == di && b
                            == j) by {
                        lemma_push_contains(s, (di, j), (a, b));
                    }
                }
            }
        }
        r
    }

    /// The kind-specific raw candidates for the piece on (i, j); empty when
    /// the square is empty or off the board.
    fn raw_moves_for(&self, i: i32, j: i32) -> (r: Vec<(i32, i32)>)
        ensures
            forall|ni: i32, nj: i32|
                #[trigger] r@.contains((ni, nj)) <==> self.raw_move(
                    i as int,
                    j as int,
                    ni as int,
                    nj as int,
                ),
    {
        match self.piece(i, j) {
            None => Vec::new(),
            Some((c, k)) => match k {
                PieceKind::Knight => self.knight_moves(i, j),
                PieceKind::King => self.king_moves(i, j),
                PieceKind::Rook => self.rook_moves(i, j),
                PieceKind::Bishop => self.bishop_moves(i, j),
                PieceKind::Queen => self.queen_moves(i, j),
                PieceKind::Pawn => self.pawn_moves(c, i, j),
            },
        }
    }

    /// The destinations the piece on (i, j) may move to: the raw candidates
    /// of its kind, kept when they lie on the board and are not held by the
    /// mover's own side. Empty when the source square is empty; free of
    /// duplicates, so the result reads as a set.
    ///
    /// As in the rule this models, the pawn double step consults only its
    /// destination square, never the intervening one.
    pub fn moves_for(&self, i: i32, j: i32) -> (r: Vec<(i32, i32)>)
        ensures
            forall|ni: i32, nj: i32|
                #[trigger] r@.contains((ni, nj)) <==> self.is_move(
                    i as int,
                    j as int,
                    ni as int,
                    nj as int,
                ),
            r@.no_duplicates(),
    {
        let raw = self.raw_moves_for(i, j);
        let mut r: Vec<(i32, i32)> = Vec::new();
        let mut idx: usize = 0;
        while idx < raw.len()
            invariant
                idx <= raw.len(),
                forall|ni: i32, nj: i32|
                    #[trigger] raw@.contains((ni, nj)) <==> self.raw_move(
                        i as int,
                        j as int,
                        ni as int,
                        nj as int,
                    ),
                forall|ni: i32, nj: i32|
                    #[trigger] r@.contains((ni, nj)) <==> (exists|t: int|
                        0 <= t < idx && raw@[t] == (ni, nj)) && self.is_move(
                        i as int,
                        j as int,
                        ni as int,
                        nj as int,
                    ),
                r@.no_duplicates(),
            decreases raw.len() - idx,
        {
            let m = raw[idx];
            let ni = m.0;
            let nj = m.1;
            if self.inside_board(ni, nj) && !color_eq(self.color(ni, nj), self.color(i, j))
                && !contains_pair(&r, ni, nj) {
                let ghost s = r@;
                r.push((ni, nj));
                proof {
                    lemma_push_no_duplicates(s, (ni, nj));
                    assert(raw@.contains((ni, nj)));
                    assert forall|a: i32, b: i32|
                        #[trigger] r@.contains((a, b)) <==> s.contains((a, b)) || (a == ni && b
                            == nj) by {
                        lemma_push_contains(s, (ni, nj), (a, b));
                    }
                }
            }
            idx = idx + 1;
            proof {
                assert forall|a: i32, b: i32|
                    #[trigger] r@.contains((a, b)) <==> (exists|t: int|
                        0 <= t < idx && raw@[t] == (a, b)) && self.is_move(
                        i as int,
                        j as int,
                        a as int,
                        b as int,
                    ) by {
                    if r@.contains((a, b)) {
                        assert(self.is_move(i as int, j as int, a as int, b as int));
                    }
                    if (exists|t: int| 0 <= t < idx && raw@[t] == (a, b)) && self.is_move(
                        i as int,
                        j as int,
                        a as int,
                        b as int,
                    ) {
                        let t = choose|t: int| 0 <= t < idx && raw@[t] == (a, b);
                        if t < idx - 1 {
                        } else {
                            assert(raw@[idx - 1] == m);
                        }
                    }
                }
            }
        }
        proof {
            assert forall|ni: i32, nj: i32|
                #[trigger] r@.contains((ni, nj)) <==> self.is_move(
                    i as int,
                    j as int,
                    ni as int,
                    nj as int,
                ) by {
                if self.is_move(i as int, j as int, ni as int, nj as int) {
                    assert(raw@.contains((ni, nj)));
                    let t = choose|t: int| 0 <= t < raw@.len() && raw@[t] == (ni, nj);
                }
            }
        }
        r
    }

    /// Moves the occupant of (i, j) to (ni, nj) when that destination is one
    /// of `moves_for(i, j)`: the source square is cleared and the
    /// destination overwritten. Any other request leaves the board
    /// unchanged; no error is signalled.
    pub fn move_piece(&mut self, i: i32, j: i32, ni: i32, nj: i32)
        ensures
            old(self).is_move(i as int, j as int, ni as int, nj as int) ==> forall|a: int, b: int|
                #[trigger] final(self).spec_piece(a, b) == (if a == ni as int && b == nj as int {
                    old(self).spec_piece(i as int, j as int)
                } else if a == i as int && b == j as int {
                    None
                } else {
                    old(self).spec_piece(a, b)
                }),
            !old(self).is_move(i as int, j as int, ni as int, nj as int) ==> *final(self)
                == *old(self),
    {
        let mvs = self.moves_for(i, j);
        if contains_pair(&mvs, ni, nj) {
            proof {
                assert(self.is_move(i as int, j as int, ni as int, nj as int));
            }
            let src = self.squares[(i * 8 + j) as usize];
            self.squares[(ni * 8 + nj) as usize] = src;
            self.squares[(i * 8 + j) as usize] = None;
            proof {
                assert forall|a: int, b: int|
                    #[trigger] self.spec_piece(a, b) == (if a == ni as int && b == nj as int {
                        old(self).spec_piece(i as int, j as int)
                    } else if a == i as int && b == j as int {
                        None::<(Color, PieceKind)>
                    } else {
                        old(self).spec_piece(a, b)
                    }) by {
                    if in_bounds(a, b) {
                        assert(a * 8 + b == ni as int * 8 + nj as int ==> a == ni as int && b
                            == nj as int);
                        assert(a * 8 + b == i as int * 8 + j as int ==> a == i as int && b
                            == j as int);
                    }
                }
            }
        }
    }
}

/// Whether `v` holds the pair (ni, nj).
fn contains_pair(v: &Vec<(i32, i32)>, ni: i32, nj: i32) -> (r: bool)
    ensures
        r == v@.contains((ni, nj)),
{
    let mut idx: usize = 0;
    while idx < v.len()
        invariant
            idx <= v.len(),
            forall|t: int| 0 <= t < idx ==> v@[t] != (ni, nj),
        decreases v.len() - idx,
    {
        let m = v[idx];
        if m.0 == ni && m.1 == nj {
            proof {
                assert(v@[idx as int] == (ni, nj));
            }
            return true;
        }
        idx = idx + 1;
    }
    false
}

/// The occupant of square (i, j) in the starting position, as a value.
fn start_square(i: usize, j: usize) -> (r: Option<(Color, PieceKind)>)
    requires
        i < 8,
        j < 8,
    ensures
        r == start_piece(i as int, j as int),
{
    if i == 0 {
        Some((Color::Black, back_rank_square(j)))
    } else if i == 1 {
        Some((Color::Black, PieceKind::Pawn))
    } else if i == 6 {
        Some((Color::White, PieceKind::Pawn))
    } else if i == 7 {
        Some((Color::White, back_rank_square(j)))
    } else {
        None
    }
}

/// How many of the listed squares are occupied.
pub open spec fn occupied_in(s: Seq<Option<(Color, PieceKind)>>) -> int
    decreases s.len(),
{
    if s.len() == 0 {
        0
    } else {
        occupied_in(s.drop_last()) + if s.last() is Some {
            1int
        } else {
            0int
        }
    }
}

/// Overwriting one listed square changes the occupied count by the
/// difference between the new and the old occupancy of that square.
proof fn lemma_occupied_in_update(s: Seq<Option<(Color, PieceKind)>>, k: int, v: Option<(Color, PieceKind)>)
    requires
        0 <= k < s.len(),
    ensures
        occupied_in(s.update(k, v)) == occupied_in(s) - (if s[k] is Some {
            1int
        } else {
            0int
        }) + (if v is Some {
            1int
        } else {
            0int
        }),
    decreases s.len(),
{
    let t = s.update(k, v);
    if k == s.len() - 1 {
        assert(t.drop_last() =~= s.drop_last());
    } else {
        assert(t.drop_last() =~= s.drop_last().update(k, v));
        lemma_occupied_in_update(s.drop_last(), k, v);
    }
}

impl Board {
    /// The number of occupied squares of the board.
    pub closed spec fn count_occupied(&self) -> int {
        occupied_in(self.squares@)
    }
}

/// Every coordinate pair outside the board reads as empty, on any board.
pub proof fn lemma_occupant_outside(b: Board, i: int, j: int)
    requires
        !in_bounds(i, j),
    ensures
        b.spec_piece(i, j) is None,
{
}

/// An empty source square offers no moves, on any board.
pub proof fn lemma_moves_empty_source(b: Board, i: int, j: int)
    requires
        b.spec_piece(i, j) is None,
    ensures
        forall|ni: int, nj: int| !b.is_move(i, j, ni, nj),
{
}

/// A knight whose own side holds none of its eight target squares moves to
/// exactly those of the eight that lie on the board.
pub proof fn lemma_knight_moves(b: Board, c: Color, i: int, j: int)
    requires
        b.spec_piece(i, j) == Some((c, PieceKind::Knight)),
        forall|ni: int, nj: int|
            knight_offset(i, j, ni, nj) && in_bounds(ni, nj) ==> #[trigger] b.spec_color(ni, nj)
                != Some(c),
    ensures
        forall|ni: int, nj: int|
            #[trigger] b.is_move(i, j, ni, nj) <==> knight_offset(i, j, ni, nj) && in_bounds(
                ni,
                nj,
            ),
{
    assert forall|ni: int, nj: int|
        #[trigger] b.is_move(i, j, ni, nj) <==> knight_offset(i, j, ni, nj) && in_bounds(
            ni,
            nj,
        ) by {
        if knight_offset(i, j, ni, nj) && in_bounds(ni, nj) {
            assert(b.spec_color(ni, nj) != Some(c));
        }
    }
}

/// A performed move keeps the number of occupied squares, except that a
/// capture (an occupied destination) lowers it by exactly one. The `post`
/// board is described square by square as `move_piece` leaves it.
pub proof fn lemma_move_piece_count(pre: Board, post: Board, i: int, j: int, ni: int, nj: int)
    requires
        pre.is_move(i, j, ni, nj),
        forall|a: int, b: int|
            #[trigger] post.spec_piece(a, b) == (if a == ni && b == nj {
                pre.spec_piece(i, j)
            } else if a == i && b == j {
                None::<(Color, PieceKind)>
            } else {
                pre.spec_piece(a, b)
            }),
    ensures
        post.count_occupied() == pre.count_occupied() - (if pre.spec_piece(ni, nj) is Some {
            1int
        } else {
            0int
        }),
{
    // the move rule places the mover on the board and forbids staying put
    assert(in_bounds(i, j) && in_bounds(ni, nj));
    assert(!(i == ni && j == nj));
    let src = pre.spec_piece(i, j);
    let d = ni * 8 + nj;
    let s0 = i * 8 + j;
    assert(d != s0);
    let mid = pre.squares@.update(d, src).update(s0, None);
    assert forall|t: int| 0 <= t < 64 implies post.squares@[t] == mid[t] by {
        let a = t / 8;
        let b = t % 8;
        assert(t == a * 8 + b && 0 <= a <= 7 && 0 <= b <= 7);
        assert(post.spec_piece(a, b) == post.squares@[t]);
        assert(a == ni && b == nj ==> t == d);
        assert(a == i && b == j ==> t == s0);
        assert(t == d ==> a == ni && b == nj);
        assert(t == s0 ==> a == i && b == j);
    }
    assert(post.squares@ =~= mid);
    lemma_occupied_in_update(pre.squares@, d, src);
    lemma_occupied_in_update(pre.squares@.update(d, src), s0, None);
}

/// The kind standing on column `j` of a back rank, as a value.
fn back_rank_square(j: usize) -> (r: PieceKind)
    ensures
        r == back_rank_kind(j as int),
{
    if j == 0 || j == 7 {
        PieceKind::Rook
    } else if j == 1 || j == 6 {
        PieceKind::Knight
    } else if j == 2 || j == 5 {
        PieceKind::Bishop
    } else if j == 3 {
        PieceKind::Queen
    } else {
        PieceKind::King
    }
}

} // verus!
