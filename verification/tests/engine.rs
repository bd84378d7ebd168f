use chessboard::board::{Board, Color, PieceKind};

fn sorted(mut v: Vec<(i32, i32)>) -> Vec<(i32, i32)> {
    v.sort();
    v
}

fn count_pieces(b: &Board) -> usize {
    let mut n = 0;
    for i in 0..8 {
        for j in 0..8 {
            if b.piece(i, j).is_some() {
                n += 1;
            }
        }
    }
    n
}

#[test]
fn occupant_outside_board_is_none() {
    let b = Board::new();
    assert!(b.piece(-1, 0).is_none());
    assert!(b.piece(0, -1).is_none());
    assert!(b.piece(8, 3).is_none());
    assert!(b.piece(3, 8).is_none());
    assert!(b.piece(-100, 250).is_none());
    assert!(b.color(-1, 4).is_none());
    assert!(b.color(9, 9).is_none());
}

#[test]
fn starting_position_layout() {
    let b = Board::new();
    let back = [
        PieceKind::Rook,
        PieceKind::Knight,
        PieceKind::Bishop,
        PieceKind::Queen,
        PieceKind::King,
        PieceKind::Bishop,
        PieceKind::Knight,
        PieceKind::Rook,
    ];
    for j in 0..8 {
        assert_eq!(b.piece(0, j), Some((Color::Black, back[j as usize])));
        assert_eq!(b.piece(1, j), Some((Color::Black, PieceKind::Pawn)));
        assert_eq!(b.piece(6, j), Some((Color::White, PieceKind::Pawn)));
        assert_eq!(b.piece(7, j), Some((Color::White, back[j as usize])));
        for i in 2..6 {
            assert!(b.piece(i, j).is_none());
        }
    }
    assert_eq!(count_pieces(&b), 32);
}

#[test]
fn moves_for_empty_square_is_empty() {
    let b = Board::new();
    assert!(b.moves_for(4, 4).is_empty());
    assert!(b.moves_for(3, 0).is_empty());
    // an off-board source is empty too, not an error
    assert!(b.moves_for(-2, 5).is_empty());
    assert!(b.moves_for(11, -3).is_empty());
}

#[test]
fn knight_moves_from_starting_position() {
    let b = Board::new();
    // the jump onto the own pawn rank is excluded; only the two jumps
    // into the empty rank 2 remain
    assert_eq!(sorted(b.moves_for(0, 1)), vec![(2, 0), (2, 2)]);
    assert_eq!(sorted(b.moves_for(7, 6)), vec![(5, 5), (5, 7)]);
}

#[test]
fn knight_with_no_friendly_neighbors_gets_all_onboard_offsets() {
    let mut b = Board::empty();
    b.set_piece(4, 4, Some((Color::White, PieceKind::Knight)));
    assert_eq!(
        sorted(b.moves_for(4, 4)),
        vec![(2, 3), (2, 5), (3, 2), (3, 6), (5, 2), (5, 6), (6, 3), (6, 5)]
    );
    // in a corner only the on-board subset of the eight offsets remains
    let mut c = Board::empty();
    c.set_piece(0, 0, Some((Color::Black, PieceKind::Knight)));
    assert_eq!(sorted(c.moves_for(0, 0)), vec![(1, 2), (2, 1)]);
}

#[test]
fn king_moves_one_step_in_all_directions() {
    let mut b = Board::empty();
    b.set_piece(4, 4, Some((Color::White, PieceKind::King)));
    assert_eq!(
        sorted(b.moves_for(4, 4)),
        vec![(3, 3), (3, 4), (3, 5), (4, 3), (4, 5), (5, 3), (5, 4), (5, 5)]
    );
    let mut c = Board::empty();
    c.set_piece(7, 0, Some((Color::Black, PieceKind::King)));
    assert_eq!(sorted(c.moves_for(7, 0)), vec![(6, 0), (6, 1), (7, 1)]);
}

#[test]
fn rook_on_empty_board_covers_row_and_column() {
    let mut b = Board::empty();
    b.set_piece(3, 3, Some((Color::White, PieceKind::Rook)));
    let moves = sorted(b.moves_for(3, 3));
    let mut expected = Vec::new();
    for t in 0..8 {
        if t != 3 {
            expected.push((3, t));
            expected.push((t, 3));
        }
    }
    expected.sort();
    assert_eq!(moves.len(), 14);
    assert_eq!(moves, expected);
}

#[test]
fn rook_ray_stops_at_opposing_blocker_after_capture() {
    let mut b = Board::empty();
    b.set_piece(3, 3, Some((Color::White, PieceKind::Rook)));
    b.set_piece(3, 5, Some((Color::Black, PieceKind::Pawn)));
    let moves = b.moves_for(3, 3);
    assert!(moves.contains(&(3, 4)));
    assert!(moves.contains(&(3, 5)));
    assert!(!moves.contains(&(3, 6)));
    assert!(!moves.contains(&(3, 7)));
}

#[test]
fn rook_ray_stops_before_friendly_blocker() {
    let mut b = Board::empty();
    b.set_piece(3, 3, Some((Color::White, PieceKind::Rook)));
    b.set_piece(3, 5, Some((Color::White, PieceKind::Pawn)));
    let moves = b.moves_for(3, 3);
    assert!(moves.contains(&(3, 4)));
    assert!(!moves.contains(&(3, 5)));
    assert!(!moves.contains(&(3, 6)));
    assert!(!moves.contains(&(3, 7)));
}

#[test]
fn bishop_moves_along_diagonals() {
    let mut b = Board::empty();
    b.set_piece(3, 3, Some((Color::Black, PieceKind::Bishop)));
    let moves = sorted(b.moves_for(3, 3));
    let mut expected = Vec::new();
    for t in 1..8 {
        for (di, dj) in [(1, 1), (1, -1), (-1, 1), (-1, -1)] {
            let (ni, nj) = (3 + t * di, 3 + t * dj);
            if (0..8).contains(&ni) && (0..8).contains(&nj) {
                expected.push((ni, nj));
            }
        }
    }
    expected.sort();
    assert_eq!(moves, expected);
}

#[test]
fn queen_moves_are_rook_and_bishop_rays_together() {
    let mut b = Board::empty();
    b.set_piece(3, 3, Some((Color::White, PieceKind::Queen)));
    let queen = sorted(b.moves_for(3, 3));
    let mut r = Board::empty();
    r.set_piece(3, 3, Some((Color::White, PieceKind::Rook)));
    let mut s = Board::empty();
    s.set_piece(3, 3, Some((Color::White, PieceKind::Bishop)));
    let mut expected = r.moves_for(3, 3);
    expected.extend(s.moves_for(3, 3));
    let expected = sorted(expected);
    assert_eq!(queen, expected);
    assert_eq!(queen.len(), 14 + 13);
}

#[test]
fn white_pawn_single_and_double_step() {
    let mut b = Board::empty();
    b.set_piece(6, 4, Some((Color::White, PieceKind::Pawn)));
    assert_eq!(sorted(b.moves_for(6, 4)), vec![(4, 4), (5, 4)]);
    // off the starting rank the double step disappears
    let mut c = Board::empty();
    c.set_piece(5, 4, Some((Color::White, PieceKind::Pawn)));
    assert_eq!(c.moves_for(5, 4), vec![(4, 4)]);
}

#[test]
fn black_pawn_single_and_double_step() {
    let mut b = Board::empty();
    b.set_piece(1, 2, Some((Color::Black, PieceKind::Pawn)));
    assert_eq!(sorted(b.moves_for(1, 2)), vec![(2, 2), (3, 2)]);
    let mut c = Board::empty();
    c.set_piece(2, 2, Some((Color::Black, PieceKind::Pawn)));
    assert_eq!(c.moves_for(2, 2), vec![(3, 2)]);
}

#[test]
fn pawn_captures_diagonally_only_opposing_pieces() {
    let mut b = Board::empty();
    b.set_piece(4, 4, Some((Color::White, PieceKind::Pawn)));
    b.set_piece(3, 3, Some((Color::Black, PieceKind::Knight)));
    let moves = sorted(b.moves_for(4, 4));
    // the capture at (3, 3) and the empty forward square; never the empty
    // diagonal (3, 5)
    assert_eq!(moves, vec![(3, 3), (3, 4)]);
}

#[test]
fn pawn_cannot_capture_straight_ahead() {
    let mut b = Board::empty();
    b.set_piece(4, 4, Some((Color::White, PieceKind::Pawn)));
    b.set_piece(3, 4, Some((Color::Black, PieceKind::Pawn)));
    assert!(b.moves_for(4, 4).is_empty());
}

#[test]
fn pawn_cannot_capture_own_side_diagonally() {
    let mut b = Board::empty();
    b.set_piece(4, 4, Some((Color::White, PieceKind::Pawn)));
    b.set_piece(3, 3, Some((Color::White, PieceKind::Knight)));
    assert_eq!(b.moves_for(4, 4), vec![(3, 4)]);
}

#[test]
fn pawn_double_step_ignores_intervening_square() {
    // the double-step rule consults only its destination square: a blocked
    // square directly ahead removes the single step but, as the rule is
    // written, not the jump over it
    let mut b = Board::empty();
    b.set_piece(1, 4, Some((Color::Black, PieceKind::Pawn)));
    b.set_piece(2, 4, Some((Color::White, PieceKind::Knight)));
    let moves = b.moves_for(1, 4);
    assert!(!moves.contains(&(2, 4)));
    assert!(moves.contains(&(3, 4)));
}

#[test]
fn move_piece_performs_a_generated_move() {
    let mut b = Board::new();
    b.move_piece(6, 4, 4, 4);
    assert!(b.piece(6, 4).is_none());
    assert_eq!(b.piece(4, 4), Some((Color::White, PieceKind::Pawn)));
    assert_eq!(count_pieces(&b), 32);
}

#[test]
fn move_piece_is_a_no_op_on_an_illegal_request() {
    let mut b = Board::new();
    // a pawn cannot jump three ranks
    b.move_piece(6, 4, 3, 4);
    assert_eq!(b.piece(6, 4), Some((Color::White, PieceKind::Pawn)));
    assert!(b.piece(3, 4).is_none());
    // an empty source moves nothing
    b.move_piece(4, 4, 5, 5);
    assert!(b.piece(4, 4).is_none());
    assert!(b.piece(5, 5).is_none());
    // the board still renders as the starting position
    assert_eq!(b.render(), Board::new().render());
    assert_eq!(count_pieces(&b), 32);
}

#[test]
fn move_piece_capture_lowers_the_count_by_one() {
    let mut b = Board::empty();
    b.set_piece(3, 3, Some((Color::White, PieceKind::Rook)));
    b.set_piece(3, 5, Some((Color::Black, PieceKind::Pawn)));
    assert_eq!(count_pieces(&b), 2);
    b.move_piece(3, 3, 3, 5);
    assert_eq!(count_pieces(&b), 1);
    assert!(b.piece(3, 3).is_none());
    assert_eq!(b.piece(3, 5), Some((Color::White, PieceKind::Rook)));
}

#[test]
fn moves_for_has_no_duplicates() {
    let mut b = Board::empty();
    b.set_piece(3, 3, Some((Color::White, PieceKind::Queen)));
    let moves = b.moves_for(3, 3);
    let mut deduped = moves.clone();
    deduped.sort();
    deduped.dedup();
    assert_eq!(moves.len(), deduped.len());
}
