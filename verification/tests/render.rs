use chessboard::board::{Board, Color, PieceKind};
use chessboard::display::{row_strings, row_to_string};

#[test]
fn fresh_board_renders_the_documented_starting_position() {
    let b = Board::new();
    let expected = "  0  1  2  3  4  5  6  7\n\
                    0 BR BN BB BQ BK BB BN BR\n\
                    1 BP BP BP BP BP BP BP BP\n\
                    2 -- -- -- -- -- -- -- --\n\
                    3 -- -- -- -- -- -- -- --\n\
                    4 -- -- -- -- -- -- -- --\n\
                    5 -- -- -- -- -- -- -- --\n\
                    6 WP WP WP WP WP WP WP WP\n\
                    7 WR WN WB WQ WK WB WN WR";
    assert_eq!(b.render(), expected);
}

#[test]
fn side_and_kind_codes() {
    assert_eq!(Color::White.code(), "W");
    assert_eq!(Color::Black.code(), "B");
    assert_eq!(PieceKind::King.code(), "K");
    assert_eq!(PieceKind::Queen.code(), "Q");
    assert_eq!(PieceKind::Rook.code(), "R");
    // the Bishop's code collides with the Black side code by design
    assert_eq!(PieceKind::Bishop.code(), "B");
    assert_eq!(PieceKind::Knight.code(), "N");
    assert_eq!(PieceKind::Pawn.code(), "P");
}

#[test]
fn rows_render_cell_by_cell() {
    let mut b = Board::empty();
    b.set_piece(2, 0, Some((Color::Black, PieceKind::Rook)));
    b.set_piece(2, 7, Some((Color::Black, PieceKind::Pawn)));
    assert_eq!(row_to_string(&b, 2), "BR -- -- -- -- -- -- BP");
    assert_eq!(row_to_string(&b, 5), "-- -- -- -- -- -- -- --");
    let rows = row_strings(&b);
    assert_eq!(rows.len(), 8);
    assert_eq!(rows[2], "2 BR -- -- -- -- -- -- BP");
    assert_eq!(rows[0], "0 -- -- -- -- -- -- -- --");
}

#[test]
fn rendering_follows_a_move() {
    let mut b = Board::new();
    b.move_piece(1, 0, 3, 0);
    let rows = row_strings(&b);
    assert_eq!(rows[1], "1 -- BP BP BP BP BP BP BP");
    assert_eq!(rows[3], "3 BP -- -- -- -- -- -- --");
}
