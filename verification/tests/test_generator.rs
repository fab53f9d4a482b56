use quasar_chess_engine::quasar::generator::MoveGenerator;
use quasar_chess_engine::quasar::geometry::Point;
use quasar_chess_engine::quasar::pieces::{Piece, PieceType};

#[test]
fn test_move_generator_new() {
    let piece = Piece::new(PieceType::Knight, Point::new(0, 0), true);
    let generator = MoveGenerator::new(&piece);
    assert_eq!(generator.current_position, Point::new(0, 0));
    assert_eq!(generator.current_offset_index, 0);
    assert_eq!(generator.current_multiplier, 1);
}

#[test]
fn test_move_generator_next() {
    let piece = Piece::new(PieceType::Knight, Point::new(0, 0), true);
    let mut generator = MoveGenerator::new(&piece);

    let expected_moves = vec![
        Point::new(1, 2),
        Point::new(2, 1),
        Point::new(2, -1),
        Point::new(1, -2),
        Point::new(-1, -2),
        Point::new(-2, -1),
        Point::new(-2, 1),
        Point::new(-1, 2),
    ];

    for expected_move in expected_moves {
        assert_eq!(generator.next(), Some(expected_move));
    }
}

#[test]
fn test_move_generator_sliding_piece() {
    let piece = Piece::new(PieceType::Bishop, Point::new(0, 0), true);
    let mut generator = MoveGenerator::new(&piece);

    let expected_moves = vec![
        Point::new(1, 1),
        Point::new(1, -1),
        Point::new(-1, -1),
        Point::new(-1, 1),
        Point::new(2, 2),
        Point::new(2, -2),
        Point::new(-2, -2),
        Point::new(-2, 2),
    ];

    for expected_move in expected_moves {
        assert_eq!(generator.next(), Some(expected_move));
    }
}

#[test]
fn test_move_generator_exhaustion() {
    let piece = Piece::new(PieceType::King, Point::new(0, 0), true);
    let mut generator = MoveGenerator::new(&piece);

    for _ in 0..8 {
        assert!(generator.next().is_some());
    }

    assert_eq!(generator.next(), None);
}

#[test]
fn test_generator_terminates_at_coordinate_edge() {
    // A sliding piece at the extreme edge of representable space: the very
    // first step overflows, so the sequence ends at once and stays ended.
    let piece = Piece::new(PieceType::Bishop, Point::new(i128::MAX, i128::MAX), true);
    let mut generator = MoveGenerator::new(&piece);
    assert_eq!(generator.next(), None);
    assert_eq!(generator.next(), None);
    assert_eq!(generator.next(), None);
}

#[test]
fn test_generator_pawn_offsets_drop_double_step() {
    let mut piece = Piece::new(PieceType::Pawn, Point::new(4, 2), true);
    assert_eq!(piece.offsets.len(), 4);
    piece.moved = true;
    piece.update_offsets();
    assert_eq!(piece.offsets.len(), 3);
    let mut generator = MoveGenerator::new(&piece);
    assert_eq!(generator.next(), Some(Point::new(4, 3)));
    assert_eq!(generator.next(), Some(Point::new(3, 3)));
    assert_eq!(generator.next(), Some(Point::new(5, 3)));
    assert_eq!(generator.next(), None);
}
