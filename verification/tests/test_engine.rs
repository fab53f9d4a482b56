use quasar_chess_engine::quasar::geometry::Point;
use quasar_chess_engine::quasar::moves::Move;
use quasar_chess_engine::quasar::parser::parse_fen;
use quasar_chess_engine::quasar::pieces::{Piece, PieceList, PieceType};
use quasar_chess_engine::quasar::state::State;

fn on_board(p: &Point) -> bool {
    p.x >= 1 && p.x <= 8 && p.y >= 1 && p.y <= 8
}

fn clone_piece_at(state: &State, x: i128, y: i128) -> Piece {
    state.pieces.get_piece_at(x, y).unwrap().clone()
}

fn play(state: &State, fx: i128, fy: i128, tx: i128, ty: i128) -> State {
    let piece = clone_piece_at(state, fx, fy);
    let mut mv = Move::new(Point::new(fx, fy), Point::new(tx, ty), piece);
    assert!(mv.is_legal(state));
    state.make_move(mv)
}

#[test]
fn test_initial_position_has_twenty_board_moves() {
    let state = State::default();
    let moves = state.get_legal_moves();
    let n = moves.iter().filter(|m| on_board(&m.to)).count();
    assert_eq!(n, 20);
}

#[test]
fn test_moves_off_the_standard_board_exist() {
    // The board is unbounded: a knight on the back rank may leave the
    // standard eight-by-eight area, so the raw move list is larger.
    let state = State::default();
    let moves = state.get_legal_moves();
    assert!(moves.iter().any(|m| !on_board(&m.to)));
}

fn perft(state: &State, depth: usize) -> usize {
    if depth == 0 {
        return 1;
    }
    let mut count = 0;
    for m in state.get_legal_moves() {
        if on_board(&m.to) {
            let next = state.make_move(m);
            count += perft(&next, depth - 1);
        }
    }
    count
}

#[test]
fn test_perft_depths_one_and_two() {
    let state = State::default();
    assert_eq!(perft(&state, 1), 20);
    assert_eq!(perft(&state, 2), 400);
}

#[test]
fn test_perft_depth_three() {
    let state = State::default();
    assert_eq!(perft(&state, 3), 8902);
}

#[test]
fn test_make_move_toggles_side_and_counts() {
    let state = State::default();
    let piece = clone_piece_at(&state, 5, 2);
    let mut mv = Move::new(Point::new(5, 2), Point::new(5, 4), piece);
    assert!(mv.is_legal(&state));
    let next = state.make_move(mv);
    assert_eq!(next.to_move, false);
    assert_eq!(next.move_count, 1);
    assert!(next.last_move.is_some());
    let prev = next.previous_state.as_ref().unwrap();
    assert_eq!(prev.to_move, true);
    assert_eq!(prev.move_count, 0);
    assert_eq!(prev.render(), state.render());
    // the double step marks the pawn as the en-passant target
    assert_eq!(next.pieces.get_en_passant_target(), Some((5, 4)));
}

#[test]
fn test_is_legal_idempotent() {
    let state = State::default();
    let piece = clone_piece_at(&state, 5, 2);
    let mut mv = Move::new(Point::new(5, 2), Point::new(5, 4), piece);
    let a = mv.is_legal(&state);
    let b = mv.is_legal(&state);
    let c = mv.is_legal(&state);
    assert!(a);
    assert_eq!(b, a);
    assert_eq!(c, a);
    assert!(mv.is_legal);
    // evaluating legality never changes the board
    assert_eq!(state.render(), State::default().render());
    let piece = clone_piece_at(&state, 5, 2);
    let mut bad = Move::new(Point::new(5, 2), Point::new(5, 5), piece);
    assert!(!bad.is_legal(&state));
    assert!(!bad.is_legal(&state));
}

#[test]
fn test_en_passant_legal_after_double_step() {
    let state = parse_fen("k7/3p4/8/4P3/8/8/8/K7 b - - 0 1").unwrap();
    let state2 = play(&state, 4, 7, 4, 5);
    let wp = clone_piece_at(&state2, 5, 5);
    let mut ep = Move::new(Point::new(5, 5), Point::new(4, 6), wp).set_en_passant();
    assert!(ep.is_legal(&state2));
    let state3 = state2.make_move(ep);
    // the capturer stands on the skipped square; the bypassed pawn is gone
    assert!(state3.pieces.get_piece_at(4, 6).unwrap().alive);
    assert!(!state3.pieces.get_piece_at(4, 5).unwrap().alive);
}

#[test]
fn test_en_passant_illegal_without_double_step() {
    // no preceding move at all
    let state = parse_fen("k7/8/8/3pP3/8/8/8/K7 w - - 0 1").unwrap();
    let wp = clone_piece_at(&state, 5, 5);
    let mut ep = Move::new(Point::new(5, 5), Point::new(4, 6), wp).set_en_passant();
    assert!(!ep.is_legal(&state));
    // the preceding move was a single step, not the double advance
    let state = parse_fen("k7/8/3p4/4P3/8/8/8/K7 b - - 0 1").unwrap();
    let state2 = play(&state, 4, 6, 4, 5);
    let wp = clone_piece_at(&state2, 5, 5);
    let mut ep = Move::new(Point::new(5, 5), Point::new(4, 6), wp).set_en_passant();
    assert!(!ep.is_legal(&state2));
}

#[test]
fn test_castling_both_pieces_relocate() {
    let state = parse_fen("r3k2r/8/8/8/8/8/8/R3K2R w KQkq - 0 1").unwrap();
    let king = clone_piece_at(&state, 5, 1);
    let mut castle = Move::new(Point::new(5, 1), Point::new(7, 1), king).set_castling();
    assert!(castle.is_legal(&state));
    let next = state.make_move(castle);
    let king_after = next.pieces.get_piece_at(7, 1).unwrap();
    assert!(king_after.alive && matches!(king_after.form, PieceType::King));
    let rook_after = next.pieces.get_piece_at(6, 1).unwrap();
    assert!(rook_after.alive && matches!(rook_after.form, PieceType::Rook));
    // the queenside is open too
    let king = clone_piece_at(&state, 5, 1);
    let mut long = Move::new(Point::new(5, 1), Point::new(3, 1), king).set_castling();
    assert!(long.is_legal(&state));
}

#[test]
fn test_castling_rejected_when_blocked_or_through_check() {
    // a piece stands between king and rook on the queenside
    let state = parse_fen("4k3/8/8/8/8/8/8/R2QK2R w KQ - 0 1").unwrap();
    let king = clone_piece_at(&state, 5, 1);
    let mut long = Move::new(Point::new(5, 1), Point::new(3, 1), king).set_castling();
    assert!(!long.is_legal(&state));
    let king = clone_piece_at(&state, 5, 1);
    let mut short = Move::new(Point::new(5, 1), Point::new(7, 1), king).set_castling();
    assert!(short.is_legal(&state));
    // the crossed square is attacked by the rook on the sixth file
    let state = parse_fen("5r1k/8/8/8/8/8/8/4K2R w K - 0 1").unwrap();
    let king = clone_piece_at(&state, 5, 1);
    let mut short = Move::new(Point::new(5, 1), Point::new(7, 1), king).set_castling();
    assert!(!short.is_legal(&state));
}

#[test]
fn test_castling_rejected_after_king_moved() {
    let state = parse_fen("r3k2r/8/8/8/8/8/8/R3K2R w KQkq - 0 1").unwrap();
    let state = play(&state, 5, 1, 5, 2);  // king steps out
    let state = play(&state, 1, 8, 1, 7);  // a quiet rook move in reply
    let state = play(&state, 5, 2, 5, 1);  // king returns
    let state = play(&state, 1, 7, 1, 8);  // and so does the rook
    let king = clone_piece_at(&state, 5, 1);
    let mut castle = Move::new(Point::new(5, 1), Point::new(7, 1), king).set_castling();
    assert!(!castle.is_legal(&state));
}

#[test]
fn test_no_legal_move_leaves_own_king_in_check() {
    // the pawn on (5, 4) is pinned along the rank by the queen on (1, 4)
    let state = parse_fen("k7/8/8/8/q3P2K/8/8/8 w - - 0 1").unwrap();
    assert!(!state.is_king_in_check(true));
    let moves = state.get_legal_moves();
    assert!(!moves.is_empty());
    for m in moves.iter() {
        assert!(!(m.from.x == 5 && m.from.y == 4));
        let next = state.make_move(m.clone());
        assert!(!next.is_king_in_check(true));
    }
}

#[test]
fn test_check_detection() {
    let state = parse_fen("4k3/8/8/8/8/8/4r3/4K3 w - - 0 1").unwrap();
    assert!(state.is_king_in_check(true));
    assert!(!state.is_king_in_check(false));
    // the king can capture the undefended rook, so this is no mate
    assert!(!state.is_checkmate(true));
    assert!(!State::default().is_king_in_check(true));
}

#[test]
fn test_promotion_only_for_pawns() {
    let state = parse_fen("k7/4P3/8/8/8/8/8/K6R w - - 0 1").unwrap();
    let pawn = clone_piece_at(&state, 5, 7);
    let mut promo = Move::new(Point::new(5, 7), Point::new(5, 8), pawn).with_promotion(
        PieceType::Queen,
    );
    assert!(promo.is_legal(&state));
    let next = state.make_move(promo);
    assert!(matches!(next.pieces.get_piece_at(5, 8).unwrap().form, PieceType::Queen));
    let rook = clone_piece_at(&state, 8, 1);
    let mut bad = Move::new(Point::new(8, 1), Point::new(8, 2), rook).with_promotion(
        PieceType::Queen,
    );
    assert!(!bad.is_legal(&state));
}

#[test]
fn test_capture_leaves_a_tombstone() {
    let state = parse_fen("k7/8/8/3p4/4B3/8/8/K7 w - - 0 1").unwrap();
    let next = play(&state, 5, 4, 4, 5);
    let survivor = next.pieces.get_piece_at(4, 5).unwrap();
    // the first entry on the square is the white bishop; the black pawn
    // stays in the collection, marked not alive
    assert!(survivor.color && survivor.alive);
    assert_eq!(next.pieces.get_all_pieces().len(), 4);
    let dead: Vec<_> = next.pieces.get_all_pieces().iter().filter(|p| !p.alive).collect();
    assert_eq!(dead.len(), 1);
    assert!(matches!(dead[0].form, PieceType::Pawn));
}

#[test]
fn test_render_default_board() {
    let expected = "rnbqkbnr\npppppppp\n        \n        \n        \n        \nPPPPPPPP\nRNBQKBNR\n";
    assert_eq!(State::default().render(), expected);
}

#[test]
fn test_piece_list_partition_and_lookup() {
    let state = State::default();
    let whites = state.pieces.get_white_pieces();
    let blacks = state.pieces.get_black_pieces();
    assert_eq!(whites.len(), 16);
    assert_eq!(blacks.len(), 16);
    assert!(whites.iter().all(|p| p.color));
    assert!(blacks.iter().all(|p| !p.color));
    assert!(matches!(state.pieces.get_white_king().form, PieceType::King));
    assert!(state.pieces.get_white_king().color);
    assert!(matches!(state.pieces.get_black_king().form, PieceType::King));
    assert!(!state.pieces.get_black_king().color);
    assert_eq!(state.pieces.get_pieces_by_type(PieceType::Pawn).len(), 16);
    assert_eq!(state.pieces.get_white_pieces_by_type(PieceType::Pawn).len(), 8);
    assert_eq!(state.pieces.get_black_pieces_by_type(PieceType::Rook).len(), 2);
    assert_eq!(state.pieces.get_alive_pieces().len(), 32);
    assert_eq!(state.pieces.get_unmoved_pieces().len(), 32);
    assert_eq!(state.pieces.get_sliding_pieces().len(), 10);
    assert_eq!(state.pieces.get_board_boundaries(), (1, 8, 1, 8));
    assert!(state.pieces.get_piece_at(4, 1).is_some());
    assert!(state.pieces.get_piece_at(4, 4).is_none());
}

#[test]
fn test_piece_mut_access_and_ep_marker() {
    let mut state = State::default();
    assert_eq!(state.pieces.get_en_passant_target(), None);
    if let Some(p) = state.pieces.get_piece_mut_at(5, 2) {
        p.moved = true;
    }
    assert!(state.pieces.get_piece_at(5, 2).unwrap().moved);
    state.pieces.set_en_passant_target(5, 2);
    assert_eq!(state.pieces.get_en_passant_target(), Some((5, 2)));
    state.pieces.clear_en_passant_target();
    assert_eq!(state.pieces.get_en_passant_target(), None);
}

#[test]
fn test_quasar_piece_and_state_new() {
    let p = Piece::new(PieceType::Knight, Point::new(2, 1), true);
    assert!(matches!(p.form, PieceType::Knight));
    assert_eq!(p.position, Point::new(2, 1));
    assert!(p.color && p.alive && !p.moved && !p.is_en_passant_target);
    assert!(!p.sliding);
    assert_eq!(p.offsets.len(), 8);
    assert!(Piece::new(PieceType::Bishop, Point::new(3, 1), false).sliding);
    assert!(PieceType::Bishop.is_sliding());
    assert!(!PieceType::King.is_sliding());

    let pieces = vec![
        Piece::new(PieceType::King, Point::new(5, 1), true),
        Piece::new(PieceType::King, Point::new(5, 8), false),
        Piece::new(PieceType::Pawn, Point::new(1, 2), true),
    ];
    let list = PieceList::new(pieces);
    assert_eq!(list.get_all_pieces().len(), 3);
    let state = State::new(list, 7, false);
    assert_eq!(state.move_count, 7);
    assert!(!state.to_move);
    assert!(state.previous_state.is_none());
    assert!(state.last_move.is_none());
}

#[test]
fn test_move_builders() {
    let p = Piece::new(PieceType::Pawn, Point::new(1, 2), true);
    let cap = Piece::new(PieceType::Rook, Point::new(2, 3), false);
    let m = Move::new(Point::new(1, 2), Point::new(2, 3), p);
    assert_eq!(m.from, Point::new(1, 2));
    assert_eq!(m.to, Point::new(2, 3));
    assert!(m.captured_piece.is_none());
    assert!(!m.is_promotion && m.promotion_type.is_none());
    assert!(!m.is_castling && !m.is_en_passant && !m.is_legal);
    let m = m.with_capture(cap).with_promotion(PieceType::Queen).set_castling().set_en_passant();
    assert!(m.captured_piece.is_some());
    assert!(m.is_promotion);
    assert_eq!(m.promotion_type, Some(PieceType::Queen));
    assert!(m.is_castling && m.is_en_passant);
}
