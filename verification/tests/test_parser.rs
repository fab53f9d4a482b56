use quasar_chess_engine::quasar::parser::parse_fen;
use quasar_chess_engine::quasar::state::State;

#[test]
fn test_parse_fen_matches_default() {
    let parsed = parse_fen("rnbqkbnr/pppppppp/8/8/8/8/PPPPPPPP/RNBQKBNR w KQkq - 0 1").unwrap();
    assert_eq!(parsed.render(), State::default().render());
    assert!(parsed.to_move);
    assert_eq!(parsed.move_count, 0);
    assert!(parsed.previous_state.is_none());
    assert!(parsed.last_move.is_none());
}

#[test]
fn test_parse_fen_field_count_error() {
    assert_eq!(
        parse_fen("only three fields").unwrap_err(),
        "Invalid FEN string: incorrect number of fields"
    );
    assert_eq!(parse_fen("").unwrap_err(), "Invalid FEN string: incorrect number of fields");
}

#[test]
fn test_parse_fen_rank_count_error() {
    assert_eq!(
        parse_fen("8/8/8 w KQkq - 0 1").unwrap_err(),
        "Invalid FEN string: incorrect number of ranks"
    );
}

#[test]
fn test_parse_fen_piece_letter_error() {
    assert_eq!(
        parse_fen("rnbqkbnr/pppppppp/8/8/8/8/PPPPPPPP/RNBQKBNZ w KQkq - 0 1").unwrap_err(),
        "Invalid piece type in FEN"
    );
}

#[test]
fn test_parse_fen_color_error() {
    assert_eq!(
        parse_fen("8/8/8/8/8/8/8/8 x KQkq - 0 1").unwrap_err(),
        "Invalid active color in FEN"
    );
}

#[test]
fn test_parse_fen_halfmove_error() {
    assert_eq!(
        parse_fen("8/8/8/8/8/8/8/8 w KQkq - abc 1").unwrap_err(),
        "Invalid halfmove clock in FEN"
    );
    assert_eq!(
        parse_fen("8/8/8/8/8/8/8/8 w KQkq - - 1").unwrap_err(),
        "Invalid halfmove clock in FEN"
    );
}

#[test]
fn test_parse_fen_fields() {
    let black_to_move = parse_fen("8/8/8/8/8/8/8/8 b - - 7 1").unwrap();
    assert!(!black_to_move.to_move);
    assert_eq!(black_to_move.move_count, 7);
    assert_eq!(black_to_move.pieces.get_all_pieces().len(), 0);
    let some = parse_fen("4k3/8/8/8/8/8/8/4K3 w - - 42 1").unwrap();
    assert_eq!(some.move_count, 42);
    assert_eq!(some.pieces.get_all_pieces().len(), 2);
}
