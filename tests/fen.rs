use chess_fen::board::{square, Board, Piece, PieceKind, Side};
use chess_fen::fen::{
    parse_castling_availability, parse_en_passant_target_square, parse_fullmove_counter,
    parse_halfmove_clock, parse_piece_placement, parse_rank, parse_side_to_move,
};
use chess_fen::position::{FenError, Position};
use chess_fen::text::{chars_of, split_chars};

const START: &str = "rnbqkbnr/pppppppp/8/8/8/8/PPPPPPPP/RNBQKBNR w KQkq - 0 1";

fn piece(side: Side, kind: PieceKind) -> Piece {
    Piece { side, kind }
}

fn chars(s: &str) -> Vec<char> {
    s.chars().collect()
}

fn error_of(record: &str) -> Option<FenError> {
    Position::from_fen(record).err()
}

fn all_pieces() -> Vec<Piece> {
    let mut v = Vec::new();
    for side in [Side::White, Side::Black] {
        for kind in [
            PieceKind::King,
            PieceKind::Queen,
            PieceKind::Rook,
            PieceKind::Bishop,
            PieceKind::Knight,
            PieceKind::Pawn,
        ] {
            v.push(piece(side, kind));
        }
    }
    v
}

#[test]
fn start_position_skeleton() {
    let p = Position::from_fen(START).unwrap();
    assert_eq!(p.board.rooks[0], (1u64 << 0) | (1u64 << 7));
    assert_eq!(p.board.kings[1], 1u64 << 60);
    assert_eq!(p.side_to_move, Side::White);
    assert!(p.castling_availability.white_kingside);
    assert!(p.castling_availability.white_queenside);
    assert!(p.castling_availability.black_kingside);
    assert!(p.castling_availability.black_queenside);
    assert_eq!(p.en_passant_target_square, None);
    assert_eq!(p.halfmove_clock, 0);
    assert_eq!(p.fullmove_counter, 1);
}

#[test]
fn start_position_all_bitboards() {
    let b = Position::from_fen(START).unwrap().board;
    assert_eq!(b.kings, [1u64 << 4, 1u64 << 60]);
    assert_eq!(b.queens, [1u64 << 3, 1u64 << 59]);
    assert_eq!(b.rooks, [0x81, 0x81u64 << 56]);
    assert_eq!(b.bishops, [0x24, 0x24u64 << 56]);
    assert_eq!(b.knights, [0x42, 0x42u64 << 56]);
    assert_eq!(b.pawns, [0xff00, 0xffu64 << 48]);
}

#[test]
fn new_is_the_start_position() {
    let p = Position::new();
    let q = Position::from_fen(START).unwrap();
    for pc in all_pieces() {
        assert_eq!(p.board.bitboard(pc), q.board.bitboard(pc));
    }
    assert_eq!(p.side_to_move, q.side_to_move);
    assert_eq!(p.castling_availability, q.castling_availability);
    assert_eq!(p.halfmove_clock, 0);
    assert_eq!(p.fullmove_counter, 1);
    assert!(p.moves().is_empty());
}

#[test]
fn parsed_bitboards_are_disjoint() {
    let p = Position::from_fen("r1bqkb1r/pppp1ppp/2n2n2/4p3/2B1P3/5N2/PPPP1PPP/RNBQK2R w KQkq - 4 4")
        .unwrap();
    let pieces = all_pieces();
    let mut union = 0u64;
    for a in &pieces {
        for b in &pieces {
            if a != b {
                assert_eq!(p.board.bitboard(*a) & p.board.bitboard(*b), 0);
            }
        }
        union |= p.board.bitboard(*a);
    }
    assert_eq!(union.count_ones(), 32);
}

#[test]
fn adjacent_kings_do_not_collide() {
    let p = Position::from_fen("8/8/8/8/8/8/8/KK6 w - - 0 1").unwrap();
    assert_eq!(p.board.kings[0], 0b11);
    assert_eq!(p.board.kings[1], 0);
}

#[test]
fn overfull_rank_with_two_kings_is_rejected() {
    assert_eq!(error_of("8/8/8/8/8/8/8/K7K w - - 0 1"), Some(FenError::PiecePlacement));
    assert_eq!(error_of("8/8/8/8/8/8/8/8K w - - 0 1"), Some(FenError::PiecePlacement));
}

#[test]
fn rank_summing_to_seven_is_rejected() {
    assert_eq!(error_of("7/8/8/8/8/8/8/8 w - - 0 1"), Some(FenError::PiecePlacement));
    assert_eq!(error_of("8/8/8/8/8/8/8/K6 w - - 0 1"), Some(FenError::PiecePlacement));
}

#[test]
fn rank_summing_to_nine_is_rejected() {
    assert_eq!(error_of("9/8/8/8/8/8/8/8 w - - 0 1"), Some(FenError::PiecePlacement));
    assert_eq!(error_of("8/8/8/8/8/8/8/54 w - - 0 1"), Some(FenError::PiecePlacement));
    assert_eq!(error_of("8/8/8/8/8/8/8/k8 w - - 0 1"), Some(FenError::PiecePlacement));
}

#[test]
fn split_digits_are_accepted() {
    let p = Position::from_fen("8/8/8/8/8/8/8/1111k111 b - - 0 1").unwrap();
    assert_eq!(p.board.kings[1], 1u64 << 4);
    assert_eq!(p.side_to_move, Side::Black);
}

#[test]
fn wrong_number_of_rank_groups_is_rejected() {
    assert_eq!(error_of("8/8/8/8/8/8/8 w - - 0 1"), Some(FenError::PiecePlacement));
    assert_eq!(error_of("8/8/8/8/8/8/8/8/8 w - - 0 1"), Some(FenError::PiecePlacement));
    assert_eq!(error_of("8/8/8/8/8/8/8/8/ w - - 0 1"), Some(FenError::PiecePlacement));
}

#[test]
fn bad_rank_character_is_rejected() {
    assert_eq!(error_of("8/8/8/8/8/8/8/7x w - - 0 1"), Some(FenError::PiecePlacement));
    assert_eq!(error_of("8/8/8/8/8/8/8/08 w - - 0 1"), Some(FenError::PiecePlacement));
}

#[test]
fn side_to_move_must_be_w_or_b() {
    assert_eq!(error_of("8/8/8/8/8/8/8/8 x - - 0 1"), Some(FenError::SideToMove));
    assert_eq!(error_of("8/8/8/8/8/8/8/8 wb - - 0 1"), Some(FenError::SideToMove));
    assert_eq!(parse_side_to_move(&chars("b")), Some(Side::Black));
    assert_eq!(parse_side_to_move(&chars("W")), None);
}

#[test]
fn castling_dash_sets_no_flag() {
    let p = Position::from_fen("8/8/8/8/8/8/8/8 w - - 0 1").unwrap();
    let c = p.castling_availability;
    assert!(!c.white_kingside && !c.white_queenside && !c.black_kingside && !c.black_queenside);
}

#[test]
fn castling_black_letters_only() {
    let p = Position::from_fen("r3k2r/8/8/8/8/8/8/R3K2R w kq - 0 1").unwrap();
    let c = p.castling_availability;
    assert!(!c.white_kingside);
    assert!(!c.white_queenside);
    assert!(c.black_kingside);
    assert!(c.black_queenside);
}

#[test]
fn castling_order_does_not_matter() {
    let a = parse_castling_availability(&chars("qk")).unwrap();
    let b = parse_castling_availability(&chars("kq")).unwrap();
    assert_eq!(a, b);
    let c = parse_castling_availability(&chars("qKkQ")).unwrap();
    assert_eq!(c, parse_castling_availability(&chars("KQkq")).unwrap());
    let q = parse_castling_availability(&chars("Q")).unwrap();
    assert!(q.white_queenside && !q.white_kingside && !q.black_kingside && !q.black_queenside);
}

#[test]
fn malformed_castling_is_rejected() {
    assert_eq!(error_of("8/8/8/8/8/8/8/8 w KK - 0 1"), Some(FenError::CastlingAvailability));
    assert_eq!(error_of("8/8/8/8/8/8/8/8 w Kx - 0 1"), Some(FenError::CastlingAvailability));
    assert_eq!(error_of("8/8/8/8/8/8/8/8 w -K - 0 1"), Some(FenError::CastlingAvailability));
    assert_eq!(parse_castling_availability(&chars("")), None);
}

#[test]
fn en_passant_square_e3() {
    let p = Position::from_fen("rnbqkbnr/pppppppp/8/8/4P3/8/PPPP1PPP/RNBQKBNR b KQkq e3 0 1")
        .unwrap();
    assert_eq!(p.en_passant_target_square, Some(20));
    assert_eq!(parse_en_passant_target_square(&chars("e3")), Some(Some(20)));
}

#[test]
fn en_passant_dash_is_none() {
    assert_eq!(parse_en_passant_target_square(&chars("-")), Some(None));
    assert_eq!(Position::from_fen(START).unwrap().en_passant_target_square, None);
}

#[test]
fn en_passant_corners() {
    assert_eq!(parse_en_passant_target_square(&chars("a1")), Some(Some(0)));
    assert_eq!(parse_en_passant_target_square(&chars("h8")), Some(Some(63)));
}

#[test]
fn malformed_en_passant_is_rejected() {
    assert_eq!(error_of("8/8/8/8/8/8/8/8 w - i3 0 1"), Some(FenError::EnPassantTargetSquare));
    assert_eq!(error_of("8/8/8/8/8/8/8/8 w - e9 0 1"), Some(FenError::EnPassantTargetSquare));
    assert_eq!(error_of("8/8/8/8/8/8/8/8 w - e 0 1"), Some(FenError::EnPassantTargetSquare));
    assert_eq!(error_of("8/8/8/8/8/8/8/8 w - e3x 0 1"), Some(FenError::EnPassantTargetSquare));
}

#[test]
fn fullmove_zero_is_rejected() {
    assert_eq!(error_of("8/8/8/8/8/8/8/8 w - - 0 0"), Some(FenError::FullmoveCounter));
    assert_eq!(error_of("8/8/8/8/8/8/8/8 w - - 0 000"), Some(FenError::FullmoveCounter));
}

#[test]
fn fullmove_one_is_accepted() {
    let p = Position::from_fen("8/8/8/8/8/8/8/8 w - - 0 1").unwrap();
    assert_eq!(p.fullmove_counter, 1);
}

#[test]
fn empty_counters_are_rejected() {
    assert_eq!(error_of("8/8/8/8/8/8/8/8 w - - 0 "), Some(FenError::FullmoveCounter));
    assert_eq!(error_of("8/8/8/8/8/8/8/8 w - -  1"), Some(FenError::HalfmoveClock));
    assert_eq!(parse_halfmove_clock(&chars("")), None);
    assert_eq!(parse_fullmove_counter(&chars("")), None);
}

#[test]
fn counter_bounds() {
    assert_eq!(parse_halfmove_clock(&chars("75")), Some(75));
    assert_eq!(parse_halfmove_clock(&chars("76")), None);
    assert_eq!(parse_halfmove_clock(&chars("0075")), Some(75));
    assert_eq!(parse_fullmove_counter(&chars("8849")), Some(8849));
    assert_eq!(parse_fullmove_counter(&chars("8850")), None);
    assert_eq!(parse_fullmove_counter(&chars("99999999999")), None);
    assert_eq!(error_of("8/8/8/8/8/8/8/8 w - - 76 1"), Some(FenError::HalfmoveClock));
    assert_eq!(error_of("8/8/8/8/8/8/8/8 w - - 1x 1"), Some(FenError::HalfmoveClock));
    assert_eq!(error_of("8/8/8/8/8/8/8/8 w - - 0 1x"), Some(FenError::FullmoveCounter));
}

#[test]
fn counters_are_read() {
    let p = Position::from_fen("8/8/8/8/8/8/8/8 b - - 42 137").unwrap();
    assert_eq!(p.halfmove_clock, 42);
    assert_eq!(p.fullmove_counter, 137);
}

#[test]
fn separator_errors() {
    assert_eq!(error_of(""), Some(FenError::FieldSeparator));
    assert_eq!(error_of("8/8/8/8/8/8/8/8 w - - 0"), Some(FenError::FieldSeparator));
    assert_eq!(error_of("8/8/8/8/8/8/8/8 w - - 0 1 "), Some(FenError::FieldSeparator));
    assert_eq!(error_of("8/8/8/8/8/8/8/8  w - - 0 1"), Some(FenError::FieldSeparator));
}

#[test]
fn square_index_convention() {
    assert_eq!(square(0, 0), 0);
    assert_eq!(square(7, 0), 7);
    assert_eq!(square(0, 1), 8);
    assert_eq!(square(4, 2), 20);
    assert_eq!(square(7, 7), 63);
}

#[test]
fn rank_parser_places_pieces() {
    let mut board = Board::empty();
    assert!(parse_rank(&chars("r3k2r"), 7, &mut board));
    assert_eq!(board.rooks[1], (1u64 << 56) | (1u64 << 63));
    assert_eq!(board.kings[1], 1u64 << 60);
    let mut other = Board::empty();
    assert!(!parse_rank(&chars("r3k3r"), 7, &mut other));
}

#[test]
fn placement_parser_reads_whole_board() {
    let b = parse_piece_placement(&chars("4k3/8/8/8/8/8/4P3/4K3")).unwrap();
    assert_eq!(b.kings, [1u64 << 4, 1u64 << 60]);
    assert_eq!(b.pawns, [1u64 << 12, 0]);
    assert!(parse_piece_placement(&chars("4k3/8/8/8/8/8/4P3")).is_none());
}

#[test]
fn text_helpers() {
    assert_eq!(chars_of("a é"), vec!['a', ' ', 'é']);
    let parts = split_chars(&chars("ab//c/"), '/');
    assert_eq!(parts, vec![vec!['a', 'b'], vec![], vec!['c'], vec![]]);
    assert_eq!(split_chars(&chars(""), '/'), vec![Vec::<char>::new()]);
}

#[test]
fn non_ascii_record_is_rejected() {
    assert_eq!(error_of("8/8/8/8/8/8/8/8 w - - 0 é"), Some(FenError::FullmoveCounter));
    assert_eq!(error_of("8/8/8/8/8/8/8/8 w é - 0 1"), Some(FenError::CastlingAvailability));
}
