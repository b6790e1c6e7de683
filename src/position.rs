//! Positions: the board together with the rest of the game state that a record carries.
use vstd::prelude::*;

use crate::board::{Board, Piece, Side};
use crate::fen::{
    castling_of, en_passant_of, fullmove_of, halfmove_of, parse_castling_availability,
    parse_en_passant_target_square, parse_fullmove_counter, parse_halfmove_clock,
    parse_piece_placement, parse_side_to_move, placement_of, side_of,
};
use crate::fen::{decimal_value, rank_groups, rank_sum, valid_rank};
use crate::text::{chars_of, lemma_split_append, lemma_split_without_sep, split, split_chars};

verus! {

/// Which of the four castling moves are still available.
#[derive(Clone, Copy, Debug, PartialEq, Eq, Structural)]
pub struct CastlingAvailability {
    pub white_kingside: bool,
    pub white_queenside: bool,
    pub black_kingside: bool,
    pub black_queenside: bool,
}

/// Why a record was rejected: the field at fault, or the separators between fields.
#[derive(Clone, Copy, Debug, PartialEq, Eq, Structural)]
pub enum FenError {
    /// The record is not six fields separated by single spaces.
    FieldSeparator,
    /// A rank group holds another character, covers other than eight files, or there are not
    /// eight rank groups separated by `/`.
    PiecePlacement,
    /// The side to move is not exactly `w` or `b`.
    SideToMove,
    /// The castling field is neither `-` nor distinct letters among `KQkq`.
    CastlingAvailability,
    /// The en-passant field is neither `-` nor a square `a1`..`h8`.
    EnPassantTargetSquare,
    /// The halfmove clock is not a digit run worth at most the largest halfmove clock.
    HalfmoveClock,
    /// The fullmove counter is not a digit run worth between one and the largest fullmove
    /// counter.
    FullmoveCounter,
}

/// A chess position: the pieces on the board, the side to move, castling availability, the
/// en-passant target square if any, and the two move counters.
#[derive(Clone, Copy, Debug)]
pub struct Position {
    pub board: Board,
    pub side_to_move: Side,
    pub castling_availability: CastlingAvailability,
    pub en_passant_target_square: Option<u8>,
    pub halfmove_clock: u8,
    pub fullmove_counter: u16,
}

/// A move from one square to another.
#[derive(Clone, Copy, Debug, PartialEq, Eq, Structural)]
pub struct Move {
    pub from: u8,
    pub to: u8,
}

/// What a position holds, with the board given square by square (index 0 is a1, 63 is h8).
pub struct PositionModel {
    pub squares: Seq<Option<Piece>>,
    pub side_to_move: Side,
    pub castling_availability: CastlingAvailability,
    pub en_passant_target_square: Option<u8>,
    pub halfmove_clock: u8,
    pub fullmove_counter: u16,
}

/// The fields of a record: the pieces between single spaces.
pub open spec fn record_fields(s: Seq<char>) -> Seq<Seq<char>> {
    split(s, ' ')
}

/// What a record describes, or why it is rejected: the record must have six fields, and the first
/// malformed field, in the order of the record, gives the error.
pub open spec fn parse_record(s: Seq<char>) -> Result<PositionModel, FenError> {
    let f = record_fields(s);
    if f.len() != 6 {
        Err(FenError::FieldSeparator)
    } else if placement_of(f[0]) is None {
        Err(FenError::PiecePlacement)
    } else if side_of(f[1]) is None {
        Err(FenError::SideToMove)
    } else if castling_of(f[2]) is None {
        Err(FenError::CastlingAvailability)
    } else if en_passant_of(f[3]) is None {
        Err(FenError::EnPassantTargetSquare)
    } else if halfmove_of(f[4]) is None {
        Err(FenError::HalfmoveClock)
    } else if fullmove_of(f[5]) is None {
        Err(FenError::FullmoveCounter)
    } else {
        Ok(
            PositionModel {
                squares: placement_of(f[0])->0,
                side_to_move: side_of(f[1])->0,
                castling_availability: castling_of(f[2])->0,
                en_passant_target_square: en_passant_of(f[3])->0,
                halfmove_clock: halfmove_of(f[4])->0,
                fullmove_counter: fullmove_of(f[5])->0,
            },
        )
    }
}

/// Whether `r` is what reading record `s` must give: a position holding exactly what the record
/// describes, or the error that `parse_record` names.
pub open spec fn parses_to(s: Seq<char>, r: Result<Position, FenError>) -> bool {
    match parse_record(s) {
        Ok(m) => r is Ok && r->Ok_0.models(m),
        Err(e) => r == Err::<Position, FenError>(e),
    }
}

/// The record of the standard starting position.
pub open spec fn start_record() -> Seq<char> {
    "rnbqkbnr/pppppppp/8/8/8/8/PPPPPPPP/RNBQKBNR w KQkq - 0 1"@
}

/// `a`, the separator, then `b`.
spec fn joined(a: Seq<char>, sep: char, b: Seq<char>) -> Seq<char> {
    a + seq![sep] + b
}

/// The record of the standard starting position is well formed.
pub proof fn lemma_start_record_accepted()
    ensures
        parse_record(start_record()) is Ok,
{
    reveal_strlit("rnbqkbnr/pppppppp/8/8/8/8/PPPPPPPP/RNBQKBNR w KQkq - 0 1");
    let black_back = seq!['r', 'n', 'b', 'q', 'k', 'b', 'n', 'r'];
    let black_pawns = seq!['p', 'p', 'p', 'p', 'p', 'p', 'p', 'p'];
    let empty = seq!['8'];
    let white_pawns = seq!['P', 'P', 'P', 'P', 'P', 'P', 'P', 'P'];
    let white_back = seq!['R', 'N', 'B', 'Q', 'K', 'B', 'N', 'R'];
    let r1 = joined(black_back, '/', black_pawns);
    let r2 = joined(r1, '/', empty);
    let r3 = joined(r2, '/', empty);
    let r4 = joined(r3, '/', empty);
    let r5 = joined(r4, '/', empty);
    let r6 = joined(r5, '/', white_pawns);
    let placement = joined(r6, '/', white_back);
    lemma_split_without_sep(black_back, '/');
    lemma_split_append(black_back, black_pawns, '/');
    lemma_split_append(r1, empty, '/');
    lemma_split_append(r2, empty, '/');
    lemma_split_append(r3, empty, '/');
    lemma_split_append(r4, empty, '/');
    lemma_split_append(r5, white_pawns, '/');
    lemma_split_append(r6, white_back, '/');
    let groups = seq![
        black_back,
        black_pawns,
        empty,
        empty,
        empty,
        empty,
        white_pawns,
        white_back,
    ];
    assert(rank_groups(placement) =~= groups);
    reveal_with_fuel(rank_sum, 9);
    assert(valid_rank(black_back));
    assert(valid_rank(black_pawns));
    assert(valid_rank(empty));
    assert(valid_rank(white_pawns));
    assert(valid_rank(white_back));
    assert forall|k: int| 0 <= k < 8 implies valid_rank(#[trigger] rank_groups(placement)[k]) by {
        assert(rank_groups(placement)[k] == groups[k]);
    }
    let castling = seq!['K', 'Q', 'k', 'q'];
    let f1 = joined(placement, ' ', seq!['w']);
    let f2 = joined(f1, ' ', castling);
    let f3 = joined(f2, ' ', seq!['-']);
    let f4 = joined(f3, ' ', seq!['0']);
    let f5 = joined(f4, ' ', seq!['1']);
    assert(start_record() =~= f5);
    lemma_split_without_sep(placement, ' ');
    lemma_split_append(placement, seq!['w'], ' ');
    lemma_split_append(f1, castling, ' ');
    lemma_split_append(f2, seq!['-'], ' ');
    lemma_split_append(f3, seq!['0'], ' ');
    lemma_split_append(f4, seq!['1'], ' ');
    let fields = seq![placement, seq!['w'], castling, seq!['-'], seq!['0'], seq!['1']];
    assert(record_fields(start_record()) =~= fields);
    reveal_with_fuel(decimal_value, 2);
    assert(decimal_value(seq!['0']) == 0);
    assert(decimal_value(seq!['1']) == 1);
    assert(halfmove_of(fields[4]) is Some);
    assert(fullmove_of(fields[5]) is Some);
}

impl Position {
    /// The standard starting position, read from its record.
    pub fn new() -> (r: Position)
        ensures
            parses_to(start_record(), Ok(r)),
    {
        proof {
            lemma_start_record_accepted();
        }
        let r = Position::from_fen("rnbqkbnr/pppppppp/8/8/8/8/PPPPPPPP/RNBQKBNR w KQkq - 0 1");
        r.unwrap()
    }

    /// Reads a position from a Forsyth–Edwards Notation record. Nothing of a rejected record is
    /// returned.
    pub fn from_fen(record: &str) -> (r: Result<Position, FenError>)
        ensures
            parses_to(record@, r),
    {
        let chars = chars_of(record);
        let fields = split_chars(&chars, ' ');
        if fields.len() != 6 {
            return Err(FenError::FieldSeparator);
        }
        let board = match parse_piece_placement(&fields[0]) {
            Some(b) => b,
            None => return Err(FenError::PiecePlacement),
        };
        let side_to_move = match parse_side_to_move(&fields[1]) {
            Some(side) => side,
            None => return Err(FenError::SideToMove),
        };
        let castling_availability = match parse_castling_availability(&fields[2]) {
            Some(c) => c,
            None => return Err(FenError::CastlingAvailability),
        };
        let en_passant_target_square = match parse_en_passant_target_square(&fields[3]) {
            Some(sq) => sq,
            None => return Err(FenError::EnPassantTargetSquare),
        };
        let halfmove_clock = match parse_halfmove_clock(&fields[4]) {
            Some(n) => n,
            None => return Err(FenError::HalfmoveClock),
        };
        let fullmove_counter = match parse_fullmove_counter(&fields[5]) {
            Some(n) => n,
            None => return Err(FenError::FullmoveCounter),
        };
        Ok(
            Position {
                board,
                side_to_move,
                castling_availability,
                en_passant_target_square,
                halfmove_clock,
                fullmove_counter,
            },
        )
    }

    /// The moves available in this position. Move generation is not provided: the list is
    /// always empty.
    pub fn moves(&self) -> (r: Vec<Move>)
        ensures
            r@.len() == 0,
    {
        Vec::new()
    }

    /// Whether this position holds exactly what `m` describes.
    pub open spec fn models(self, m: PositionModel) -> bool {
        &&& self.board.holds(m.squares)
        &&& self.side_to_move == m.side_to_move
        &&& self.castling_availability == m.castling_availability
        &&& self.en_passant_target_square == m.en_passant_target_square
        &&& self.halfmove_clock == m.halfmove_clock
        &&& self.fullmove_counter == m.fullmove_counter
    }
}

} // verus!
