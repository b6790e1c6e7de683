//! The fields of a Forsyth–Edwards Notation record, each with its grammar and its parser.
use vstd::prelude::*;

use crate::board::{square, square_index, Board, Piece, PieceKind, Side};
use crate::position::CastlingAvailability;
use crate::text::{split, split_chars};

verus! {

/// The largest halfmove clock a record may carry.
pub const MAX_HALFMOVE_CLOCK: u8 = 75;

/// The largest fullmove counter a record may carry.
pub const MAX_FULLMOVE_COUNTER: u16 = 8849;

/// The piece that a letter of the placement field stands for: upper case for White, lower case
/// for Black.
pub open spec fn piece_of_char(c: char) -> Option<Piece> {
    let white = Side::White;
    let black = Side::Black;
    match c {
        'K' => Some(Piece { side: white, kind: PieceKind::King }),
        'Q' => Some(Piece { side: white, kind: PieceKind::Queen }),
        'R' => Some(Piece { side: white, kind: PieceKind::Rook }),
        'B' => Some(Piece { side: white, kind: PieceKind::Bishop }),
        'N' => Some(Piece { side: white, kind: PieceKind::Knight }),
        'P' => Some(Piece { side: white, kind: PieceKind::Pawn }),
        'k' => Some(Piece { side: black, kind: PieceKind::King }),
        'q' => Some(Piece { side: black, kind: PieceKind::Queen }),
        'r' => Some(Piece { side: black, kind: PieceKind::Rook }),
        'b' => Some(Piece { side: black, kind: PieceKind::Bishop }),
        'n' => Some(Piece { side: black, kind: PieceKind::Knight }),
        'p' => Some(Piece { side: black, kind: PieceKind::Pawn }),
        _ => None,
    }
}

/// A digit that counts empty squares in a rank group.
pub open spec fn is_empty_run(c: char) -> bool {
    '1' <= c <= '8'
}

/// The characters a rank group may hold: `1`..`8` and `KQRBNPkqrbnp`.
pub open spec fn is_rank_char(c: char) -> bool {
    is_empty_run(c) || piece_of_char(c) is Some
}

/// How many files a rank character covers: its value for a digit, one for a piece.
pub open spec fn advance(c: char) -> int {
    if is_empty_run(c) {
        c as int - '0' as int
    } else {
        1
    }
}

/// The number of files that a rank group covers: its digit-advances plus its piece placements.
pub open spec fn rank_sum(g: Seq<char>) -> int
    decreases g.len(),
{
    if g.len() == 0 {
        0
    } else {
        rank_sum(g.drop_last()) + advance(g.last())
    }
}

/// The squares that one rank character stands for, from the lower file up.
pub open spec fn char_cells(c: char) -> Seq<Option<Piece>> {
    if is_empty_run(c) {
        Seq::new(advance(c) as nat, |i: int| None)
    } else {
        seq![piece_of_char(c)]
    }
}

/// The squares of a rank group from file a up.
pub open spec fn rank_cells(g: Seq<char>) -> Seq<Option<Piece>>
    decreases g.len(),
{
    if g.len() == 0 {
        Seq::empty()
    } else {
        rank_cells(g.drop_last()) + char_cells(g.last())
    }
}

/// A rank group: only rank characters, covering exactly eight files.
pub open spec fn valid_rank(g: Seq<char>) -> bool {
    &&& forall|i: int| 0 <= i < g.len() ==> is_rank_char(#[trigger] g[i])
    &&& rank_sum(g) == 8
}

/// The rank groups of a placement field, from rank 8 down to rank 1.
pub open spec fn rank_groups(f: Seq<char>) -> Seq<Seq<char>> {
    split(f, '/')
}

/// Whether a placement field is eight valid rank groups separated by `/`.
pub open spec fn valid_placement(f: Seq<char>) -> bool {
    &&& rank_groups(f).len() == 8
    &&& forall|k: int| 0 <= k < 8 ==> valid_rank(#[trigger] rank_groups(f)[k])
}

/// What stands on square `sq` (0..63) after the rank groups `groups`, the first of them rank 8.
pub open spec fn cell_at(groups: Seq<Seq<char>>, sq: int) -> Option<Piece> {
    rank_cells(groups[7 - sq / 8])[sq % 8]
}

/// The 64 squares that a placement field describes, or `None` where it is malformed.
pub open spec fn placement_of(f: Seq<char>) -> Option<Seq<Option<Piece>>> {
    if valid_placement(f) {
        Some(Seq::new(64, |sq: int| cell_at(rank_groups(f), sq)))
    } else {
        None
    }
}

/// The side-to-move field: exactly `w` or `b`.
pub open spec fn side_of(f: Seq<char>) -> Option<Side> {
    if f == seq!['w'] {
        Some(Side::White)
    } else if f == seq!['b'] {
        Some(Side::Black)
    } else {
        None
    }
}

/// A letter of the castling field.
pub open spec fn is_castling_char(c: char) -> bool {
    c == 'K' || c == 'Q' || c == 'k' || c == 'q'
}

/// The castling field: `-`, or one or more of `K`, `Q`, `k`, `q`, each at most once and in any
/// order; each flag is set when its letter is present.
pub open spec fn castling_of(f: Seq<char>) -> Option<CastlingAvailability> {
    if f == seq!['-'] {
        Some(
            CastlingAvailability {
                white_kingside: false,
                white_queenside: false,
                black_kingside: false,
                black_queenside: false,
            },
        )
    } else if f.len() > 0 && (forall|i: int| 0 <= i < f.len() ==> is_castling_char(#[trigger] f[i]))
        && f.no_duplicates() {
        Some(
            CastlingAvailability {
                white_kingside: f.contains('K'),
                white_queenside: f.contains('Q'),
                black_kingside: f.contains('k'),
                black_queenside: f.contains('q'),
            },
        )
    } else {
        None
    }
}

/// The en-passant field: `-` for none, or a file letter `a`..`h` followed by a rank digit
/// `1`..`8`, giving that square.
pub open spec fn en_passant_of(f: Seq<char>) -> Option<Option<u8>> {
    if f == seq!['-'] {
        Some(None)
    } else if f.len() == 2 && 'a' <= f[0] <= 'h' && '1' <= f[1] <= '8' {
        Some(Some(square_index(f[0] as int - 'a' as int, f[1] as int - '1' as int) as u8))
    } else {
        None
    }
}

/// A decimal digit.
pub open spec fn is_digit(c: char) -> bool {
    '0' <= c <= '9'
}

/// One or more decimal digits.
pub open spec fn is_digit_run(f: Seq<char>) -> bool {
    f.len() > 0 && forall|i: int| 0 <= i < f.len() ==> is_digit(#[trigger] f[i])
}

/// The value of a run of decimal digits.
pub open spec fn decimal_value(f: Seq<char>) -> nat
    decreases f.len(),
{
    if f.len() == 0 {
        0
    } else {
        decimal_value(f.drop_last()) * 10 + (f.last() as nat - '0' as nat) as nat
    }
}

/// The halfmove clock field: a digit run worth at most the largest halfmove clock.
pub open spec fn halfmove_of(f: Seq<char>) -> Option<u8> {
    if is_digit_run(f) && decimal_value(f) <= MAX_HALFMOVE_CLOCK {
        Some(decimal_value(f) as u8)
    } else {
        None
    }
}

/// The fullmove counter field: a digit run worth at least one and at most the largest fullmove
/// counter.
pub open spec fn fullmove_of(f: Seq<char>) -> Option<u16> {
    if is_digit_run(f) && 1 <= decimal_value(f) <= MAX_FULLMOVE_COUNTER {
        Some(decimal_value(f) as u16)
    } else {
        None
    }
}

/// The piece that a letter of the placement field stands for.
pub fn piece_for(c: char) -> (r: Option<Piece>)
    ensures
        r == piece_of_char(c),
{
    let white = Side::White;
    let black = Side::Black;
    match c {
        'K' => Some(Piece { side: white, kind: PieceKind::King }),
        'Q' => Some(Piece { side: white, kind: PieceKind::Queen }),
        'R' => Some(Piece { side: white, kind: PieceKind::Rook }),
        'B' => Some(Piece { side: white, kind: PieceKind::Bishop }),
        'N' => Some(Piece { side: white, kind: PieceKind::Knight }),
        'P' => Some(Piece { side: white, kind: PieceKind::Pawn }),
        'k' => Some(Piece { side: black, kind: PieceKind::King }),
        'q' => Some(Piece { side: black, kind: PieceKind::Queen }),
        'r' => Some(Piece { side: black, kind: PieceKind::Rook }),
        'b' => Some(Piece { side: black, kind: PieceKind::Bishop }),
        'n' => Some(Piece { side: black, kind: PieceKind::Knight }),
        'p' => Some(Piece { side: black, kind: PieceKind::Pawn }),
        _ => None,
    }
}

/// A rank group lists one square for each file it covers.
pub proof fn lemma_rank_cells_len(g: Seq<char>)
    ensures
        rank_cells(g).len() == rank_sum(g),
    decreases g.len(),
{
    if g.len() > 0 {
        lemma_rank_cells_len(g.drop_last());
    }
}

/// The beginning of a rank group covers no more files than the whole group.
pub proof fn lemma_rank_sum_prefix(g: Seq<char>, i: int)
    requires
        0 <= i <= g.len(),
    ensures
        rank_sum(g.take(i)) <= rank_sum(g),
    decreases g.len(),
{
    if i < g.len() {
        lemma_rank_sum_prefix(g.drop_last(), i);
        assert(g.drop_last().take(i) =~= g.take(i));
    } else {
        assert(g.take(i) =~= g);
    }
}

/// The squares of rank index `rank` are those whose index divided by eight is `rank`.
proof fn lemma_square_in_rank(rank: int, sq: int)
    requires
        0 <= rank < 8,
        rank * 8 <= sq < rank * 8 + 8,
    ensures
        sq / 8 == rank,
        sq % 8 == sq - rank * 8,
{
}

/// Reads one rank group onto rank index `rank` (0 for rank 1) of `board`. When it is well formed,
/// the pieces it names are added to that rank; `board` is left in an unspecified state otherwise.
pub fn parse_rank(g: &Vec<char>, rank: u8, board: &mut Board) -> (ok: bool)
    requires
        rank < 8,
    ensures
        ok == valid_rank(g@),
        ok ==> forall|q: Piece, sq: int|
            #[trigger] final(board).occupies(q, sq) <==> (old(board).occupies(q, sq) || (rank * 8
                <= sq < rank * 8 + 8 && rank_cells(g@)[sq - rank * 8] == Some(q))),
{
    let base: u8 = rank * 8;
    let mut file: u8 = 0;
    let mut i: usize = 0;
    assert(g@.take(0) =~= Seq::<char>::empty());
    while i < g.len()
        invariant
            rank < 8,
            base == rank * 8,
            i <= g.len(),
            file <= 8,
            file as int == rank_sum(g@.take(i as int)),
            rank_cells(g@.take(i as int)).len() == file,
            forall|j: int| 0 <= j < i ==> is_rank_char(#[trigger] g@[j]),
            forall|q: Piece, sq: int|
                #[trigger] board.occupies(q, sq) <==> (old(board).occupies(q, sq) || (base <= sq
                    < base + file && rank_cells(g@.take(i as int))[sq - base] == Some(q))),
        decreases g.len() - i,
    {
        let c = g[i];
        let ghost before = g@.take(i as int);
        let ghost after = g@.take(i + 1);
        proof {
            assert(after.drop_last() =~= before);
            lemma_rank_cells_len(after);
        }
        if '1' <= c && c <= '8' {
            let run = (c as u32 - '0' as u32) as u8;
            if file + run > 8 {
                proof {
                    lemma_rank_sum_prefix(g@, i + 1);
                }
                return false;
            }
            let ghost old_file = file;
            file = file + run;
            assert forall|q: Piece, sq: int|
                #[trigger] board.occupies(q, sq) <==> (old(board).occupies(q, sq) || (base <= sq
                    < base + file && rank_cells(after)[sq - base] == Some(q))) by {
                if base + old_file <= sq < base + file {
                    assert(rank_cells(after)[sq - base] == char_cells(c)[sq - base - old_file]);
                } else if base <= sq < base + old_file {
                    assert(rank_cells(after)[sq - base] == rank_cells(before)[sq - base]);
                }
            }
        } else {
            let piece = match piece_for(c) {
                Some(p) => p,
                None => {
                    assert(!is_rank_char(g@[i as int]));
                    return false;
                },
            };
            if file >= 8 {
                proof {
                    lemma_rank_sum_prefix(g@, i + 1);
                }
                return false;
            }
            let ghost mid = *board;
            board.place(piece, base + file);
            let ghost old_file = file;
            file = file + 1;
            assert forall|q: Piece, sq: int|
                #[trigger] board.occupies(q, sq) <==> (old(board).occupies(q, sq) || (base <= sq
                    < base + file && rank_cells(after)[sq - base] == Some(q))) by {
                if sq == base + old_file {
                    assert(rank_cells(after)[sq - base] == Some(piece));
                } else if base <= sq < base + old_file {
                    assert(rank_cells(after)[sq - base] == rank_cells(before)[sq - base]);
                    assert(mid.occupies(q, sq) == board.occupies(q, sq));
                } else {
                    assert(mid.occupies(q, sq) == board.occupies(q, sq));
                }
            }
        }
        i = i + 1;
    }
    assert(g@.take(i as int) =~= g@);
    file == 8
}

/// Reads the piece placement field onto an empty board.
pub fn parse_piece_placement(f: &Vec<char>) -> (r: Option<Board>)
    ensures
        match placement_of(f@) {
            Some(cells) => r is Some && r->0.holds(cells),
            None => r is None,
        },
{
    let groups = split_chars(f, '/');
    if groups.len() != 8 {
        return None;
    }
    let mut board = Board::empty();
    let mut k: usize = 0;
    while k < 8
        invariant
            k <= 8,
            groups@.len() == 8,
            rank_groups(f@).len() == 8,
            forall|j: int| 0 <= j < 8 ==> #[trigger] groups@[j]@ == rank_groups(f@)[j],
            forall|j: int| 0 <= j < k ==> valid_rank(#[trigger] rank_groups(f@)[j]),
            forall|q: Piece, sq: int|
                #[trigger] board.occupies(q, sq) <==> (8 * (8 - k) <= sq < 64 && cell_at(
                    rank_groups(f@),
                    sq,
                ) == Some(q)),
        decreases 8 - k,
    {
        let rank = (7 - k) as u8;
        let ghost mid = board;
        let ok = parse_rank(&groups[k], rank, &mut board);
        if !ok {
            assert(!valid_placement(f@));
            return None;
        }
        assert forall|q: Piece, sq: int|
            #[trigger] board.occupies(q, sq) <==> (8 * (8 - (k + 1)) <= sq < 64 && cell_at(
                rank_groups(f@),
                sq,
            ) == Some(q)) by {
            assert(mid.occupies(q, sq) <==> (8 * (8 - k) <= sq < 64 && cell_at(
                rank_groups(f@),
                sq,
            ) == Some(q)));
            if rank * 8 <= sq < rank * 8 + 8 {
                lemma_square_in_rank(rank as int, sq);
            }
        }
        k = k + 1;
    }
    let ghost cells = Seq::new(64, |sq: int| cell_at(rank_groups(f@), sq));
    assert(board.holds(cells));
    Some(board)
}

/// Reads the side-to-move field.
pub fn parse_side_to_move(f: &Vec<char>) -> (r: Option<Side>)
    ensures
        r == side_of(f@),
{
    if f.len() == 1 && f[0] == 'w' {
        assert(f@ =~= seq!['w']);
        Some(Side::White)
    } else if f.len() == 1 && f[0] == 'b' {
        assert(f@ =~= seq!['b']);
        Some(Side::Black)
    } else {
        assert(f@ == seq!['w'] ==> f@[0] == 'w');
        assert(f@ == seq!['b'] ==> f@[0] == 'b');
        None
    }
}

/// Reads the castling field. The letters may come in any order; a letter given twice, an empty
/// field or any other character makes the field malformed.
pub fn parse_castling_availability(f: &Vec<char>) -> (r: Option<CastlingAvailability>)
    ensures
        r == castling_of(f@),
{
    if f.len() == 1 && f[0] == '-' {
        assert(f@ =~= seq!['-']);
        return Some(
            CastlingAvailability {
                white_kingside: false,
                white_queenside: false,
                black_kingside: false,
                black_queenside: false,
            },
        );
    }
    assert(f@ != seq!['-']) by {
        if f@ == seq!['-'] {
            assert(f@[0] == '-');
        }
    }
    if f.len() == 0 {
        return None;
    }
    let mut white_kingside = false;
    let mut white_queenside = false;
    let mut black_kingside = false;
    let mut black_queenside = false;
    let mut i: usize = 0;
    while i < f.len()
        invariant
            i <= f.len(),
            f@ != seq!['-'],
            f.len() > 0,
            forall|j: int| 0 <= j < i ==> is_castling_char(#[trigger] f@[j]),
            forall|j: int, k: int| 0 <= j < k < i ==> f@[j] != f@[k],
            white_kingside == f@.take(i as int).contains('K'),
            white_queenside == f@.take(i as int).contains('Q'),
            black_kingside == f@.take(i as int).contains('k'),
            black_queenside == f@.take(i as int).contains('q'),
        decreases f.len() - i,
    {
        let c = f[i];
        let seen = if c == 'K' {
            white_kingside
        } else if c == 'Q' {
            white_queenside
        } else if c == 'k' {
            black_kingside
        } else if c == 'q' {
            black_queenside
        } else {
            assert(!is_castling_char(f@[i as int]));
            return None;
        };
        if seen {
            proof {
                let j = choose|j: int| 0 <= j < i && f@.take(i as int)[j] == c;
                assert(f@[j] == f@[i as int]);
            }
            return None;
        }
        assert forall|j: int| 0 <= j < i implies f@[j] != f@[i as int] by {
            assert(f@.take(i as int)[j] == f@[j]);
        }
        if c == 'K' {
            white_kingside = true;
        } else if c == 'Q' {
            white_queenside = true;
        } else if c == 'k' {
            black_kingside = true;
        } else {
            black_queenside = true;
        }
        proof {
            let before = f@.take(i as int);
            let after = f@.take(i + 1);
            assert(after =~= before.push(c));
            assert forall|x: char| #[trigger] after.contains(x) <==> (before.contains(x) || x == c) by {
                if before.contains(x) {
                    let j = choose|j: int| 0 <= j < before.len() && before[j] == x;
                    assert(after[j] == x);
                }
                if x == c {
                    assert(after[i as int] == x);
                }
                if after.contains(x) && x != c {
                    let j = choose|j: int| 0 <= j < after.len() && after[j] == x;
                    assert(before[j] == x);
                }
            }
        }
        i = i + 1;
    }
    assert(f@.take(i as int) =~= f@);
    assert(f@.no_duplicates()) by {
        assert forall|j: int, k: int|
            0 <= j < f@.len() && 0 <= k < f@.len() && j != k implies f@[j] != f@[k] by {
            if j > k {
                assert(f@[k] != f@[j]);
            }
        }
    }
    Some(
        CastlingAvailability {
            white_kingside,
            white_queenside,
            black_kingside,
            black_queenside,
        },
    )
}

/// Reads the en-passant field.
pub fn parse_en_passant_target_square(f: &Vec<char>) -> (r: Option<Option<u8>>)
    ensures
        r == en_passant_of(f@),
{
    if f.len() == 1 && f[0] == '-' {
        assert(f@ =~= seq!['-']);
        Some(None)
    } else if f.len() == 2 && 'a' <= f[0] && f[0] <= 'h' && '1' <= f[1] && f[1] <= '8' {
        assert(f@ != seq!['-']);
        let file = (f[0] as u32 - 'a' as u32) as u8;
        let rank = (f[1] as u32 - '1' as u32) as u8;
        Some(Some(square(file, rank)))
    } else {
        assert(f@ != seq!['-']) by {
            if f@ == seq!['-'] {
                assert(f@[0] == '-');
            }
        }
        None
    }
}

/// A longer run of digits is worth at least as much as its beginning.
proof fn lemma_decimal_prefix(f: Seq<char>, i: int)
    requires
        0 <= i <= f.len(),
    ensures
        decimal_value(f.take(i)) <= decimal_value(f),
    decreases f.len(),
{
    if i < f.len() {
        lemma_decimal_prefix(f.drop_last(), i);
        assert(f.drop_last().take(i) =~= f.take(i));
    } else {
        assert(f.take(i) =~= f);
    }
}

/// Reads a run of decimal digits worth at most `max`.
fn parse_decimal(f: &Vec<char>, max: u32) -> (r: Option<u32>)
    requires
        max < 100_000,
    ensures
        r == (if is_digit_run(f@) && decimal_value(f@) <= max {
            Some(decimal_value(f@) as u32)
        } else {
            None
        }),
{
    if f.len() == 0 {
        return None;
    }
    let mut value: u32 = 0;
    let mut i: usize = 0;
    assert(f@.take(0) =~= Seq::<char>::empty());
    while i < f.len()
        invariant
            i <= f.len(),
            max < 100_000,
            f.len() > 0,
            forall|j: int| 0 <= j < i ==> is_digit(#[trigger] f@[j]),
            value == decimal_value(f@.take(i as int)),
            value <= max,
        decreases f.len() - i,
    {
        let c = f[i];
        if c < '0' || c > '9' {
            assert(!is_digit(f@[i as int]));
            return None;
        }
        let digit = c as u32 - '0' as u32;
        assert(f@.take(i + 1).drop_last() =~= f@.take(i as int));
        value = value * 10 + digit;
        if value > max {
            proof {
                lemma_decimal_prefix(f@, i + 1);
            }
            return None;
        }
        i = i + 1;
    }
    assert(f@.take(i as int) =~= f@);
    Some(value)
}

/// Reads the halfmove clock field.
pub fn parse_halfmove_clock(f: &Vec<char>) -> (r: Option<u8>)
    ensures
        r == halfmove_of(f@),
{
    match parse_decimal(f, MAX_HALFMOVE_CLOCK as u32) {
        Some(v) => Some(v as u8),
        None => None,
    }
}

/// Reads the fullmove counter field.
pub fn parse_fullmove_counter(f: &Vec<char>) -> (r: Option<u16>)
    ensures
        r == fullmove_of(f@),
{
    match parse_decimal(f, MAX_FULLMOVE_COUNTER as u32) {
        Some(v) => {
            if v == 0 {
                None
            } else {
                Some(v as u16)
            }
        },
        None => None,
    }
}

} // verus!
