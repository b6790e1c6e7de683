//! Squares, pieces and the twelve bitboards of a chess board.
use vstd::prelude::*;

verus! {

/// The side a piece belongs to, or the side whose turn it is.
#[derive(Clone, Copy, Debug, PartialEq, Eq, Structural)]
pub enum Side {
    White,
    Black,
}

/// The six kinds of chess pieces.
#[derive(Clone, Copy, Debug, PartialEq, Eq, Structural)]
pub enum PieceKind {
    King,
    Queen,
    Rook,
    Bishop,
    Knight,
    Pawn,
}

/// A piece of one kind and one side.
#[derive(Clone, Copy, Debug, PartialEq, Eq, Structural)]
pub struct Piece {
    pub side: Side,
    pub kind: PieceKind,
}

/// Index of a side in the two-element bitboard arrays: White is 0, Black is 1.
pub open spec fn side_index(side: Side) -> int {
    match side {
        Side::White => 0,
        Side::Black => 1,
    }
}

/// Whether bit `n` of `bits` is set.
pub open spec fn bit_set(bits: u64, n: u64) -> bool {
    (bits >> n) & 1u64 == 1u64
}

/// The square with file `file` (a = 0 .. h = 7) and rank index `rank` (rank 1 = 0 .. rank 8 = 7):
/// a1 is 0, h1 is 7, a2 is 8, h8 is 63.
pub open spec fn square_index(file: int, rank: int) -> int {
    rank * 8 + file
}

/// The square with file `file` (0..7) and rank index `rank` (0..7).
pub fn square(file: u8, rank: u8) -> (r: u8)
    requires
        file < 8,
        rank < 8,
    ensures
        r as int == square_index(file as int, rank as int),
        r < 64,
{
    rank * 8 + file
}

/// Twelve bitboards, one for each kind of piece and side: bit `n` of a bitboard is set when a
/// piece of that kind and side stands on square `n`. Each array holds White's bitboard at 0 and
/// Black's at 1.
#[derive(Clone, Copy, Debug)]
pub struct Board {
    pub kings: [u64; 2],
    pub queens: [u64; 2],
    pub rooks: [u64; 2],
    pub bishops: [u64; 2],
    pub knights: [u64; 2],
    pub pawns: [u64; 2],
}

impl Board {
    /// The bitboard of piece `p`.
    pub open spec fn spec_bitboard(self, p: Piece) -> u64 {
        let i = side_index(p.side);
        match p.kind {
            PieceKind::King => self.kings[i],
            PieceKind::Queen => self.queens[i],
            PieceKind::Rook => self.rooks[i],
            PieceKind::Bishop => self.bishops[i],
            PieceKind::Knight => self.knights[i],
            PieceKind::Pawn => self.pawns[i],
        }
    }

    /// Whether piece `p` stands on square `sq` (0..63).
    pub open spec fn occupies(self, p: Piece, sq: int) -> bool {
        0 <= sq < 64 && bit_set(self.spec_bitboard(p), sq as u64)
    }

    /// Whether the board holds on each square exactly the piece that `cells` gives for it
    /// (`None` for an empty square).
    pub open spec fn holds(self, cells: Seq<Option<Piece>>) -> bool {
        &&& cells.len() == 64
        &&& forall|p: Piece, sq: int|
            0 <= sq < 64 ==> (#[trigger] self.occupies(p, sq) <==> cells[sq] == Some(p))
    }

    /// The board with no pieces.
    pub fn empty() -> (r: Board)
        ensures
            forall|p: Piece, sq: int| !(#[trigger] r.occupies(p, sq)),
    {
        let r = Board {
            kings: [0u64; 2],
            queens: [0u64; 2],
            rooks: [0u64; 2],
            bishops: [0u64; 2],
            knights: [0u64; 2],
            pawns: [0u64; 2],
        };
        assert forall|p: Piece, sq: int| !(#[trigger] r.occupies(p, sq)) by {
            if 0 <= sq < 64 {
                lemma_empty_bits(sq as u64);
            }
        }
        r
    }

    /// The bitboard of piece `p`.
    pub fn bitboard(&self, p: Piece) -> (r: u64)
        ensures
            r == self.spec_bitboard(p),
    {
        let i: usize = match p.side {
            Side::White => 0,
            Side::Black => 1,
        };
        match p.kind {
            PieceKind::King => self.kings[i],
            PieceKind::Queen => self.queens[i],
            PieceKind::Rook => self.rooks[i],
            PieceKind::Bishop => self.bishops[i],
            PieceKind::Knight => self.knights[i],
            PieceKind::Pawn => self.pawns[i],
        }
    }

    /// Puts piece `p` on square `sq`, leaving every other bit of every bitboard as it was.
    pub fn place(&mut self, p: Piece, sq: u8)
        requires
            sq < 64,
        ensures
            forall|q: Piece, n: int|
                #[trigger] final(self).occupies(q, n) <==> (old(self).occupies(q, n) || (q == p
                    && n == sq)),
    {
        let i: usize = match p.side {
            Side::White => 0,
            Side::Black => 1,
        };
        let bit = 1u64 << sq;
        match p.kind {
            PieceKind::King => self.kings[i] = self.kings[i] | bit,
            PieceKind::Queen => self.queens[i] = self.queens[i] | bit,
            PieceKind::Rook => self.rooks[i] = self.rooks[i] | bit,
            PieceKind::Bishop => self.bishops[i] = self.bishops[i] | bit,
            PieceKind::Knight => self.knights[i] = self.knights[i] | bit,
            PieceKind::Pawn => self.pawns[i] = self.pawns[i] | bit,
        }
        assert forall|q: Piece, n: int|
            #[trigger] self.occupies(q, n) <==> (old(self).occupies(q, n) || (q == p && n
                == sq)) by {
            if 0 <= n < 64 {
                lemma_set_bit(old(self).spec_bitboard(q), sq as u64, n as u64);
            }
        }
    }
}

/// Setting bit `sq` of `bits` sets that bit and keeps every other one.
pub proof fn lemma_set_bit(bits: u64, sq: u64, n: u64)
    requires
        sq < 64,
        n < 64,
    ensures
        bit_set(bits | (1u64 << sq), n) <==> (bit_set(bits, n) || n == sq),
{
    assert(((bits | (1u64 << sq)) >> n) & 1u64 == 1u64 <==> (((bits >> n) & 1u64 == 1u64) || n == sq))
        by (bit_vector)
        requires
            sq < 64,
            n < 64,
    ;
}

/// No bit of the empty bitboard is set.
pub proof fn lemma_empty_bits(n: u64)
    ensures
        !bit_set(0u64, n),
{
    assert((0u64 >> n) & 1u64 != 1u64) by (bit_vector);
}

} // verus!
