//! Properties of reading records that relate several parts of the library.
use vstd::prelude::*;

use crate::board::Piece;
use crate::fen::{castling_of, is_castling_char, rank_groups, rank_sum};
use crate::position::{parse_record, parses_to, record_fields, FenError, Position, PositionModel};

verus! {

/// Every rank group of an accepted record covers exactly eight files: its digit-advances and
/// piece placements sum to eight.
pub proof fn lemma_accepted_ranks_cover_eight_files(s: Seq<char>)
    requires
        parse_record(s) is Ok,
    ensures
        rank_groups(record_fields(s)[0]).len() == 8,
        forall|k: int|
            0 <= k < 8 ==> rank_sum(#[trigger] rank_groups(record_fields(s)[0])[k]) == 8,
{
}

/// A record of six fields with a rank group that covers fewer or more than eight files is rejected
/// for its piece placement.
pub proof fn lemma_rank_sum_mismatch_rejected(s: Seq<char>, k: int)
    requires
        record_fields(s).len() == 6,
        0 <= k < rank_groups(record_fields(s)[0]).len(),
        rank_sum(rank_groups(record_fields(s)[0])[k]) != 8,
    ensures
        parse_record(s) == Err::<PositionModel, FenError>(FenError::PiecePlacement),
{
}

/// No square is set in two bitboards of a position read from a record.
pub proof fn lemma_parsed_bitboards_disjoint(s: Seq<char>, p: Position)
    requires
        parses_to(s, Ok(p)),
    ensures
        forall|a: Piece, b: Piece, sq: int|
            #[trigger] p.board.occupies(a, sq) && #[trigger] p.board.occupies(b, sq) ==> a == b,
{
}

/// Where `b` holds the same characters as an accepted castling field `a`, it is accepted with
/// the same flags.
proof fn lemma_castling_permuted(a: Seq<char>, b: Seq<char>)
    requires
        a.to_multiset() == b.to_multiset(),
        castling_of(a) is Some,
    ensures
        castling_of(b) == castling_of(a),
{
    a.to_multiset_ensures();
    b.to_multiset_ensures();
    assert(a.len() == b.len());
    assert forall|x: char| a.contains(x) <==> b.contains(x) by {
        assert(a.contains(x) <==> a.to_multiset().count(x) > 0);
        assert(b.contains(x) <==> b.to_multiset().count(x) > 0);
    }
    if a == seq!['-'] {
        assert(a.contains('-')) by {
            assert(a[0] == '-');
        }
        assert(b[0] == '-');
        assert(b =~= seq!['-']);
    } else {
        assert(b != seq!['-']) by {
            if b == seq!['-'] {
                assert(b.contains('-')) by {
                    assert(b[0] == '-');
                }
                assert(is_castling_char(a[0]));
            }
        }
        assert forall|i: int| 0 <= i < b.len() implies is_castling_char(#[trigger] b[i]) by {
            assert(b.contains(b[i]));
        }
        a.lemma_multiset_has_no_duplicates();
        b.lemma_multiset_has_no_duplicates_conv();
    }
}

/// The castling field is order-independent: two fields that hold the same characters, in
/// whatever order, are accepted or rejected alike and give the same flags.
pub proof fn lemma_castling_order_independent(a: Seq<char>, b: Seq<char>)
    requires
        a.to_multiset() == b.to_multiset(),
    ensures
        castling_of(a) == castling_of(b),
{
    if castling_of(a) is Some {
        lemma_castling_permuted(a, b);
    } else if castling_of(b) is Some {
        lemma_castling_permuted(b, a);
    }
}

} // verus!
