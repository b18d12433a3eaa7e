use vstd::prelude::*;
use crate::bits::{BB, has_bit, bit_squares, lowest, lemma_and, lemma_or, lemma_zero_iff, lemma_lowest};
use crate::board::{BitBoards, lemma_view_bits};
use crate::types::{Color, PieceTy, Square, Pos, sq, sq_to_pos, index_pos, lemma_square_of};
use crate::attacks::{
    pawn_attack, knight_attack, king_attack, bishop_reach, rook_reach, pawn_attacks, knight_attacks,
    king_attacks, bishop_attacks, rook_attacks, lemma_offset_symmetric,
};

verus! {

/// The occupied squares of a board.
pub open spec fn occupied(v: Seq<Square>) -> Set<int> {
    Set::new(|i: int| 0 <= i < 64 && v[i] != Square::blank())
}

/// A piece of side `c` standing on `t` attacks square `s`.
pub open spec fn attacks_from(v: Seq<Square>, t: int, s: int, c: Color) -> bool {
    let p = v[t];
    &&& 0 <= t < 64
    &&& p != Square::blank()
    &&& p.side() == c
    &&& match p.kind() {
        PieceTy::Pawn => pawn_attack(c.index(), t, s),
        PieceTy::Knight => knight_attack(t, s),
        PieceTy::King => king_attack(t, s),
        PieceTy::Bishop => bishop_reach(s, occupied(v)).contains(t),
        PieceTy::Rook => rook_reach(s, occupied(v)).contains(t),
        PieceTy::Queen => bishop_reach(s, occupied(v)).contains(t) || rook_reach(s, occupied(v)).contains(t),
    }
}

/// Square `s` is attacked by some piece of side `c`.
pub open spec fn attacked(v: Seq<Square>, s: int, c: Color) -> bool {
    exists|t: int| #[trigger] attacks_from(v, t, s, c)
}

/// The occupancy set of a well-formed board is that of its squares.
pub proof fn lemma_occupied(bb: BitBoards)
    requires
        bb.wf(),
    ensures
        bit_squares(bb.all) == occupied(bb@),
{
    lemma_view_bits(bb);
    assert(bit_squares(bb.all) =~= occupied(bb@));
}

/// Whether two boards share a square.
pub fn meets(a: BB, b: BB) -> (r: bool)
    ensures
        r == exists|t: int| has_bit(a, t) && has_bit(b, t),
{
    proof {
        lemma_and(a, b);
        lemma_zero_iff(a & b);
        if exists|t: int| has_bit(a, t) && has_bit(b, t) {
            let t = choose|t: int| has_bit(a, t) && has_bit(b, t);
            assert(has_bit(a & b, t));
        }
    }
    a & b != 0
}

impl crate::game::Game {
/// Whether square `s` is attacked by side `by` on board `board`.
#[verifier::rlimit(30)]
pub fn under_threat_pos(s: u32, by: Color, board: &BitBoards) -> (r: bool)
    requires
        board.wf(),
        s < 64,
    ensures
        r == attacked(board@, s as int, by),
{
    let c = by.to_index();
    let ghost v = board@;
    proof {
        lemma_view_bits(*board);
        lemma_occupied(*board);
        lemma_square_of(PieceTy::Pawn, by);
        lemma_square_of(PieceTy::Knight, by);
        lemma_square_of(PieceTy::Bishop, by);
        lemma_square_of(PieceTy::Rook, by);
        lemma_square_of(PieceTy::Queen, by);
        lemma_square_of(PieceTy::King, by);
    }
    let pawns = pawn_attacks(1 - c, s);
    let hit_pawn = meets(pawns, board.pieces[c][0]);
    proof {
        assert forall|t: int| has_bit(pawns, t) == pawn_attack(c as int, t, s as int) by {
            lemma_offset_symmetric(s as int, t, 1, if c == 0 { -1 } else { 1 });
            lemma_offset_symmetric(s as int, t, -1, if c == 0 { -1 } else { 1 });
        }
    }
    let knights = knight_attacks(s);
    let hit_knight = meets(knights, board.pieces[c][1]);
    proof {
        assert forall|t: int| has_bit(knights, t) == knight_attack(t, s as int) by {
            lemma_offset_symmetric(s as int, t, 1, 2);
            lemma_offset_symmetric(s as int, t, -1, 2);
            lemma_offset_symmetric(s as int, t, 2, 1);
            lemma_offset_symmetric(s as int, t, -2, 1);
            lemma_offset_symmetric(s as int, t, 1, -2);
            lemma_offset_symmetric(s as int, t, -1, -2);
            lemma_offset_symmetric(s as int, t, 2, -1);
            lemma_offset_symmetric(s as int, t, -2, -1);
        }
    }
    let kings = king_attacks(s);
    let hit_king = meets(kings, board.pieces[c][5]);
    proof {
        assert forall|t: int| has_bit(kings, t) == king_attack(t, s as int) by {
            lemma_offset_symmetric(s as int, t, 1, 1);
            lemma_offset_symmetric(s as int, t, 0, 1);
            lemma_offset_symmetric(s as int, t, -1, 1);
            lemma_offset_symmetric(s as int, t, 1, 0);
            lemma_offset_symmetric(s as int, t, -1, 0);
            lemma_offset_symmetric(s as int, t, 1, -1);
            lemma_offset_symmetric(s as int, t, 0, -1);
            lemma_offset_symmetric(s as int, t, -1, -1);
        }
    }
    let diag = bishop_attacks(s, board.all);
    let diag_sliders = board.pieces[c][2] | board.pieces[c][4];
    proof {
        lemma_or(board.pieces[c as int][2], board.pieces[c as int][4]);
    }
    let hit_diag = meets(diag, diag_sliders);
    let straight = rook_attacks(s, board.all);
    let straight_sliders = board.pieces[c][3] | board.pieces[c][4];
    proof {
        lemma_or(board.pieces[c as int][3], board.pieces[c as int][4]);
    }
    let hit_straight = meets(straight, straight_sliders);
    proof {
        let any = hit_pawn || hit_knight || hit_king || hit_diag || hit_straight;
        if any {
            if hit_pawn {
                let t = choose|t: int| has_bit(pawns, t) && has_bit(board.pieces[c as int][0], t);
                assert(board.at(c as int, 0, t));
                assert(attacks_from(v, t, s as int, by));
            } else if hit_knight {
                let t = choose|t: int| has_bit(knights, t) && has_bit(board.pieces[c as int][1], t);
                assert(board.at(c as int, 1, t));
                assert(attacks_from(v, t, s as int, by));
            } else if hit_king {
                let t = choose|t: int| has_bit(kings, t) && has_bit(board.pieces[c as int][5], t);
                assert(board.at(c as int, 5, t));
                assert(attacks_from(v, t, s as int, by));
            } else if hit_diag {
                let t = choose|t: int| has_bit(diag, t) && has_bit(diag_sliders, t);
                if has_bit(board.pieces[c as int][2], t) {
                    assert(board.at(c as int, 2, t));
                } else {
                    assert(board.at(c as int, 4, t));
                }
                assert(attacks_from(v, t, s as int, by));
            } else {
                let t = choose|t: int| has_bit(straight, t) && has_bit(straight_sliders, t);
                if has_bit(board.pieces[c as int][3], t) {
                    assert(board.at(c as int, 3, t));
                } else {
                    assert(board.at(c as int, 4, t));
                }
                assert(attacks_from(v, t, s as int, by));
            }
        } else {
            assert forall|t: int| !#[trigger] attacks_from(v, t, s as int, by) by {
                if attacks_from(v, t, s as int, by) {
                    let k = v[t].kind();
                    if k == PieceTy::Pawn {
                        assert(board.at(c as int, 0, t));
                        assert(has_bit(pawns, t) && has_bit(board.pieces[c as int][0], t));
                    } else if k == PieceTy::Knight {
                        assert(board.at(c as int, 1, t));
                        assert(has_bit(knights, t) && has_bit(board.pieces[c as int][1], t));
                    } else if k == PieceTy::King {
                        assert(board.at(c as int, 5, t));
                        assert(has_bit(kings, t) && has_bit(board.pieces[c as int][5], t));
                    } else if k == PieceTy::Bishop {
                        assert(board.at(c as int, 2, t));
                        assert(has_bit(diag, t) && has_bit(diag_sliders, t));
                    } else if k == PieceTy::Rook {
                        assert(board.at(c as int, 3, t));
                        assert(has_bit(straight, t) && has_bit(straight_sliders, t));
                    } else {
                        assert(board.at(c as int, 4, t));
                        if bishop_reach(s as int, occupied(v)).contains(t) {
                            assert(has_bit(diag, t) && has_bit(diag_sliders, t));
                        } else {
                            assert(has_bit(straight, t) && has_bit(straight_sliders, t));
                        }
                    }
                }
            }
        }
    }
    if hit_pawn {
        return true;
    }
    if hit_knight {
        return true;
    }
    if hit_king {
        return true;
    }
    if hit_diag {
        return true;
    }
    if hit_straight {
        return true;
    }
    false
}
}

} // verus!

verus! {

impl crate::game::Game {
    /// The square of side `c`'s king (the lowest one, should there be more).
    pub open spec fn king_square(&self, c: Color) -> int {
        lowest(self.board.pieces[c.index()][5])
    }

    pub open spec fn has_king(&self, c: Color) -> bool {
        self.board.pieces[c.index()][5] != 0
    }

    /// Side `c`'s king is attacked.
    pub open spec fn in_check(&self, c: Color) -> bool {
        attacked(self.board@, self.king_square(c), c.opposite())
    }

    /// The position of the lowest piece of the kind and side of `piece`.
    pub fn get_piece_pos(&self, piece: Square) -> (r: Pos)
        requires
            piece.is_piece(),
        ensures
            r == index_pos(lowest(self.board.pieces[piece.side().index()][piece.kind().code() - 1])),
    {
        let s = self.board.pieces[piece.color().to_index()][(piece.ty().to_u8() - 1) as usize].trailing_zeros();
        sq_to_pos(s)
    }

    /// Whether the lowest piece of the kind and side of `p` is attacked.
    pub fn under_threat(&self, p: Square) -> (r: bool)
        requires
            self.board.wf(),
            p.is_piece(),
            self.board.pieces[p.side().index()][p.kind().code() - 1] != 0,
        ensures
            r == attacked(
                self.board@,
                lowest(self.board.pieces[p.side().index()][p.kind().code() - 1]),
                p.side().opposite(),
            ),
    {
        proof {
            lemma_lowest(self.board.pieces[p.side().index()][p.kind().code() - 1]);
        }
        let pos = sq(self.get_piece_pos(p));
        crate::game::Game::under_threat_pos(pos, p.color().other(), &self.board)
    }

    /// Whether side `c` is in check.
    pub fn check(&self, c: Color) -> (r: bool)
        requires
            self.board.wf(),
            self.has_king(c),
        ensures
            r == self.in_check(c),
    {
        self.under_threat(Square::piece(PieceTy::King, c))
    }
}

} // verus!
