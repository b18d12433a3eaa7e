use vstd::prelude::*;
use vstd::seq_lib::lemma_seq_contains_after_push;
use crate::bits::{has_bit, lowest, lemma_lowest};
use crate::board::{BitBoards, lemma_view_bits};
use crate::types::{Color, PieceTy, Square, Pos, Move, sq, pos_index, on_board, lemma_square_of, lemma_square_decode, lemma_pos_index_roundtrip};
use crate::attacks::{king_attack, pawn_attack, bishop_reach, rook_reach, bishop_attacks, rook_attacks, offset_hit, file_of, rank_of, lemma_reach_excludes_start, lemma_square_coords};
use crate::threats::{occupied, attacked, meets, lemma_occupied};
use crate::movegen::{pseudo_move, castle_target, own_at, pawn_dir, lemma_offset_index, lemma_push_fresh};
use crate::game::{Game, opt_pos_eq, usize_abs_diff};

verus! {

/// The square of the pawn an en passant capture onto `e` takes, with side
/// `tm` to move.
pub open spec fn victim_square(e: Pos, tm: Color) -> Pos {
    if tm == Color::White {
        (e.0, (e.1 - 1) as usize)
    } else {
        (e.0, (e.1 + 1) as usize)
    }
}

impl Game {
    /// Side `c` has exactly one king, and each castling right it holds has
    /// its king and the rook on their home squares.
    pub open spec fn side_sound(&self, c: Color) -> bool {
        let back = c.back_rank();
        &&& self.has_king(c)
        &&& forall|t: int|
            0 <= t < 64 && #[trigger] self.board@[t] == Square::of(PieceTy::King, c) ==> t
                == self.king_square(c)
        &&& (self.castleable[c.index()].0 || self.castleable[c.index()].1) ==> self.at((4usize, back))
            == Square::of(PieceTy::King, c)
        &&& self.castleable[c.index()].0 ==> self.at((0usize, back)) == Square::of(PieceTy::Rook, c)
        &&& self.castleable[c.index()].1 ==> self.at((7usize, back)) == Square::of(PieceTy::Rook, c)
    }

    /// A position that arises in play: well formed, one king a side,
    /// castling rights backed by king and rook at home, and an en passant
    /// square that is empty with the pawn that passed it just beyond.
    pub open spec fn sound(&self) -> bool {
        &&& self.wf()
        &&& self.side_sound(Color::White)
        &&& self.side_sound(Color::Black)
        &&& (self.enpass matches Some(e) ==> {
            &&& self.at(e) == Square::blank()
            &&& (if self.to_move == Color::White { e.1 == 5 } else { e.1 == 2 })
            &&& self.at(victim_square(e, self.to_move)) == Square::of(PieceTy::Pawn, self.to_move.opposite())
        })
    }
}

/// A generated move that does not take the enemy king can be played.
pub proof fn lemma_pseudo_move_ok(g: Game, m: Move)
    requires
        g.sound(),
        pseudo_move(g, g.to_move, m),
        g.at(m.to) != Square::of(PieceTy::King, g.to_move.opposite()),
    ensures
        g.move_ok(m),
{
    let v = g.board@;
    let c = g.to_move;
    let f = pos_index(m.from);
    let t = pos_index(m.to);
    let occ = occupied(v);
    lemma_view_bits(g.board);
    lemma_square_coords(f);
    lemma_square_coords(t);
    lemma_pos_index_roundtrip(m.from, 0);
    lemma_pos_index_roundtrip(m.to, 0);
    lemma_reach_excludes_start(f, occ);
    lemma_square_of(PieceTy::King, c);
    lemma_square_of(PieceTy::King, c.opposite());
    lemma_square_of(PieceTy::Rook, c);
    lemma_square_of(PieceTy::Pawn, c.opposite());
    lemma_square_decode(v[f]);
    if v[t] != Square::blank() {
        lemma_square_decode(v[t]);
    }
    let k = v[f].kind();
    let dr = pawn_dir(c);
    lemma_offset_index(f, t, 0, dr);
    lemma_offset_index(f, t, 0, 2 * dr);
    lemma_offset_index(f, t, 1, dr);
    lemma_offset_index(f, t, -1, dr);
    // The destination differs from the origin.
    assert(m.from != m.to) by {
        if m.from == m.to {
            assert(f == t);
        }
    }
    if k == PieceTy::King {
        let back = c.back_rank();
        if castle_target(g.castleable, c, occ, m.to) {
            lemma_pos_index_roundtrip((4usize, back), 0);
            assert(v[pos_index((4usize, back))] == Square::of(PieceTy::King, c));
            assert(f == pos_index((4usize, back)));
            assert(m.from == (4usize, back));
        } else {
            assert(king_attack(f, t));
        }
    }
    if g.is_ep_capture(m) {
        let e = m.to;
        assert(g.enpass == Some(e));
        assert(v[t] == Square::blank());
        if !pawn_attack(c.index(), f, t) {
            assert(false);
        }
        assert(Game::ep_victim(m) == victim_square(e, c));
    }
}

} // verus!

verus! {

/// Squares `a` and `b` share a rank, a file or a diagonal.
pub open spec fn on_line(a: int, b: int) -> bool {
    ||| rank_of(a) == rank_of(b)
    ||| file_of(a) == file_of(b)
    ||| rank_of(a) - file_of(a) == rank_of(b) - file_of(b)
    ||| rank_of(a) + file_of(a) == rank_of(b) + file_of(b)
}

/// Whether squares `a` and `b` share a rank, a file or a diagonal.
pub fn line_through(a: u32, b: u32) -> (r: bool)
    requires
        a < 64,
        b < 64,
    ensures
        r == on_line(a as int, b as int),
{
    let (ra, fa) = ((a / 8) as i32, (a % 8) as i32);
    let (rb, fb) = ((b / 8) as i32, (b % 8) as i32);
    ra == rb || fa == fb || ra - fa == rb - fb || ra + fa == rb + fb
}

/// An enemy slider of side `c`'s opponent on the king's line `ksq` sees
/// the king square directly: along a diagonal (`diag`) by a bishop or queen,
/// else along a rank or file by a rook or queen.
pub open spec fn pinned(g: Game, ksq: int, diag: bool) -> bool {
    let v = g.board@;
    let c = g.to_move;
    let occ = occupied(v);
    exists|t: int|
        #![trigger v[t]]
        (if diag { bishop_reach(ksq, occ).contains(t) } else { rook_reach(ksq, occ).contains(t) })
            && !own_at(v, c, t) && (v[t] == Square::of(
            if diag { PieceTy::Bishop } else { PieceTy::Rook },
            c.opposite(),
        ) || v[t] == Square::of(PieceTy::Queen, c.opposite()))
}

/// What the quick legality test decides for move `m` of the side to move:
/// never a move onto an own piece or the enemy king; at once a non-king,
/// non-en-passant move when not in check whose piece is off the king's lines
/// or no enemy slider sees the king; otherwise whether the king is
/// unattacked after the move.
pub open spec fn legal_fast(g: Game, m: Move, in_check: bool) -> bool {
    let v = g.board@;
    let c = g.to_move;
    let ksq = g.king_square(c);
    let f = pos_index(m.from);
    let t = pos_index(m.to);
    let k = v[f].kind();
    if own_at(v, c, t) || v[t] == Square::of(PieceTy::King, c.opposite()) {
        false
    } else if k != PieceTy::King && !in_check && !g.is_ep_capture(m) && (!on_line(ksq, f) || (!pinned(
        g,
        ksq,
        true,
    ) && !pinned(g, ksq, false))) {
        true
    } else {
        !attacked(g.board_after(m), if k == PieceTy::King { t } else { ksq }, c.opposite())
    }
}

impl Game {
    /// Plays move `m` of piece `moving` on a copy of the piece sets.
    #[verifier::rlimit(50)]
    pub fn apply_move_board(&self, bb: &mut BitBoards, m: Move, moving: Square)
        requires
            self.wf(),
            self.move_ok(m),
            *old(bb) == self.board,
            moving == self.moving(m),
        ensures
            final(bb).wf(),
            final(bb)@ == self.board_after(m),
    {
        proof {
            lemma_view_bits(*bb);
            lemma_square_decode(moving);
        }
        let c = moving.color().to_index();
        let pt = (moving.ty().to_u8() - 1) as usize;
        bb.remove_piece(sq(m.from), c, pt);
        let cap = self.get(m.to);
        if !cap.is_empty() {
            let ec = cap.color().to_index();
            let ept = (cap.ty().to_u8() - 1) as usize;
            proof {
                lemma_view_bits(*bb);
                lemma_square_decode(cap);
            }
            bb.remove_piece(sq(m.to), ec, ept);
        }
        if moving.ty() == PieceTy::Pawn && opt_pos_eq(Some(m.to), self.enpass) {
            let ec = moving.color().other().to_index();
            proof {
                lemma_view_bits(*bb);
                lemma_square_of(PieceTy::Pawn, moving.side().opposite());
            }
            bb.remove_piece(sq((m.to.0, m.from.1)), ec, 0);
        }
        let final_pt: usize = match m.promotion {
            Some(p) => (p.to_u8() - 1) as usize,
            None => pt,
        };
        bb.place_piece(sq(m.to), c, final_pt);
        if moving.ty() == PieceTy::King && usize_abs_diff(m.from.0, m.to.0) == 2 {
            let rank = m.from.1;
            let (rx, rfinal): (usize, usize) = if m.to.0 < m.from.0 {
                (0, 3)
            } else {
                (7, 5)
            };
            proof {
                lemma_view_bits(*bb);
                lemma_square_of(PieceTy::Rook, moving.side());
            }
            bb.remove_piece(sq((rx, rank)), c, 3);
            bb.place_piece(sq((rfinal, rank)), c, 3);
        }
        proof {
            lemma_square_of(moving.kind(), moving.side());
            if let Some(p) = m.promotion {
                lemma_square_of(p, moving.side());
            }
        }
        assert(bb@ =~= self.board_after(m));
    }

    /// The quick legality test of move `m` of the side to move, told whether
    /// that side is in check.
    #[verifier::rlimit(60)]
    pub fn move_is_legal_fast(&self, m: Move, in_check: bool) -> (r: bool)
        requires
            self.sound(),
            pseudo_move(*self, self.to_move, m),
        ensures
            r == legal_fast(*self, m, in_check),
            r ==> self.move_ok(m),
    {
        let ghost v = self.board@;
        proof {
            lemma_view_bits(self.board);
            lemma_occupied(self.board);
            lemma_lowest(self.board.pieces[self.to_move.index()][5]);
            lemma_square_of(PieceTy::King, self.to_move.opposite());
            lemma_square_of(PieceTy::King, self.to_move);
            lemma_square_of(PieceTy::Bishop, self.to_move.opposite());
            lemma_square_of(PieceTy::Rook, self.to_move.opposite());
            lemma_square_of(PieceTy::Queen, self.to_move.opposite());
        }
        let moving = self.get(m.from);
        let mcolor = moving.color();
        let c = mcolor.to_index();
        let ec: usize = 1 - c;
        let king_sq = self.board.pieces[c][5].trailing_zeros();
        let to_sq = sq(m.to);
        if crate::bits::test_bit(self.board.color[c], to_sq) || crate::bits::test_bit(
            self.board.pieces[ec][5],
            to_sq,
        ) {
            proof {
                assert(self.board.at(ec as int, 5, to_sq as int) == has_bit(self.board.pieces[ec as int][5], to_sq as int));
            }
            return false;
        }
        proof {
            assert(self.board.at(ec as int, 5, to_sq as int) == has_bit(self.board.pieces[ec as int][5], to_sq as int));
            lemma_pseudo_move_ok(*self, m);
        }
        if moving.ty() != PieceTy::King && !in_check {
            let is_ep = moving.ty() == PieceTy::Pawn && opt_pos_eq(Some(m.to), self.enpass);
            if !is_ep {
                let on_ray = line_through(king_sq, sq(m.from));
                if !on_ray {
                    return true;
                }
                let own = self.board.color[c];
                proof {
                    crate::bits::lemma_not(own);
                }
                let diag_pinners = self.board.pieces[ec][2] | self.board.pieces[ec][4];
                let straight_pinners = self.board.pieces[ec][3] | self.board.pieces[ec][4];
                let dreach = bishop_attacks(king_sq, self.board.all);
                let sreach = rook_attacks(king_sq, self.board.all);
                let dsee = dreach & !own;
                let ssee = sreach & !own;
                proof {
                    crate::bits::lemma_or(self.board.pieces[ec as int][2], self.board.pieces[ec as int][4]);
                    crate::bits::lemma_or(self.board.pieces[ec as int][3], self.board.pieces[ec as int][4]);
                    crate::bits::lemma_and(dreach, !own);
                    crate::bits::lemma_and(sreach, !own);
                }
                let pinned_diag = meets(dsee, diag_pinners);
                let pinned_straight = meets(ssee, straight_pinners);
                proof {
                    let g = *self;
                    let occ = occupied(v);
                    crate::attacks::lemma_reach_on_board(king_sq as int, occ);
                    if pinned_diag {
                        let t = choose|t: int| has_bit(dsee, t) && has_bit(diag_pinners, t);
                        if has_bit(self.board.pieces[ec as int][2], t) {
                            assert(self.board.at(ec as int, 2, t));
                        } else {
                            assert(self.board.at(ec as int, 4, t));
                        }
                        assert(pinned(g, king_sq as int, true));
                    } else {
                        assert forall|t: int| !(#[trigger] v[t] == v[t] && bishop_reach(king_sq as int, occ).contains(t) && !own_at(v, mcolor, t) && (v[t] == Square::of(PieceTy::Bishop, mcolor.opposite()) || v[t] == Square::of(PieceTy::Queen, mcolor.opposite()))) by {
                            if bishop_reach(king_sq as int, occ).contains(t) && !own_at(v, mcolor, t) && (v[t] == Square::of(PieceTy::Bishop, mcolor.opposite()) || v[t] == Square::of(PieceTy::Queen, mcolor.opposite())) {
                                assert(self.board.at(ec as int, 2, t) || self.board.at(ec as int, 4, t));
                                assert(has_bit(dsee, t) && has_bit(diag_pinners, t));
                            }
                        }
                    }
                    if pinned_straight {
                        let t = choose|t: int| has_bit(ssee, t) && has_bit(straight_pinners, t);
                        if has_bit(self.board.pieces[ec as int][3], t) {
                            assert(self.board.at(ec as int, 3, t));
                        } else {
                            assert(self.board.at(ec as int, 4, t));
                        }
                        assert(pinned(g, king_sq as int, false));
                    } else {
                        assert forall|t: int| !(#[trigger] v[t] == v[t] && rook_reach(king_sq as int, occ).contains(t) && !own_at(v, mcolor, t) && (v[t] == Square::of(PieceTy::Rook, mcolor.opposite()) || v[t] == Square::of(PieceTy::Queen, mcolor.opposite()))) by {
                            if rook_reach(king_sq as int, occ).contains(t) && !own_at(v, mcolor, t) && (v[t] == Square::of(PieceTy::Rook, mcolor.opposite()) || v[t] == Square::of(PieceTy::Queen, mcolor.opposite())) {
                                assert(self.board.at(ec as int, 3, t) || self.board.at(ec as int, 4, t));
                                assert(has_bit(ssee, t) && has_bit(straight_pinners, t));
                            }
                        }
                    }
                }
                if !pinned_diag && !pinned_straight {
                    return true;
                }
            }
        }
        let mut bb = self.board;
        self.apply_move_board(&mut bb, m, moving);
        let final_king_sq = if moving.ty() == PieceTy::King {
            proof {
                lemma_view_bits(bb);
                let x = bb.pieces[c as int][5];
                let t = pos_index(m.to);
                assert(bb.at(c as int, 5, t));
                assert forall|i: int| 0 <= i < 64 && i != t implies !#[trigger] has_bit(x, i) by {
                    assert(bb.at(c as int, 5, i) == has_bit(x, i));
                    if has_bit(x, i) {
                        assert(bb@[i] == Square::of(PieceTy::King, mcolor));
                        assert(v[i] == Square::of(PieceTy::King, mcolor));
                    }
                }
                lemma_lowest(x);
            }
            bb.pieces[c][5].trailing_zeros()
        } else {
            king_sq
        };
        !Game::under_threat_pos(final_king_sq, mcolor.other(), &bb)
    }
}

/// `m` is a legal move of side `c` by the quick test.
pub open spec fn legal_move(g: Game, c: Color, m: Move) -> bool {
    pseudo_move(g, c, m) && legal_fast(g, m, g.in_check(c))
}

impl Game {
    /// The quick legality test, working out whether the mover is in check.
    pub fn move_is_legal(&self, m: Move) -> (r: bool)
        requires
            self.sound(),
            pseudo_move(*self, self.to_move, m),
        ensures
            r == legal_fast(*self, m, self.in_check(self.to_move)),
    {
        let c = self.get(m.from).color();
        let in_check = self.check(c);
        self.move_is_legal_fast(m, in_check)
    }

    /// The legal moves of the side to move, each once.
    pub fn get_all_moves(&self, c: Color) -> (r: Vec<Move>)
        requires
            self.sound(),
            c == self.to_move,
        ensures
            forall|m: Move| #[trigger] r@.contains(m) <==> legal_move(*self, c, m),
            forall|m: Move| #[trigger] r@.contains(m) ==> self.move_ok(m),
            r@.no_duplicates(),
            r@ == crate::movegen::pseudo_seq(*self, c).filter(|m: Move| legal_fast(*self, m, self.in_check(c))),
    {
        let in_check = self.check(c);
        let pseudo = self.get_all_pseudo_moves(c);
        proof {
            crate::movegen::lemma_sound_generates_once(*self, c);
        }
        let mut out: Vec<Move> = Vec::new();
        let mut i: usize = 0;
        while i < pseudo.len()
            invariant
                self.sound(),
                c == self.to_move,
                in_check == self.in_check(c),
                i <= pseudo@.len(),
                forall|m: Move| #[trigger] pseudo@.contains(m) <==> pseudo_move(*self, c, m),
                forall|m: Move| #[trigger] out@.contains(m) ==> legal_move(*self, c, m) && self.move_ok(m),
                forall|j: int| 0 <= j < i && legal_fast(*self, #[trigger] pseudo@[j], in_check) ==> out@.contains(pseudo@[j]),
                pseudo@.no_duplicates(),
                out@.no_duplicates(),
                forall|k: int| 0 <= k < out@.len() ==> exists|j: int| 0 <= j < i && #[trigger] out@[k] == pseudo@[j],
                pseudo@ == crate::movegen::pseudo_seq(*self, c),
                out@ == pseudo@.take(i as int).filter(|x: Move| legal_fast(*self, x, in_check)),
            decreases pseudo@.len() - i,
        {
            let m = pseudo[i];
            assert(pseudo@.contains(m));
            let ghost prev = out@;
            proof {
                reveal(Seq::filter);
                assert(pseudo@.take(i + 1).drop_last() =~= pseudo@.take(i as int));
                assert(pseudo@.take(i + 1).last() == m);
            }
            if self.move_is_legal_fast(m, in_check) {
                proof {
                    assert forall|k: int| 0 <= k < prev.len() implies prev[k] != m by {
                        let j = choose|j: int| 0 <= j < i && prev[k] == pseudo@[j];
                        assert(pseudo@[j] != pseudo@[i as int]);
                    }
                    assert(!prev.contains(m));
                    lemma_push_fresh(prev, m);
                }
                out.push(m);
                proof {
                    assert forall|k: int| 0 <= k < out@.len() implies exists|j: int| 0 <= j < i + 1 && #[trigger] out@[k] == pseudo@[j] by {
                        if k < prev.len() {
                            assert(out@[k] == prev[k]);
                            let j = choose|j: int| 0 <= j < i && prev[k] == pseudo@[j];
                            assert(0 <= j < i + 1 && out@[k] == pseudo@[j]);
                        } else {
                            assert(out@[k] == pseudo@[i as int]);
                        }
                    }
                }
                proof {
                    assert forall|x: Move| #[trigger] out@.contains(x) implies legal_move(*self, c, x) && self.move_ok(x) by {
                        lemma_seq_contains_after_push(prev, m, x);
                    }
                    assert forall|j: int| 0 <= j < i + 1 && legal_fast(*self, #[trigger] pseudo@[j], in_check) implies out@.contains(pseudo@[j]) by {
                        lemma_seq_contains_after_push(prev, m, pseudo@[j]);
                    }
                }
            }
            i = i + 1;
        }
        proof {
            assert(pseudo@.take(pseudo@.len() as int) =~= pseudo@);
            assert forall|m: Move| #[trigger] out@.contains(m) <==> legal_move(*self, c, m) by {
                if legal_move(*self, c, m) {
                    assert(pseudo@.contains(m));
                    let j = choose|j: int| 0 <= j < pseudo@.len() && pseudo@[j] == m;
                    assert(legal_fast(*self, pseudo@[j], in_check));
                }
            }
        }
        out
    }

    /// Whether side `color`, which is to move, has a legal move.
    pub fn has_any_legal_move(&self, color: Color) -> (r: bool)
        requires
            self.sound(),
            color == self.to_move,
        ensures
            r == exists|m: Move| legal_move(*self, color, m),
    {
        let in_check = self.check(color);
        let pseudo = self.get_all_pseudo_moves(color);
        let mut i: usize = 0;
        while i < pseudo.len()
            invariant
                self.sound(),
                color == self.to_move,
                in_check == self.in_check(color),
                i <= pseudo@.len(),
                forall|m: Move| #[trigger] pseudo@.contains(m) <==> pseudo_move(*self, color, m),
                forall|j: int| 0 <= j < i ==> !legal_fast(*self, #[trigger] pseudo@[j], in_check),
            decreases pseudo@.len() - i,
        {
            let m = pseudo[i];
            assert(pseudo@.contains(m));
            if self.move_is_legal_fast(m, in_check) {
                assert(legal_move(*self, color, m));
                return true;
            }
            i = i + 1;
        }
        proof {
            assert forall|m: Move| !legal_move(*self, color, m) by {
                if legal_move(*self, color, m) {
                    assert(pseudo@.contains(m));
                    let j = choose|j: int| 0 <= j < pseudo@.len() && pseudo@[j] == m;
                    assert(!legal_fast(*self, pseudo@[j], in_check));
                }
            }
        }
        false
    }

    /// Side `c` is checkmated: in check with no legal move, and the position
    /// has not occurred twice before.
    pub fn checkmate(&self, c: Color) -> (r: bool)
        requires
            self.sound(),
            c == self.to_move,
        ensures
            r == (self.in_check(c) && !(exists|m: Move| legal_move(*self, c, m)) && !(crate::game::count_of(
                self.prev_pos@,
                self.hash,
            ) >= 2)),
    {
        self.check(c) && !self.has_any_legal_move(c) && !self.lose_on_repeat()
    }

    /// Side `c` is stalemated (not in check with no legal move), or the
    /// position has occurred twice before.
    pub fn stalemate(&self, c: Color) -> (r: bool)
        requires
            self.sound(),
            c == self.to_move,
        ensures
            r == ((!self.in_check(c) && !(exists|m: Move| legal_move(*self, c, m))) || crate::game::count_of(
                self.prev_pos@,
                self.hash,
            ) >= 2),
    {
        let not_in_check = !self.check(c);
        let repeat = self.lose_on_repeat();
        let no_moves = !self.has_any_legal_move(c);
        (not_in_check && no_moves) || repeat
    }

    /// Whether move `m` takes a piece: its destination is occupied, or a
    /// pawn changes file.
    pub fn is_capture(&self, m: Move) -> (r: bool)
        requires
            self.board.wf(),
            on_board(m.from),
            on_board(m.to),
        ensures
            r == (self.at(m.to) != Square::blank() || (self.at(m.from) != Square::blank() && self.at(
                m.from,
            ).kind() == PieceTy::Pawn && m.from.0 != m.to.0)),
    {
        if self.occupied(m.to) {
            return true;
        }
        let p = self.get(m.from);
        proof {
            lemma_view_bits(self.board);
        }
        if !p.is_empty() && p.ty() == PieceTy::Pawn && m.from.0 != m.to.0 {
            return true;
        }
        false
    }

    /// For a move of piece `moving`: `Some(false)` when the destination is
    /// occupied, `Some(true)` for a pawn changing file onto an empty square
    /// (en passant), `None` otherwise.
    pub fn is_capture_known_move(&self, m: Move, moving: Square) -> (r: Option<bool>)
        requires
            self.board.wf(),
            on_board(m.to),
            moving.is_piece(),
        ensures
            r == (if self.at(m.to) != Square::blank() {
                Some(false)
            } else if moving.kind() == PieceTy::Pawn && m.from.0 != m.to.0 {
                Some(true)
            } else {
                None
            }),
    {
        if self.occupied(m.to) {
            return Some(false);
        }
        if moving.ty() == PieceTy::Pawn && m.from.0 != m.to.0 {
            return Some(true);
        }
        None
    }
}

} // verus!

verus! {

/// A board with a single square `p` set has `p` as its lowest square.
pub proof fn lemma_single_lowest(x: u64, p: int)
    requires
        has_bit(x, p),
        forall|i: int| 0 <= i < 64 && i != p ==> !#[trigger] has_bit(x, i),
    ensures
        x != 0,
        lowest(x) == p,
{
    crate::bits::lemma_zero();
    lemma_lowest(x);
    if x == 0 {
        assert(has_bit(0u64, p));
    }
}

/// The squares a move changes keep everything else.
pub proof fn lemma_board_after_other(g: Game, m: Move, i: int)
    requires
        g.wf(),
        g.move_ok(m),
        0 <= i < 64,
        i != pos_index(m.from),
        i != pos_index(m.to),
        g.is_ep_capture(m) ==> i != pos_index(Game::ep_victim(m)),
        g.is_castling(m) ==> i != pos_index(Game::rook_from(m)) && i != pos_index(Game::rook_to(m)),
    ensures
        g.board_after(m)[i] == g.board@[i],
{
}

/// Playing a generated move that does not take the king keeps a position
/// sound: one king a side, castling rights backed by king and rook at home,
/// and an en passant square with the pawn that just passed it.
pub proof fn law_move_keeps_sound(g: Game, m: Move, g1: Game)
    requires
        g.sound(),
        pseudo_move(g, g.to_move, m),
        g.at(m.to) != Square::of(PieceTy::King, g.to_move.opposite()),
        Game::moved(g, m, g1),
    ensures
        g1.sound(),
{
    lemma_pseudo_move_ok(g, m);
    let v = g.board@;
    let v1 = g1.board@;
    let c = g.to_move;
    let f = pos_index(m.from);
    let t = pos_index(m.to);
    lemma_view_bits(g.board);
    lemma_view_bits(g1.board);
    lemma_square_coords(f);
    lemma_square_coords(t);
    lemma_pos_index_roundtrip(m.from, 0);
    lemma_pos_index_roundtrip(m.to, 0);
    lemma_square_of(PieceTy::King, c);
    lemma_square_of(PieceTy::King, c.opposite());
    lemma_square_of(PieceTy::Rook, c);
    lemma_square_of(PieceTy::Rook, c.opposite());
    lemma_square_of(PieceTy::Pawn, c);
    lemma_square_of(PieceTy::Pawn, c.opposite());
    lemma_square_decode(v[f]);
    lemma_square_of(v[f].kind(), c);
    if let Some(p) = m.promotion {
        lemma_square_of(p, c);
    }
    lemma_keeps_kings(g, m, g1, c);
    lemma_keeps_kings(g, m, g1, c.opposite());
    lemma_keeps_rights(g, m, g1, c);
    lemma_keeps_rights(g, m, g1, c.opposite());
    lemma_keeps_enpass(g, m, g1);
}

/// After a generated move side `x` still has exactly one king.
proof fn lemma_keeps_kings(g: Game, m: Move, g1: Game, x: Color)
    requires
        g.sound(),
        g.move_ok(m),
        pseudo_move(g, g.to_move, m),
        Game::moved(g, m, g1),
    ensures
        g1.has_king(x),
        forall|t: int|
            0 <= t < 64 && #[trigger] g1.board@[t] == Square::of(PieceTy::King, x) ==> t
                == g1.king_square(x),
{
    let v = g.board@;
    let v1 = g1.board@;
    let c = g.to_move;
    let f = pos_index(m.from);
    let to = pos_index(m.to);
    lemma_view_bits(g.board);
    lemma_view_bits(g1.board);
    lemma_lowest(g.board.pieces[x.index()][5]);
    lemma_square_of(PieceTy::King, x);
    lemma_square_of(PieceTy::Pawn, c);
    lemma_square_of(PieceTy::Pawn, c.opposite());
    lemma_square_of(PieceTy::Rook, c);
    lemma_square_decode(v[f]);
    if let Some(p) = m.promotion {
        lemma_square_of(p, c);
    }
    let k = g.king_square(x);
    assert(v[k] == Square::of(PieceTy::King, x)) by {
        assert(g.board.at(x.index(), 5, k));
    }
    let k1 = if x == c && v[f].kind() == PieceTy::King { to } else { k };
    assert(v1[k1] == Square::of(PieceTy::King, x));
    assert forall|i: int| 0 <= i < 64 && i != k1 implies !#[trigger] has_bit(g1.board.pieces[x.index()][5], i) by {
        assert(g1.board.at(x.index(), 5, i) == has_bit(g1.board.pieces[x.index()][5], i));
        if v1[i] == Square::of(PieceTy::King, x) {
            assert(false);
        }
    }
    assert(g1.board.at(x.index(), 5, k1));
    lemma_single_lowest(g1.board.pieces[x.index()][5], k1);
}

/// After a generated move the castling rights of side `x` are still backed
/// by its king and rooks at home.
proof fn lemma_keeps_rights(g: Game, m: Move, g1: Game, x: Color)
    requires
        g.sound(),
        g.move_ok(m),
        pseudo_move(g, g.to_move, m),
        Game::moved(g, m, g1),
    ensures
        (g1.castleable[x.index()].0 || g1.castleable[x.index()].1) ==> g1.at((4usize, x.back_rank()))
            == Square::of(PieceTy::King, x),
        g1.castleable[x.index()].0 ==> g1.at((0usize, x.back_rank())) == Square::of(PieceTy::Rook, x),
        g1.castleable[x.index()].1 ==> g1.at((7usize, x.back_rank())) == Square::of(PieceTy::Rook, x),
{
    let v = g.board@;
    let c = g.to_move;
    let f = pos_index(m.from);
    let to = pos_index(m.to);
    let back = x.back_rank();
    lemma_square_of(PieceTy::King, x);
    lemma_square_of(PieceTy::Rook, x);
    lemma_square_of(PieceTy::Pawn, c);
    lemma_square_of(PieceTy::Pawn, c.opposite());
    lemma_square_decode(v[f]);
    lemma_square_coords(f);
    lemma_square_coords(to);
    lemma_pos_index_roundtrip(m.from, 0);
    lemma_pos_index_roundtrip(m.to, 0);
    if v[to] != Square::blank() {
        lemma_square_decode(v[to]);
    }
    if let Some(p) = m.promotion {
        lemma_square_of(p, c);
    }
    let ks = pos_index((4usize, back));
    let qr = pos_index((0usize, back));
    let kr = pos_index((7usize, back));
    if g1.castleable[x.index()].0 || g1.castleable[x.index()].1 {
        lemma_board_after_other(g, m, ks);
    }
    if g1.castleable[x.index()].0 {
        lemma_board_after_other(g, m, qr);
    }
    if g1.castleable[x.index()].1 {
        lemma_board_after_other(g, m, kr);
    }
}

/// After a generated move the en passant square, if any, is empty with the
/// pawn that passed it just beyond.
proof fn lemma_keeps_enpass(g: Game, m: Move, g1: Game)
    requires
        g.sound(),
        g.move_ok(m),
        pseudo_move(g, g.to_move, m),
        Game::moved(g, m, g1),
    ensures
        g1.enpass matches Some(e) ==> {
            &&& g1.at(e) == Square::blank()
            &&& (if g1.to_move == Color::White { e.1 == 5 } else { e.1 == 2 })
            &&& g1.at(victim_square(e, g1.to_move)) == Square::of(PieceTy::Pawn, g1.to_move.opposite())
        },
{
    let v = g.board@;
    let c = g.to_move;
    let f = pos_index(m.from);
    let to = pos_index(m.to);
    if let Some(e) = g1.enpass {
        lemma_square_decode(v[f]);
        lemma_square_coords(f);
        lemma_square_coords(to);
        lemma_pos_index_roundtrip(m.from, 0);
        lemma_pos_index_roundtrip(m.to, 0);
        lemma_square_of(PieceTy::Pawn, c);
        lemma_square_of(PieceTy::Pawn, c.opposite());
        let dr = pawn_dir(c);
        lemma_offset_index(f, to, 0, dr);
        lemma_offset_index(f, to, 0, 2 * dr);
        lemma_offset_index(f, to, 1, dr);
        lemma_offset_index(f, to, -1, dr);
        assert(v[f].kind() == PieceTy::Pawn);
        assert(offset_hit(f, to, 0, 2 * dr));
        let mid = f + 8 * dr;
        assert(pos_index(e) == mid);
        lemma_board_after_other(g, m, mid);
        assert(victim_square(e, g1.to_move) == m.to);
    }
}

} // verus!
