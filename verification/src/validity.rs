use vstd::prelude::*;
use crate::bits::{has_bit, test_bit, lemma_and, lemma_or, lemma_not};
use crate::board::lemma_view_bits;
use crate::types::{Color, PieceTy, Square, Pos, Move, sq, pos_index, on_board, lemma_square_of, lemma_square_decode, lemma_pos_index_roundtrip};
use crate::attacks::{king_attack, knight_attacks, king_attacks, bishop_attacks, rook_attacks, offset_hit, file_of, rank_of, sq_at, in_board, lemma_square_coords};
use crate::threats::{occupied, attacked, lemma_occupied};
use crate::movegen::{pseudo_move, pawn_rule, castle_target, own_at, pawn_dir, lemma_offset_index};
use crate::legality::{legal_move, victim_square};
use crate::game::{Game, abs_diff, pos_eq};
use crate::board::BitBoards;
use crate::bits::{pop_lsb, lemma_lowest, lemma_zero_iff};

verus! {

/// What a move may land on: an empty square, or an enemy piece other than
/// the king.
pub open spec fn target_ok(g: Game, m: Move) -> bool {
    g.at(m.to) == Square::blank() || (g.at(m.to).side() != g.at(m.from).side() && g.at(m.to).kind()
        != PieceTy::King)
}

/// The pawn rule for side `c`, where a capture onto an empty en passant
/// square also needs a piece of the other side beside the origin to take.
pub open spec fn pawn_valid(g: Game, c: Color, m: Move) -> bool {
    &&& pawn_rule(g, c, m)
    &&& (g.enpass == Some(m.to) && g.at(m.to) == Square::blank() && m.from.0 != m.to.0) ==> {
        let victim = g.at((m.to.0, m.from.1));
        victim != Square::blank() && victim.side() != c
    }
}

/// The pawn test as it reads the board for side `c`: the move promotes
/// exactly on the last rank, to neither a pawn nor a king; it goes one rank
/// forward, or two from the start rank, straight over empty squares, or
/// one rank forward and one file aside onto an occupied square, or onto the
/// en passant square beside a piece of the other side.
pub open spec fn pawn_code(g: Game, c: Color, m: Move) -> bool {
    let push: int = if c == Color::White { 1 } else { -1 };
    let start_y: int = if c == Color::White { 1 } else { 6 };
    let promo_y: int = if c == Color::White { 7 } else { 0 };
    let dy = m.to.1 - m.from.1;
    let dx = m.to.0 - m.from.0;
    &&& (m.to.1 == promo_y) == (m.promotion is Some)
    &&& m.promotion != Some(PieceTy::Pawn)
    &&& m.promotion != Some(PieceTy::King)
    &&& (dy == push || dy == 2 * push)
    &&& if dx == 0 {
        &&& g.at((m.from.0, (m.from.1 + push) as usize)) == Square::blank()
        &&& (dy == 2 * push ==> m.from.1 == start_y && g.at(m.to) == Square::blank())
    } else if dx == 1 || dx == -1 {
        &&& dy == push
        &&& (g.at(m.to) != Square::blank() || (g.enpass == Some(m.to) && g.at((m.to.0, m.from.1)) != Square::blank()
            && g.at((m.to.0, m.from.1)).side() != c))
    } else {
        false
    }
}

impl Game {
    /// Whether a pawn move of side `color` follows the pawn's rules: one step
    /// forward onto an empty square, two from the start rank over empty
    /// squares, one step diagonally forward onto an enemy piece or the en
    /// passant square, promoting exactly on the last rank.
    #[verifier::rlimit(40)]
    pub fn is_valid_pawn(&self, m: Move, color: Color) -> (r: bool)
        requires
            self.wf(),
            on_board(m.from),
            on_board(m.to),
            m.from != m.to,
            self.at(m.from) == Square::of(PieceTy::Pawn, color),
        ensures
            r == pawn_code(*self, color, m),
            self.sound() && target_ok(*self, m) ==> r == pawn_valid(*self, color, m),
            self.sound() && target_ok(*self, m) && color == self.to_move ==> r == pawn_rule(*self, color, m),
    {
        let ghost v = self.board@;
        let ghost f = pos_index(m.from);
        let ghost t = pos_index(m.to);
        let ghost dr = pawn_dir(color);
        proof {
            lemma_view_bits(self.board);
            lemma_pos_index_roundtrip(m.from, 0);
            lemma_pos_index_roundtrip(m.to, 0);
            lemma_square_coords(f);
            lemma_square_coords(t);
            lemma_offset_index(f, t, 0, dr);
            lemma_offset_index(f, t, 0, 2 * dr);
            lemma_offset_index(f, t, 1, dr);
            lemma_offset_index(f, t, -1, dr);
            lemma_square_of(PieceTy::Pawn, color);
            lemma_square_of(PieceTy::Pawn, color.opposite());
            if v[t] != Square::blank() {
                lemma_square_decode(v[t]);
            }
        }
        let (push_dir, start_y, promo_y): (i32, usize, usize) = match color {
            Color::White => (1, 1, 7),
            Color::Black => (-1, 6, 0),
        };
        let dy = m.to.1 as i32 - m.from.1 as i32;
        let dx = m.to.0 as i32 - m.from.0 as i32;
        if (m.to.1 == promo_y) != m.promotion.is_some() {
            return false;
        }
        match m.promotion {
            Some(p) => {
                if p == PieceTy::Pawn || p == PieceTy::King {
                    return false;
                }
            },
            None => {},
        }
        if dy != push_dir && dy != push_dir * 2 {
            return false;
        }
        if dx == 0 {
            let mid: Pos = (m.from.0, (m.from.1 as i32 + push_dir) as usize);
            proof {
                assert(pos_index(mid) == f + 8 * dr);
            }
            if test_bit(self.board.all, sq(mid)) {
                return false;
            }
            if dy == push_dir * 2 {
                if m.from.1 != start_y {
                    return false;
                }
                if test_bit(self.board.all, sq(m.to)) {
                    return false;
                }
            }
        } else if dx == 1 || dx == -1 {
            if dy != push_dir {
                return false;
            }
            let en_pass = match self.enpass {
                Some(e) => pos_eq(e, m.to),
                None => false,
            };
            if !en_pass && !self.occupied(m.to) {
                return false;
            }
            if en_pass && !self.occupied(m.to) {
                let victim = self.get((m.to.0, m.from.1));
                if victim.is_empty() || victim.color() == color {
                    return false;
                }
            }
        } else {
            return false;
        }
        true
    }
}

/// A castling move of the side to move is not made out of check nor across
/// an attacked square.
pub open spec fn castle_safe(g: Game, m: Move) -> bool {
    castle_safe_by(g, g.to_move, m)
}

/// A castling move of side `c` is not made out of check nor across an
/// attacked square.
pub open spec fn castle_safe_by(g: Game, c: Color, m: Move) -> bool {
    (g.at(m.from).kind() == PieceTy::King && abs_diff(m.from.0, m.to.0) == 2 && m.from.1 == m.to.1) ==> (
    !g.in_check(c) && !attacked(
        g.board@,
        sq_at(if m.to.0 < m.from.0 { 3 } else { 5 }, m.from.1 as int),
        c.opposite(),
    ))
}

/// The king's rule of the move generator for side `c`.
pub open spec fn king_rule(g: Game, c: Color, m: Move) -> bool {
    let v = g.board@;
    let f = pos_index(m.from);
    let t = pos_index(m.to);
    f == g.king_square(c) && m.promotion == None::<PieceTy> && ((king_attack(f, t) && !own_at(v, c, t))
        || castle_target(g.castleable, c, occupied(v), m.to))
}

/// The king test as it reads the board for side `c`: no promotion; two
/// files along the rank with the castling right on that side held, out of
/// check, the squares between king and rook empty and the square the king
/// passes not attacked; otherwise one step in any direction.
pub open spec fn king_code(g: Game, c: Color, m: Move) -> bool {
    let dx = m.to.0 - m.from.0;
    let dy = m.to.1 - m.from.1;
    let rank = m.from.1;
    &&& m.promotion is None
    &&& if (dx == 2 || dx == -2) && dy == 0 {
        let q = dx < 0;
        &&& (if q { g.castleable[c.index()].0 } else { g.castleable[c.index()].1 })
        &&& !g.in_check(c)
        &&& (if q {
            g.at((1usize, rank)) == Square::blank() && g.at((2usize, rank)) == Square::blank() && g.at((3usize, rank))
                == Square::blank()
        } else {
            g.at((5usize, rank)) == Square::blank() && g.at((6usize, rank)) == Square::blank()
        })
        &&& !attacked(g.board@, sq_at(if q { 3 } else { 5 }, rank as int), c.opposite())
    } else {
        king_attack(pos_index(m.from), pos_index(m.to))
    }
}

impl Game {
    /// Whether a king move of side `color` is valid: one step, or castling
    /// with the right held, out of check, over empty squares and not across
    /// an attacked square.
    #[verifier::rlimit(60)]
    pub fn is_valid_king(&self, m: Move, color: Color, c: usize) -> (r: bool)
        requires
            self.wf(),
            c == color.index(),
            on_board(m.from),
            on_board(m.to),
            m.from != m.to,
            self.at(m.from) == Square::of(PieceTy::King, color),
        ensures
            r == king_code(*self, color, m),
            self.sound() && target_ok(*self, m) ==> r == (king_rule(*self, color, m) && castle_safe_by(*self, color, m)),
    {
        let ghost v = self.board@;
        let ghost f = pos_index(m.from);
        let ghost t = pos_index(m.to);
        let ghost back = color.back_rank();
        proof {
            lemma_view_bits(self.board);
            lemma_occupied(self.board);
            lemma_pos_index_roundtrip(m.from, 0);
            lemma_pos_index_roundtrip(m.to, 0);
            lemma_pos_index_roundtrip((4usize, back), 0);
            lemma_square_coords(f);
            lemma_square_coords(t);
            lemma_square_of(PieceTy::King, color);
            if v[t] != Square::blank() {
                lemma_square_decode(v[t]);
            }
            crate::bits::lemma_lowest(self.board.pieces[c as int][5]);
            assert(self.board.at(c as int, 5, f));
            if self.sound() {
                assert(f == self.king_square(color));
            }
            assert forall|df: int, dr: int| #![auto] -1 <= df <= 1 && -1 <= dr <= 1 implies (offset_hit(f, t, df, dr)
                <==> (in_board(file_of(f) + df, rank_of(f) + dr) && t == f + df + 8 * dr)) by {
                lemma_offset_index(f, t, df, dr);
            }
        }
        if m.promotion.is_some() {
            return false;
        }
        let dx = m.to.0 as i32 - m.from.0 as i32;
        let dy = m.to.1 as i32 - m.from.1 as i32;
        if (dx == 2 || dx == -2) && dy == 0 {
            let queenside = dx < 0;
            let can_castle = if queenside {
                self.castleable[c].0
            } else {
                self.castleable[c].1
            };
            if !can_castle {
                return false;
            }
            proof {
                if self.sound() {
                    assert(m.from == (4usize, back));
                }
            }
            if self.check(color) {
                return false;
            }
            let rank = m.from.1;
            if queenside {
                if test_bit(self.board.all, sq((1, rank))) || test_bit(self.board.all, sq((2, rank)))
                    || test_bit(self.board.all, sq((3, rank))) {
                    return false;
                }
            } else {
                if test_bit(self.board.all, sq((5, rank))) || test_bit(self.board.all, sq((6, rank))) {
                    return false;
                }
            }
            let pass_x: usize = if queenside {
                3
            } else {
                5
            };
            if Game::under_threat_pos(sq((pass_x, rank)), color.other(), &self.board) {
                return false;
            }
            true
        } else {
            proof {
                if self.sound() && castle_target(self.castleable, color, occupied(v), m.to) {
                    assert(m.from == (4usize, back));
                }
            }
            test_bit(king_attacks(sq(m.from)), sq(m.to))
        }
    }
}

impl Game {
    /// Whether `m` is a legal move of the side to move, with castling also
    /// out of check and not across an attacked square.
    #[verifier::rlimit(80)]
    pub fn is_valid(&self, m: Move) -> (r: bool)
        requires
            self.sound(),
            on_board(m.from) && self.at(m.from) != Square::blank() ==> self.at(m.from).side() == self.to_move,
        ensures
            r == (legal_move(*self, self.to_move, m) && castle_safe(*self, m)),
    {
        if m.from.0 >= 8 || m.from.1 >= 8 || m.to.0 >= 8 || m.to.1 >= 8 {
            return false;
        }
        if pos_eq(m.from, m.to) {
            proof {
                if pseudo_move(*self, self.to_move, m) {
                    lemma_view_bits(self.board);
                    crate::search::lemma_pseudo_from_to(*self, m);
                }
            }
            return false;
        }
        let piece = self.get(m.from);
        if piece.is_empty() {
            return false;
        }
        let color = piece.color();
        let c = color.to_index();
        let from_sq = sq(m.from);
        let to_sq = sq(m.to);
        let all = self.board.all;
        let own = self.board.color[c];
        let target = self.get(m.to);
        let ghost v = self.board@;
        let ghost fi = pos_index(m.from);
        let ghost ti = pos_index(m.to);
        proof {
            lemma_view_bits(self.board);
            lemma_occupied(self.board);
            lemma_square_decode(piece);
            lemma_square_of(PieceTy::King, color.opposite());
            if target != Square::blank() {
                lemma_square_decode(target);
            }
            lemma_not(own);
        }
        if !target.is_empty() && (target.color() == color || target.ty() == PieceTy::King) {
            return false;
        }
        let geom_ok = match piece.ty() {
            PieceTy::Pawn => self.is_valid_pawn(m, color),
            PieceTy::Knight => m.promotion.is_none() && test_bit(knight_attacks(from_sq), to_sq),
            PieceTy::Bishop => {
                let reach = bishop_attacks(from_sq, all);
                proof {
                    lemma_and(reach, !own);
                }
                m.promotion.is_none() && test_bit(reach & !own, to_sq)
            },
            PieceTy::Rook => {
                let reach = rook_attacks(from_sq, all);
                proof {
                    lemma_and(reach, !own);
                }
                m.promotion.is_none() && test_bit(reach & !own, to_sq)
            },
            PieceTy::Queen => {
                let diag = bishop_attacks(from_sq, all);
                let straight = rook_attacks(from_sq, all);
                let reach = diag | straight;
                proof {
                    lemma_or(diag, straight);
                    lemma_and(reach, !own);
                }
                m.promotion.is_none() && test_bit(reach & !own, to_sq)
            },
            PieceTy::King => self.is_valid_king(m, color, c),
        };
        if !geom_ok {
            return false;
        }
        self.move_is_legal(m)
    }
}

impl BitBoards {
    /// Whether each square holds at most one piece and the side and
    /// occupancy sets are the unions of the piece sets.
    pub fn is_consistent(&self) -> (r: bool)
        ensures
            r == self.wf(),
    {
        let mut i: u32 = 0;
        while i < 64
            invariant
                i <= 64,
                forall|j: int| 0 <= j < i ==> #[trigger] self.wf_at(j),
            decreases 64 - i,
        {
            let mut counts: [u32; 2] = [0, 0];
            let mut c: usize = 0;
            while c < 2
                invariant
                    c <= 2,
                    i < 64,
                    forall|k: int| 0 <= k < c ==> counts[k] == self.count_side(k, i as int),
                decreases 2 - c,
            {
                let mut n: u32 = 0;
                if test_bit(self.pieces[c][0], i) {
                    n = n + 1;
                }
                if test_bit(self.pieces[c][1], i) {
                    n = n + 1;
                }
                if test_bit(self.pieces[c][2], i) {
                    n = n + 1;
                }
                if test_bit(self.pieces[c][3], i) {
                    n = n + 1;
                }
                if test_bit(self.pieces[c][4], i) {
                    n = n + 1;
                }
                if test_bit(self.pieces[c][5], i) {
                    n = n + 1;
                }
                counts[c] = n;
                c = c + 1;
            }
            let w = counts[0];
            let b = counts[1];
            let in_w = w > 0;
            let in_b = b > 0;
            proof {
                assert(in_w == self.in_side(0, i as int));
                assert(in_b == self.in_side(1, i as int));
            }
            if w + b > 1 || test_bit(self.color[0], i) != in_w || test_bit(self.color[1], i) != in_b
                || test_bit(self.all, i) != (in_w || in_b) {
                assert(!self.wf_at(i as int));
                return false;
            }
            i = i + 1;
        }
        true
    }
}

impl Game {
    /// Whether side `c` has one king and each castling right it holds has
    /// the king and the rook at home.
    pub fn side_is_sound(&self, c: Color) -> (r: bool)
        requires
            self.wf(),
        ensures
            r == self.side_sound(c),
    {
        let ci = c.to_index();
        let k = self.board.pieces[ci][5];
        proof {
            lemma_view_bits(self.board);
            lemma_square_of(PieceTy::King, c);
            lemma_square_of(PieceTy::Rook, c);
        }
        if k == 0 {
            return false;
        }
        let mut rest = k;
        let s = pop_lsb(&mut rest);
        proof {
            lemma_lowest(k);
            lemma_zero_iff(rest);
            assert forall|t: int| 0 <= t < 64 implies (#[trigger] self.board@[t] == Square::of(PieceTy::King, c))
                == has_bit(k, t) by {
                assert(self.board.at(ci as int, 5, t) == has_bit(k, t));
            }
        }
        if rest != 0 {
            proof {
                let t = choose|t: int| 0 <= t < 64 && has_bit(rest, t);
                assert(has_bit(k, t) && t != s);
                assert(self.board@[t] == Square::of(PieceTy::King, c));
            }
            return false;
        }
        proof {
            assert forall|t: int| 0 <= t < 64 && #[trigger] self.board@[t] == Square::of(PieceTy::King, c) implies t
                == self.king_square(c) by {
                assert(has_bit(k, t));
                assert(!has_bit(rest, t));
            }
        }
        let back = c.start();
        let rights = self.castleable[ci];
        if (rights.0 || rights.1) && self.get((4, back)) != Square::piece(PieceTy::King, c) {
            return false;
        }
        if rights.0 && self.get((0, back)) != Square::piece(PieceTy::Rook, c) {
            return false;
        }
        if rights.1 && self.get((7, back)) != Square::piece(PieceTy::Rook, c) {
            return false;
        }
        true
    }

    /// Whether the position is sound: well formed, one king a side, castling
    /// rights backed by king and rook at home, and an en passant square on
    /// the right rank, empty, with the pawn that passed it just beyond.
    pub fn is_sound(&self) -> (r: bool)
        ensures
            r == self.sound(),
    {
        if !self.board.is_consistent() {
            return false;
        }
        if self.prev_pos.prev_pos_idx > 256 || self.prev_pos.prev_pos_idx != self.moves.len() {
            return false;
        }
        match self.enpass {
            Some(e) => {
                if e.0 >= 8 || e.1 >= 8 {
                    return false;
                }
            },
            None => {},
        }
        assert(self.wf());
        if !self.side_is_sound(Color::White) || !self.side_is_sound(Color::Black) {
            return false;
        }
        match self.enpass {
            Some(e) => {
                let want: usize = if self.to_move == Color::White {
                    5
                } else {
                    2
                };
                if e.1 != want {
                    return false;
                }
                if !self.get(e).is_empty() {
                    return false;
                }
                let victim: Pos = if self.to_move == Color::White {
                    (e.0, e.1 - 1)
                } else {
                    (e.0, e.1 + 1)
                };
                assert(victim == victim_square(e, self.to_move));
                self.get(victim) == Square::piece(PieceTy::Pawn, self.to_move.other())
            },
            None => true,
        }
    }
}

} // verus!
