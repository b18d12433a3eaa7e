use vstd::prelude::*;
use crate::bits::{BB, has_bit, bit, test_bit, lemma_and, lemma_or, lemma_not, lemma_zero, lemma_ext};
use crate::types::{Square, PieceTy, Color, Pos, sq, pos_index, lemma_square_of, lemma_square_decode};

verus! {

/// A board as an array of ranks, each an array of files.
pub type Board = [[Square; 8]; 8];

/// The squares of an array board, by square number.
pub open spec fn board_seq(b: Board) -> Seq<Square> {
    Seq::new(64, |k: int| b[k / 8][k % 8])
}

/// The piece kind numbered `t` (pawn = 0 .. king = 5).
pub open spec fn kind_of_index(t: int) -> PieceTy {
    PieceTy::from_code((t + 1) as u8)
}

pub open spec fn side_of_index(c: int) -> Color {
    if c == 0 { Color::White } else { Color::Black }
}

/// The piece sets of both sides, by side and kind, with their unions.
#[derive(Debug, Clone, Copy)]
pub struct BitBoards {
    pub pieces: [[BB; 6]; 2],
    pub color: [BB; 2],
    pub all: BB,
}

pub open spec fn b2i(b: bool) -> int {
    if b { 1 } else { 0 }
}

impl BitBoards {
    pub open spec fn at(&self, c: int, t: int, i: int) -> bool {
        has_bit(self.pieces[c][t], i)
    }

    pub open spec fn in_side(&self, c: int, i: int) -> bool {
        self.at(c, 0, i) || self.at(c, 1, i) || self.at(c, 2, i) || self.at(c, 3, i) || self.at(c, 4, i)
            || self.at(c, 5, i)
    }

    pub open spec fn count_side(&self, c: int, i: int) -> int {
        b2i(self.at(c, 0, i)) + b2i(self.at(c, 1, i)) + b2i(self.at(c, 2, i)) + b2i(self.at(c, 3, i))
            + b2i(self.at(c, 4, i)) + b2i(self.at(c, 5, i))
    }

    /// The kind of side `c`'s piece on square `i`.
    pub open spec fn kind_at(&self, c: int, i: int) -> PieceTy {
        if self.at(c, 0, i) {
            PieceTy::Pawn
        } else if self.at(c, 1, i) {
            PieceTy::Knight
        } else if self.at(c, 2, i) {
            PieceTy::Bishop
        } else if self.at(c, 3, i) {
            PieceTy::Rook
        } else if self.at(c, 4, i) {
            PieceTy::Queen
        } else {
            PieceTy::King
        }
    }

    /// What stands on square `i`.
    pub open spec fn square_at(&self, i: int) -> Square {
        if self.in_side(0, i) {
            Square::of(self.kind_at(0, i), Color::White)
        } else if self.in_side(1, i) {
            Square::of(self.kind_at(1, i), Color::Black)
        } else {
            Square::blank()
        }
    }

    /// The board as a sequence of 64 squares.
    pub open spec fn view(&self) -> Seq<Square> {
        Seq::new(64, |i: int| self.square_at(i))
    }

    /// Each square holds at most one piece, and the side sets and the
    /// occupancy set are the unions of the piece sets.
    pub open spec fn wf(&self) -> bool {
        forall|i: int| 0 <= i < 64 ==> #[trigger] self.wf_at(i)
    }

    pub open spec fn wf_at(&self, i: int) -> bool {
        &&& self.count_side(0, i) + self.count_side(1, i) <= 1
        &&& has_bit(self.color[0], i) == self.in_side(0, i)
        &&& has_bit(self.color[1], i) == self.in_side(1, i)
        &&& has_bit(self.all, i) == (self.in_side(0, i) || self.in_side(1, i))
    }

    /// Clears square `s`, which holds side `c`'s piece of kind number `t`.
    pub fn remove_piece(&mut self, s: u32, c: usize, t: usize)
        requires
            old(self).wf(),
            s < 64,
            c < 2,
            t < 6,
            old(self).at(c as int, t as int, s as int),
        ensures
            final(self).wf(),
            final(self)@ == old(self)@.update(s as int, Square::blank()),
    {
        let ghost o = *self;
        let b = bit(s);
        let nb = !b;
        self.pieces[c][t] = self.pieces[c][t] & nb;
        self.color[c] = self.color[c] & nb;
        self.all = self.all & nb;
        proof {
            lemma_not(b);
            lemma_and(o.pieces[c as int][t as int], nb);
            lemma_and(o.color[c as int], nb);
            lemma_and(o.all, nb);
            assert forall|i: int| 0 <= i < 64 implies #[trigger] self.wf_at(i) by {
                assert(o.wf_at(i));
            }
            assert forall|i: int| 0 <= i < 64 implies #[trigger] self.square_at(i) == (if i == s {
                Square::blank()
            } else {
                o.square_at(i)
            }) by {
                assert(o.wf_at(i));
            }
            assert(self@ =~= o@.update(s as int, Square::blank()));
        }
    }

    /// Puts side `c`'s piece of kind number `t` on the empty square `s`.
    pub fn place_piece(&mut self, s: u32, c: usize, t: usize)
        requires
            old(self).wf(),
            s < 64,
            c < 2,
            t < 6,
            old(self)@[s as int] == Square::blank(),
        ensures
            final(self).wf(),
            final(self)@ == old(self)@.update(
                s as int,
                Square::of(kind_of_index(t as int), side_of_index(c as int)),
            ),
    {
        let ghost o = *self;
        let b = bit(s);
        self.pieces[c][t] = self.pieces[c][t] | b;
        self.color[c] = self.color[c] | b;
        self.all = self.all | b;
        proof {
            lemma_or(o.pieces[c as int][t as int], b);
            lemma_or(o.color[c as int], b);
            lemma_or(o.all, b);
            assert(!o.in_side(0, s as int) && !o.in_side(1, s as int)) by {
                if o.in_side(0, s as int) {
                    lemma_square_of(o.kind_at(0, s as int), Color::White);
                }
                if o.in_side(1, s as int) {
                    lemma_square_of(o.kind_at(1, s as int), Color::Black);
                }
            }
            assert forall|i: int| 0 <= i < 64 implies #[trigger] self.wf_at(i) by {
                assert(o.wf_at(i));
            }
            assert forall|i: int| 0 <= i < 64 implies #[trigger] self.square_at(i) == (if i == s {
                Square::of(kind_of_index(t as int), side_of_index(c as int))
            } else {
                o.square_at(i)
            }) by {
                assert(o.wf_at(i));
            }
            assert(self@ =~= o@.update(
                s as int,
                Square::of(kind_of_index(t as int), side_of_index(c as int)),
            ));
        }
    }

    /// The board with nothing on it.
    pub fn empty() -> (r: BitBoards)
        ensures
            r.wf(),
            r@ == Seq::new(64, |k: int| Square::blank()),
    {
        let r = BitBoards { pieces: [[0; 6]; 2], color: [0; 2], all: 0 };
        proof {
            lemma_zero();
            assert forall|i: int| 0 <= i < 64 implies #[trigger] r.wf_at(i) by {}
            assert(r@ =~= Seq::new(64, |k: int| Square::blank()));
        }
        r
    }

    /// Builds the piece sets of an array board.
    pub fn from_board(b: Board) -> (r: BitBoards)
        requires
            forall|k: int| 0 <= k < 64 ==> (#[trigger] board_seq(b)[k]).is_valid(),
        ensures
            r.wf(),
            r@ == board_seq(b),
    {
        let mut s = BitBoards::empty();
        let mut idx: u32 = 0;
        while idx < 64
            invariant
                idx <= 64,
                s.wf(),
                forall|k: int| 0 <= k < 64 ==> (#[trigger] board_seq(b)[k]).is_valid(),
                s@ == Seq::new(64, |k: int| if k < idx { board_seq(b)[k] } else { Square::blank() }),
            decreases 64 - idx,
        {
            let y = (idx / 8) as usize;
            let x = (idx % 8) as usize;
            let sqv = b[y][x];
            assert(sqv == board_seq(b)[idx as int]);
            if !sqv.is_empty() {
                let c = sqv.color().to_index();
                let t = (sqv.ty().to_u8() - 1) as usize;
                proof {
                    lemma_square_decode(sqv);
                }
                s.place_piece(idx, c, t);
            }
            idx = idx + 1;
            assert(s@ =~= Seq::new(64, |k: int| if k < idx { board_seq(b)[k] } else { Square::blank() }));
        }
        assert(s@ =~= board_seq(b));
        s
    }

    /// What stands on position `p`.
    pub fn get(&self, p: Pos) -> (r: Square)
        requires
            self.wf(),
            p.1 * 8 + p.0 < 64,
        ensures
            r == self@[pos_index(p)],
            r.is_valid(),
    {
        let s = sq(p);
        let ghost i = s as int;
        proof {
            assert(self.wf_at(i));
        }
        if !test_bit(self.all, s) {
            return Square::empty();
        }
        let white = test_bit(self.color[0], s);
        let c_idx: usize = if white { 0 } else { 1 };
        let color = if white { Color::White } else { Color::Black };
        let mut n: usize = 0;
        while n < 6 && !test_bit(self.pieces[c_idx][n], s)
            invariant
                n <= 6,
                c_idx < 2,
                s < 64,
                i == s as int,
                forall|m: int| 0 <= m < n ==> !self.at(c_idx as int, m, i),
                self.in_side(c_idx as int, i),
            decreases 6 - n,
        {
            n = n + 1;
        }
        proof {
            lemma_square_of(self.kind_at(c_idx as int, i), color);
        }
        Square::piece(PieceTy::from_u8(n as u8 + 1), color)
    }

    /// Whether position `p` is occupied.
    pub fn occupied(&self, p: Pos) -> (r: bool)
        requires
            self.wf(),
            p.1 * 8 + p.0 < 64,
        ensures
            r == (self@[pos_index(p)] != Square::blank()),
    {
        let s = sq(p);
        proof {
            assert(self.wf_at(s as int));
            lemma_square_of(self.kind_at(0, s as int), Color::White);
            lemma_square_of(self.kind_at(1, s as int), Color::Black);
        }
        test_bit(self.all, s)
    }
}

/// Under well-formedness the piece sets are determined by the squares.
pub proof fn lemma_view_bits(bb: BitBoards)
    requires
        bb.wf(),
    ensures
        forall|c: int, t: int, i: int|
            0 <= c < 2 && 0 <= t < 6 && 0 <= i < 64 ==> #[trigger] bb.at(c, t, i) == (bb@[i]
                == Square::of(kind_of_index(t), side_of_index(c))),
        forall|c: int, i: int|
            0 <= c < 2 && 0 <= i < 64 ==> #[trigger] has_bit(bb.color[c], i) == (bb@[i]
                != Square::blank() && bb@[i].side() == side_of_index(c)),
        forall|i: int| 0 <= i < 64 ==> #[trigger] has_bit(bb.all, i) == (bb@[i] != Square::blank()),
        forall|i: int| 0 <= i < 64 ==> (#[trigger] bb@[i]).is_valid(),
{
    assert forall|c: int, t: int, i: int|
        0 <= c < 2 && 0 <= t < 6 && 0 <= i < 64 implies #[trigger] bb.at(c, t, i) == (bb@[i]
            == Square::of(kind_of_index(t), side_of_index(c))) by {
        assert(bb.wf_at(i));
        lemma_square_of(kind_of_index(t), side_of_index(c));
        lemma_square_of(bb.kind_at(0, i), Color::White);
        lemma_square_of(bb.kind_at(1, i), Color::Black);
    }
    assert forall|c: int, i: int|
        0 <= c < 2 && 0 <= i < 64 implies #[trigger] has_bit(bb.color[c], i) == (bb@[i]
            != Square::blank() && bb@[i].side() == side_of_index(c)) by {
        assert(bb.wf_at(i));
        lemma_square_of(bb.kind_at(0, i), Color::White);
        lemma_square_of(bb.kind_at(1, i), Color::Black);
    }
    assert forall|i: int| 0 <= i < 64 implies #[trigger] has_bit(bb.all, i) == (bb@[i]
        != Square::blank()) by {
        assert(bb.wf_at(i));
        lemma_square_of(bb.kind_at(0, i), Color::White);
        lemma_square_of(bb.kind_at(1, i), Color::Black);
    }
    assert forall|i: int| 0 <= i < 64 implies (#[trigger] bb@[i]).is_valid() by {
        lemma_square_of(bb.kind_at(0, i), Color::White);
        lemma_square_of(bb.kind_at(1, i), Color::Black);
    }
}

/// Two well-formed boards with the same squares are the same boards.
pub proof fn lemma_view_determines(a: BitBoards, b: BitBoards)
    requires
        a.wf(),
        b.wf(),
        a@ == b@,
    ensures
        a == b,
{
    lemma_view_bits(a);
    lemma_view_bits(b);
    assert forall|c: int, t: int| 0 <= c < 2 && 0 <= t < 6 implies a.pieces[c][t] == b.pieces[c][t] by {
        assert forall|i: int| 0 <= i < 64 implies #[trigger] has_bit(a.pieces[c][t], i) == has_bit(
            b.pieces[c][t],
            i,
        ) by {
            assert(a.at(c, t, i) == b.at(c, t, i));
        }
        lemma_ext(a.pieces[c][t], b.pieces[c][t]);
    }
    assert forall|c: int| 0 <= c < 2 implies a.color[c] == b.color[c] by {
        assert forall|i: int| 0 <= i < 64 implies #[trigger] has_bit(a.color[c], i) == has_bit(
            b.color[c],
            i,
        ) by {}
        lemma_ext(a.color[c], b.color[c]);
    }
    assert forall|i: int| 0 <= i < 64 implies #[trigger] has_bit(a.all, i) == has_bit(b.all, i) by {}
    lemma_ext(a.all, b.all);
    assert(a.pieces[0] =~= b.pieces[0]);
    assert(a.pieces[1] =~= b.pieces[1]);
    assert(a.pieces =~= b.pieces);
    assert(a.color =~= b.color);
}

} // verus!
