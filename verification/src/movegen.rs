use vstd::prelude::*;
use vstd::seq_lib::lemma_seq_contains_after_push;
use crate::bits::{BB, has_bit, bit_squares, bit, lowest, pop_lsb, lemma_and, lemma_or, lemma_not, lemma_lowest, shift_spec};
use crate::board::{BitBoards, lemma_view_bits};
use crate::types::{Color, PieceTy, Square, Pos, Move, sq, sq_to_pos, index_pos, pos_index, on_board, lemma_square_of, lemma_pos_index_roundtrip};
use crate::attacks::{knight_attack, king_attack, pawn_attack, bishop_reach, rook_reach, knight_attacks, king_attacks, bishop_attacks, rook_attacks, pawn_attacks, offset_hit, file_of, rank_of, sq_at, in_board, lemma_offset_symmetric, lemma_square_coords};
use crate::threats::{occupied, lemma_occupied};
use crate::game::Game;

verus! {

pub const FILE_A: u64 = 0x0101010101010101;
pub const FILE_H: u64 = 0x8080808080808080;
pub const RANK_2: u64 = 0xFF00;
pub const RANK_3: u64 = 0xFF0000;
pub const RANK_6: u64 = 0xFF0000000000;
pub const RANK_7: u64 = 0xFF000000000000;

proof fn bv_masks(t: u64)
    by (bit_vector)
    requires
        t < 64,
    ensures
        (0x0101010101010101u64 >> t) & 1u64 == 1u64 <==> t % 8 == 0,
        (0x8080808080808080u64 >> t) & 1u64 == 1u64 <==> t % 8 == 7,
        (0xFF00u64 >> t) & 1u64 == 1u64 <==> t / 8 == 1,
        (0xFF0000u64 >> t) & 1u64 == 1u64 <==> t / 8 == 2,
        (0xFF0000000000u64 >> t) & 1u64 == 1u64 <==> t / 8 == 5,
        (0xFF000000000000u64 >> t) & 1u64 == 1u64 <==> t / 8 == 6,
{
}

/// The files and ranks the generator's masks stand for.
pub proof fn lemma_masks()
    ensures
        forall|t: int| #[trigger] has_bit(FILE_A, t) == (0 <= t < 64 && file_of(t) == 0),
        forall|t: int| #[trigger] has_bit(FILE_H, t) == (0 <= t < 64 && file_of(t) == 7),
        forall|t: int| #[trigger] has_bit(RANK_2, t) == (0 <= t < 64 && rank_of(t) == 1),
        forall|t: int| #[trigger] has_bit(RANK_3, t) == (0 <= t < 64 && rank_of(t) == 2),
        forall|t: int| #[trigger] has_bit(RANK_6, t) == (0 <= t < 64 && rank_of(t) == 5),
        forall|t: int| #[trigger] has_bit(RANK_7, t) == (0 <= t < 64 && rank_of(t) == 6),
{
    assert forall|t: int| #[trigger] has_bit(FILE_A, t) == (0 <= t < 64 && file_of(t) == 0) by {
        if 0 <= t < 64 { bv_masks(t as u64); }
    }
    assert forall|t: int| #[trigger] has_bit(FILE_H, t) == (0 <= t < 64 && file_of(t) == 7) by {
        if 0 <= t < 64 { bv_masks(t as u64); }
    }
    assert forall|t: int| #[trigger] has_bit(RANK_2, t) == (0 <= t < 64 && rank_of(t) == 1) by {
        if 0 <= t < 64 { bv_masks(t as u64); }
    }
    assert forall|t: int| #[trigger] has_bit(RANK_3, t) == (0 <= t < 64 && rank_of(t) == 2) by {
        if 0 <= t < 64 { bv_masks(t as u64); }
    }
    assert forall|t: int| #[trigger] has_bit(RANK_6, t) == (0 <= t < 64 && rank_of(t) == 5) by {
        if 0 <= t < 64 { bv_masks(t as u64); }
    }
    assert forall|t: int| #[trigger] has_bit(RANK_7, t) == (0 <= t < 64 && rank_of(t) == 6) by {
        if 0 <= t < 64 { bv_masks(t as u64); }
    }
}

/// Side `c` has a piece on square `t`.
pub open spec fn own_at(v: Seq<Square>, c: Color, t: int) -> bool {
    v[t] != Square::blank() && v[t].side() == c
}

/// The other side has a piece on square `t`.
pub open spec fn enemy_at(v: Seq<Square>, c: Color, t: int) -> bool {
    v[t] != Square::blank() && v[t].side() != c
}

/// A piece kind a pawn may promote to.
pub open spec fn is_promo_kind(p: Option<PieceTy>) -> bool {
    ||| p == Some(PieceTy::Queen)
    ||| p == Some(PieceTy::Rook)
    ||| p == Some(PieceTy::Bishop)
    ||| p == Some(PieceTy::Knight)
}

/// The squares a knight (1), bishop (2), rook (3) or queen (4) on `f`
/// moves to, before own pieces are taken out.
pub open spec fn piece_targets(kind: int, f: int, occ: Set<int>, t: int) -> bool {
    if kind == 1 {
        knight_attack(f, t)
    } else if kind == 2 {
        bishop_reach(f, occ).contains(t)
    } else if kind == 3 {
        rook_reach(f, occ).contains(t)
    } else {
        bishop_reach(f, occ).contains(t) || rook_reach(f, occ).contains(t)
    }
}

/// The squares a knight, bishop, rook or queen on `from` moves to.
fn piece_reach(kind: usize, from: u32, all: BB) -> (r: BB)
    requires
        1 <= kind <= 4,
        from < 64,
    ensures
        forall|t: int| #[trigger] has_bit(r, t) == piece_targets(kind as int, from as int, bit_squares(all), t),
{
    if kind == 1 {
        knight_attacks(from)
    } else if kind == 2 {
        bishop_attacks(from, all)
    } else if kind == 3 {
        rook_attacks(from, all)
    } else {
        let b = bishop_attacks(from, all);
        let r = rook_attacks(from, all);
        proof {
            lemma_or(b, r);
        }
        b | r
    }
}

/// Appending an element not yet present keeps a sequence free of repeats.
pub proof fn lemma_push_fresh<A>(s: Seq<A>, x: A)
    requires
        s.no_duplicates(),
        !s.contains(x),
    ensures
        s.push(x).no_duplicates(),
{
    let t = s.push(x);
    assert forall|i: int, j: int| 0 <= i < t.len() && 0 <= j < t.len() && i != j implies t[i] != t[j] by {
        if i < s.len() && j < s.len() {
            assert(t[i] == s[i] && t[j] == s[j]);
        } else if i < s.len() {
            assert(t[i] == s[i] && t[j] == x);
            assert(s.contains(s[i]));
        } else {
            assert(t[j] == s[j] && t[i] == x);
            assert(s.contains(s[j]));
        }
    }
}

/// The moves `f(i)` for each `i` below `n` with `p(i)`, in rising order of `i`.
pub open spec fn seq_where(p: spec_fn(int) -> bool, f: spec_fn(int) -> Seq<Move>, n: nat) -> Seq<Move>
    decreases n,
{
    if n == 0 {
        Seq::empty()
    } else {
        seq_where(p, f, (n - 1) as nat) + if p(n - 1) {
            f(n - 1)
        } else {
            Seq::<Move>::empty()
        }
    }
}

/// Numbers without `p` add nothing.
pub proof fn lemma_seq_where_skip(p: spec_fn(int) -> bool, f: spec_fn(int) -> Seq<Move>, k: nat, t: nat)
    requires
        k <= t,
        forall|i: int| k <= i < t ==> !#[trigger] p(i),
    ensures
        seq_where(p, f, t) == seq_where(p, f, k),
    decreases t,
{
    if t > k {
        lemma_seq_where_skip(p, f, k, (t - 1) as nat);
        assert(!p(t - 1));
        assert(seq_where(p, f, t) =~= seq_where(p, f, (t - 1) as nat));
    }
}

/// Past a stretch without `p`, the next number with `p` adds its moves.
pub proof fn lemma_seq_where_step(p: spec_fn(int) -> bool, f: spec_fn(int) -> Seq<Move>, k: nat, t: nat)
    requires
        k <= t,
        forall|i: int| k <= i < t ==> !#[trigger] p(i),
        p(t as int),
    ensures
        seq_where(p, f, t + 1) == seq_where(p, f, k) + f(t as int),
{
    lemma_seq_where_skip(p, f, k, t);
}

/// The bits of `rest` are those of `b` from `k` on; the lowest, `t`, is
/// taken out.
proof fn lemma_pop_rest(b: u64, before: u64, rest: u64, k: int, t: int)
    requires
        0 <= k <= t < 64,
        forall|i: int| #[trigger] has_bit(before, i) == (has_bit(b, i) && i >= k),
        forall|j: int| 0 <= j < t ==> !#[trigger] has_bit(before, j),
        has_bit(before, t),
        forall|i: int| #[trigger] has_bit(rest, i) == (has_bit(before, i) && i != t),
    ensures
        forall|i: int| #[trigger] has_bit(rest, i) == (has_bit(b, i) && i >= t + 1),
        forall|i: int| k <= i < t ==> !#[trigger] has_bit(b, i),
        has_bit(b, t),
{
    assert forall|i: int| k <= i < t implies !#[trigger] has_bit(b, i) by {
        assert(!has_bit(before, i));
    }
    assert forall|i: int| #[trigger] has_bit(rest, i) == (has_bit(b, i) && i >= t + 1) by {
        if k <= i < t {
            assert(!has_bit(before, i));
        }
    }
}

/// The moves from `from` to each square of `targets`, in rising order.
#[verifier::opaque]
pub open spec fn target_moves(from: int, targets: u64) -> Seq<Move> {
    seq_where(|i: int| has_bit(targets, i), |t: int| seq![Move { from: index_pos(from), to: index_pos(t), promotion: None }], 64)
}

/// Adds the moves from `from` to each square of `targets`; none is added
/// twice, so where the list had no repeats and no move from `from`, it
/// has none after.
fn push_targets(moves: &mut Vec<Move>, from: u32, targets: BB)
    requires
        from < 64,
    ensures
        forall|m: Move| #[trigger] final(moves)@.contains(m) <==> (old(moves)@.contains(m) || (m.from
            == index_pos(from as int) && m.promotion == None::<PieceTy> && on_board(m.to) && has_bit(
            targets,
            pos_index(m.to),
        ))),
        old(moves)@.no_duplicates() && (forall|m: Move| #[trigger] old(moves)@.contains(m) ==> m.from
            != index_pos(from as int)) ==> final(moves)@.no_duplicates(),
        final(moves)@ == old(moves)@ + target_moves(from as int, targets),
{
    let mut rest = targets;
    let fpos = sq_to_pos(from);
    let ghost start = moves@;
    let ghost p = |i: int| has_bit(targets, i);
    let ghost f = |t: int| seq![Move { from: index_pos(from as int), to: index_pos(t), promotion: None }];
    proof {
        reveal(target_moves);
    }
    let ghost mut k: int = 0;
    let ghost fresh = start.no_duplicates() && (forall|m: Move| #[trigger] start.contains(m) ==> m.from
        != fpos);
    while rest != 0
        invariant
            from < 64,
            fpos == index_pos(from as int),
            forall|i: int| #[trigger] has_bit(rest, i) ==> has_bit(targets, i),
            forall|m: Move| #[trigger] moves@.contains(m) <==> (start.contains(m) || (m.from == fpos
                && m.promotion == None::<PieceTy> && on_board(m.to) && has_bit(targets, pos_index(m.to))
                && !has_bit(rest, pos_index(m.to)))),
            fresh == (start.no_duplicates() && (forall|m: Move| #[trigger] start.contains(m) ==> m.from
                != fpos)),
            fresh ==> moves@.no_duplicates(),
            0 <= k <= 64,
            forall|i: int| #[trigger] has_bit(rest, i) == (has_bit(targets, i) && i >= k),
            p == (|i: int| has_bit(targets, i)),
            f == (|t: int| seq![Move { from: index_pos(from as int), to: index_pos(t), promotion: None }]),
            moves@ == start + seq_where(p, f, k as nat),
        decreases bit_squares(rest).len(),
    {
        let ghost before = rest;
        let ghost prev = moves@;
        proof {
            crate::bits::lemma_bit_squares_finite(before);
        }
        let t = pop_lsb(&mut rest);
        proof {
            assert(bit_squares(before).contains(t as int));
            lemma_pop_rest(targets, before, rest, k, t as int);
            lemma_seq_where_step(p, f, k as nat, t as nat);
        }
        let nm = Move { from: fpos, to: sq_to_pos(t), promotion: None };
        proof {
            if fresh {
                lemma_pos_index_roundtrip(nm.to, t as int);
                assert(!prev.contains(nm));
                lemma_push_fresh(prev, nm);
            }
        }
        moves.push(nm);
        proof {
            assert forall|m: Move| #[trigger] moves@.contains(m) <==> (start.contains(m) || (m.from
                == fpos && m.promotion == None::<PieceTy> && on_board(m.to) && has_bit(
                targets,
                pos_index(m.to),
            ) && !has_bit(rest, pos_index(m.to)))) by {
                lemma_seq_contains_after_push(prev, nm, m);
                lemma_pos_index_roundtrip(m.to, t as int);
            }
            assert(moves@ =~= start + seq_where(p, f, (t + 1) as nat));
            k = t + 1;
        }
    }
    proof {
        crate::bits::lemma_zero();
        assert forall|i: int| k <= i < 64 implies !#[trigger] p(i) by {
            assert(!has_bit(rest, i));
        }
        lemma_seq_where_skip(p, f, k as nat, 64);
    }
}

/// The moves of a piece of kind `kind` (knight 1 .. queen 4) on `f` to the
/// squares it reaches that `own` does not hold, in rising order.
pub open spec fn piece_steps(kind: int, f: int, own: u64, all: u64) -> Seq<Move> {
    seq_where(
        |t: int| piece_targets(kind, f, bit_squares(all), t) && !has_bit(own, t),
        |t: int| seq![Move { from: index_pos(f), to: index_pos(t), promotion: None }],
        64,
    )
}

/// The moves of the pieces of kind `kind` on the squares of `pieces`, piece
/// by piece in rising order of their squares.
#[verifier::opaque]
pub open spec fn piece_seq(kind: int, pieces: u64, own: u64, all: u64) -> Seq<Move> {
    seq_where(|f: int| has_bit(pieces, f), |f: int| piece_steps(kind, f, own, all), 64)
}

impl Game {
    /// The moves of side `c`'s pieces of kind `kind` (knight 1 .. queen 4).
    fn gen_piece_moves(&self, c: usize, kind: usize, own: BB, all: BB, moves: &mut Vec<Move>)
        requires
            c < 2,
            1 <= kind <= 4,
        ensures
            forall|m: Move| #[trigger] final(moves)@.contains(m) <==> (old(moves)@.contains(m) || (
            m.promotion == None::<PieceTy> && on_board(m.from) && on_board(m.to) && has_bit(
                self.board.pieces[c as int][kind as int],
                pos_index(m.from),
            ) && piece_targets(kind as int, pos_index(m.from), bit_squares(all), pos_index(m.to))
                && !has_bit(own, pos_index(m.to)))),
            old(moves)@.no_duplicates() && (forall|m: Move| #[trigger] old(moves)@.contains(m) ==> !(on_board(
                m.from,
            ) && has_bit(self.board.pieces[c as int][kind as int], pos_index(m.from))))
                ==> final(moves)@.no_duplicates(),
            final(moves)@ == old(moves)@ + piece_seq(kind as int, self.board.pieces[c as int][kind as int], own, all),
    {
        let pieces = self.board.pieces[c][kind];
        let mut rest = pieces;
        let ghost start = moves@;
        let ghost pp = |f: int| has_bit(pieces, f);
        let ghost pf = |f: int| piece_steps(kind as int, f, own, all);
        let ghost mut k: int = 0;
        let ghost fresh = start.no_duplicates() && (forall|m: Move| #[trigger] start.contains(m) ==> !(on_board(
            m.from,
        ) && has_bit(pieces, pos_index(m.from))));
        proof {
            lemma_not(own);
        }
        while rest != 0
            invariant
                c < 2,
                1 <= kind <= 4,
                pieces == self.board.pieces[c as int][kind as int],
                0 <= k <= 64,
                forall|i: int| #[trigger] has_bit(rest, i) == (has_bit(pieces, i) && i >= k),
                pp == (|f: int| has_bit(pieces, f)),
                pf == (|f: int| piece_steps(kind as int, f, own, all)),
                moves@ == start + seq_where(pp, pf, k as nat),
                fresh == (start.no_duplicates() && (forall|m: Move| #[trigger] start.contains(m) ==> !(on_board(
                    m.from,
                ) && has_bit(pieces, pos_index(m.from))))),
                fresh ==> moves@.no_duplicates(),
                forall|i: int| #[trigger] has_bit(rest, i) ==> has_bit(pieces, i),
                forall|i: int| 0 <= i < 64 ==> #[trigger] has_bit(!own, i) == !has_bit(own, i),
                forall|m: Move| #[trigger] moves@.contains(m) <==> (start.contains(m) || (m.promotion
                    == None::<PieceTy> && on_board(m.from) && on_board(m.to) && has_bit(
                    pieces,
                    pos_index(m.from),
                ) && !has_bit(rest, pos_index(m.from)) && piece_targets(
                    kind as int,
                    pos_index(m.from),
                    bit_squares(all),
                    pos_index(m.to),
                ) && !has_bit(own, pos_index(m.to)))),
            decreases bit_squares(rest).len(),
        {
            let ghost before = rest;
            let ghost prev = moves@;
            proof {
                crate::bits::lemma_bit_squares_finite(before);
            }
            let from = pop_lsb(&mut rest);
            proof {
                assert(bit_squares(before).contains(from as int));
                lemma_pop_rest(pieces, before, rest, k, from as int);
                lemma_seq_where_step(pp, pf, k as nat, from as nat);
            }
            let reach = piece_reach(kind, from, all);
            let ghost prev_moves = moves@;
            let targets = reach & !own;
            proof {
                lemma_and(reach, !own);
                if fresh {
                    lemma_pos_index_roundtrip(index_pos(from as int), from as int);
                    assert forall|m: Move| #[trigger] moves@.contains(m) implies m.from != index_pos(from as int) by {
                        if m.from == index_pos(from as int) {
                            assert(has_bit(pieces, from as int));
                            assert(has_bit(before, from as int));
                        }
                    }
                }
            }
            push_targets(moves, from, targets);
            proof {
                assert forall|m: Move| #[trigger] moves@.contains(m) <==> (start.contains(m) || (
                m.promotion == None::<PieceTy> && on_board(m.from) && on_board(m.to) && has_bit(
                    pieces,
                    pos_index(m.from),
                ) && !has_bit(rest, pos_index(m.from)) && piece_targets(
                    kind as int,
                    pos_index(m.from),
                    bit_squares(all),
                    pos_index(m.to),
                ) && !has_bit(own, pos_index(m.to)))) by {
                    lemma_pos_index_roundtrip(m.from, from as int);
                    lemma_pos_index_roundtrip(m.to, 0);
                }
                reveal(target_moves);
                assert forall|t: int| #[trigger] has_bit(targets, t) == (piece_targets(kind as int, from as int, bit_squares(all), t)
                    && !has_bit(own, t)) by {
                    assert(has_bit(reach, t) == piece_targets(kind as int, from as int, bit_squares(all), t));
                    if !(0 <= t < 64) {
                        assert(!has_bit(reach, t));
                        assert(!has_bit(targets, t));
                    }
                }
                assert((|i: int| has_bit(targets, i)) =~= (|t: int| piece_targets(kind as int, from as int, bit_squares(all), t)
                    && !has_bit(own, t)));
                assert(target_moves(from as int, targets) == piece_steps(kind as int, from as int, own, all));
                assert(moves@ =~= start + seq_where(pp, pf, (from + 1) as nat));
                k = from + 1;
            }
        }
        proof {
            crate::bits::lemma_zero();
            assert forall|i: int| k <= i < 64 implies !#[trigger] pp(i) by {
                assert(!has_bit(rest, i));
            }
            lemma_seq_where_skip(pp, pf, k as nat, 64);
            reveal(piece_seq);
        }
    }

    pub fn gen_knight_moves(&self, c: usize, own: BB, moves: &mut Vec<Move>)
        requires
            c < 2,
        ensures
            forall|m: Move| #[trigger] final(moves)@.contains(m) <==> (old(moves)@.contains(m) || (
            m.promotion == None::<PieceTy> && on_board(m.from) && on_board(m.to) && has_bit(
                self.board.pieces[c as int][1],
                pos_index(m.from),
            ) && knight_attack(pos_index(m.from), pos_index(m.to)) && !has_bit(own, pos_index(m.to)))),
            old(moves)@.no_duplicates() && (forall|m: Move| #[trigger] old(moves)@.contains(m) ==> !(on_board(
                m.from,
            ) && has_bit(self.board.pieces[c as int][1], pos_index(m.from)))) ==> final(moves)@.no_duplicates(),
            final(moves)@ == old(moves)@ + piece_seq(1, self.board.pieces[c as int][1], own, 0),
    {
        self.gen_piece_moves(c, 1, own, 0, moves);
    }

    pub fn gen_bishop_moves(&self, c: usize, own: BB, all: BB, moves: &mut Vec<Move>)
        requires
            c < 2,
        ensures
            forall|m: Move| #[trigger] final(moves)@.contains(m) <==> (old(moves)@.contains(m) || (
            m.promotion == None::<PieceTy> && on_board(m.from) && on_board(m.to) && has_bit(
                self.board.pieces[c as int][2],
                pos_index(m.from),
            ) && bishop_reach(pos_index(m.from), bit_squares(all)).contains(pos_index(m.to))
                && !has_bit(own, pos_index(m.to)))),
            old(moves)@.no_duplicates() && (forall|m: Move| #[trigger] old(moves)@.contains(m) ==> !(on_board(
                m.from,
            ) && has_bit(self.board.pieces[c as int][2], pos_index(m.from)))) ==> final(moves)@.no_duplicates(),
            final(moves)@ == old(moves)@ + piece_seq(2, self.board.pieces[c as int][2], own, all),
    {
        self.gen_piece_moves(c, 2, own, all, moves);
    }

    pub fn gen_rook_moves(&self, c: usize, own: BB, all: BB, moves: &mut Vec<Move>)
        requires
            c < 2,
        ensures
            forall|m: Move| #[trigger] final(moves)@.contains(m) <==> (old(moves)@.contains(m) || (
            m.promotion == None::<PieceTy> && on_board(m.from) && on_board(m.to) && has_bit(
                self.board.pieces[c as int][3],
                pos_index(m.from),
            ) && rook_reach(pos_index(m.from), bit_squares(all)).contains(pos_index(m.to))
                && !has_bit(own, pos_index(m.to)))),
            old(moves)@.no_duplicates() && (forall|m: Move| #[trigger] old(moves)@.contains(m) ==> !(on_board(
                m.from,
            ) && has_bit(self.board.pieces[c as int][3], pos_index(m.from)))) ==> final(moves)@.no_duplicates(),
            final(moves)@ == old(moves)@ + piece_seq(3, self.board.pieces[c as int][3], own, all),
    {
        self.gen_piece_moves(c, 3, own, all, moves);
    }

    pub fn gen_queen_moves(&self, c: usize, own: BB, all: BB, moves: &mut Vec<Move>)
        requires
            c < 2,
        ensures
            forall|m: Move| #[trigger] final(moves)@.contains(m) <==> (old(moves)@.contains(m) || (
            m.promotion == None::<PieceTy> && on_board(m.from) && on_board(m.to) && has_bit(
                self.board.pieces[c as int][4],
                pos_index(m.from),
            ) && (bishop_reach(pos_index(m.from), bit_squares(all)).contains(pos_index(m.to))
                || rook_reach(pos_index(m.from), bit_squares(all)).contains(pos_index(m.to)))
                && !has_bit(own, pos_index(m.to)))),
            old(moves)@.no_duplicates() && (forall|m: Move| #[trigger] old(moves)@.contains(m) ==> !(on_board(
                m.from,
            ) && has_bit(self.board.pieces[c as int][4], pos_index(m.from)))) ==> final(moves)@.no_duplicates(),
            final(moves)@ == old(moves)@ + piece_seq(4, self.board.pieces[c as int][4], own, all),
    {
        self.gen_piece_moves(c, 4, own, all, moves);
    }
}

/// The square a move of `df` files and `dr` ranks leads to.
pub proof fn lemma_offset_index(f: int, t: int, df: int, dr: int)
    requires
        0 <= f < 64,
    ensures
        offset_hit(f, t, df, dr) <==> (in_board(file_of(f) + df, rank_of(f) + dr) && t == f + df + 8
            * dr),
{
    lemma_square_coords(f);
}

/// A square of a well-formed board holds at most one kind of a side's pieces.
proof fn lemma_one_kind(bb: BitBoards, c: int, t1: int, t2: int, i: int)
    requires
        bb.wf(),
        0 <= c < 2,
        0 <= t1 < 6,
        0 <= t2 < 6,
        t1 != t2,
        has_bit(bb.pieces[c][t1], i),
    ensures
        !has_bit(bb.pieces[c][t2], i),
{
    assert(bb.wf_at(i));
}

/// Two batches of shifted moves with different shifts or promotion kinds
/// share no move.
proof fn lemma_shifted_distinct(m: Move, t1: BB, d1: int, p1: bool, t2: BB, d2: int, p2: bool)
    requires
        shifted_move(t1, d1, p1, m),
        d1 != d2 || p1 != p2,
        forall|t: int| #[trigger] has_bit(t1, t) ==> 0 <= t - d1 < 64,
        forall|t: int| #[trigger] has_bit(t2, t) ==> 0 <= t - d2 < 64,
    ensures
        !shifted_move(t2, d2, p2, m),
{
    if shifted_move(t2, d2, p2, m) {
        let t = pos_index(m.to);
        lemma_pos_index_roundtrip(m.from, t - d1);
        lemma_pos_index_roundtrip(m.from, t - d2);
    }
}

/// A shifted move whose origins are all pawns starts on a pawn.
proof fn lemma_shifted_from(m: Move, targets: BB, delta: int, promo: bool, pawns: BB)
    requires
        shifted_move(targets, delta, promo, m),
        forall|t: int| #[trigger] has_bit(targets, t) ==> 0 <= t - delta < 64 && has_bit(pawns, t - delta),
    ensures
        on_board(m.from),
        has_bit(pawns, pos_index(m.from)),
{
    lemma_pos_index_roundtrip(m.from, pos_index(m.to) - delta);
}

/// A move `push_shifted(.., targets, delta, promo)` adds.
pub open spec fn shifted_move(targets: BB, delta: int, promo: bool, m: Move) -> bool {
    &&& on_board(m.to)
    &&& has_bit(targets, pos_index(m.to))
    &&& m.from == index_pos(pos_index(m.to) - delta)
    &&& if promo {
        is_promo_kind(m.promotion)
    } else {
        m.promotion == None::<PieceTy>
    }
}

/// The moves to `t` from `t - delta`: one plain move, or one for each
/// promotion kind, queen, rook, bishop, knight.
pub open spec fn shifted_moves(t: int, delta: int, promo: bool) -> Seq<Move> {
    let from = index_pos(t - delta);
    let to = index_pos(t);
    if promo {
        seq![
            Move { from, to, promotion: Some(PieceTy::Queen) },
            Move { from, to, promotion: Some(PieceTy::Rook) },
            Move { from, to, promotion: Some(PieceTy::Bishop) },
            Move { from, to, promotion: Some(PieceTy::Knight) },
        ]
    } else {
        seq![Move { from, to, promotion: None }]
    }
}

/// What `push_shifted(.., targets, delta, promo)` adds, in order.
#[verifier::opaque]
pub open spec fn shifted_seq(targets: u64, delta: int, promo: bool) -> Seq<Move> {
    seq_where(|i: int| has_bit(targets, i), |t: int| shifted_moves(t, delta, promo), 64)
}

/// Adds, for each square `t` of `targets`, the move from `t - delta` to
/// `t`: plain, or once for each promotion kind. None is added twice, so
/// where the list had no repeats and none of these moves, it has none after.
fn push_shifted(moves: &mut Vec<Move>, targets: BB, delta: i32, promo: bool)
    requires
        -16 <= delta <= 16,
        forall|t: int| #[trigger] has_bit(targets, t) ==> 0 <= t - delta < 64,
    ensures
        forall|m: Move| #[trigger] final(moves)@.contains(m) <==> (old(moves)@.contains(m) || (on_board(
            m.to,
        ) && has_bit(targets, pos_index(m.to)) && m.from == index_pos(pos_index(m.to) - delta) && (if promo {
            is_promo_kind(m.promotion)
        } else {
            m.promotion == None::<PieceTy>
        }))),
        old(moves)@.no_duplicates() && (forall|m: Move| #[trigger] old(moves)@.contains(m) ==> !shifted_move(
            targets,
            delta as int,
            promo,
            m,
        )) ==> final(moves)@.no_duplicates(),
        final(moves)@ == old(moves)@ + shifted_seq(targets, delta as int, promo),
{
    let mut rest = targets;
    let ghost start = moves@;
    let ghost p = |i: int| has_bit(targets, i);
    let ghost f = |t: int| shifted_moves(t, delta as int, promo);
    proof {
        reveal(shifted_seq);
    }
    let ghost mut k: int = 0;
    let ghost fresh = start.no_duplicates() && (forall|m: Move| #[trigger] start.contains(m) ==> !shifted_move(
        targets,
        delta as int,
        promo,
        m,
    ));
    while rest != 0
        invariant
            -16 <= delta <= 16,
            forall|t: int| #[trigger] has_bit(targets, t) ==> 0 <= t - delta < 64,
            forall|i: int| #[trigger] has_bit(rest, i) ==> has_bit(targets, i),
            forall|m: Move| #[trigger] moves@.contains(m) <==> (start.contains(m) || (on_board(m.to)
                && has_bit(targets, pos_index(m.to)) && !has_bit(rest, pos_index(m.to)) && m.from
                == index_pos(pos_index(m.to) - delta) && (if promo {
                is_promo_kind(m.promotion)
            } else {
                m.promotion == None::<PieceTy>
            }))),
            fresh == (start.no_duplicates() && (forall|m: Move| #[trigger] start.contains(m) ==> !shifted_move(
                targets,
                delta as int,
                promo,
                m,
            ))),
            fresh ==> moves@.no_duplicates(),
            0 <= k <= 64,
            forall|i: int| #[trigger] has_bit(rest, i) == (has_bit(targets, i) && i >= k),
            p == (|i: int| has_bit(targets, i)),
            f == (|t: int| shifted_moves(t, delta as int, promo)),
            moves@ == start + seq_where(p, f, k as nat),
        decreases bit_squares(rest).len(),
    {
        let ghost before = rest;
        let ghost prev = moves@;
        proof {
            crate::bits::lemma_bit_squares_finite(before);
        }
        let to = pop_lsb(&mut rest);
        proof {
            assert(bit_squares(before).contains(to as int));
            assert(has_bit(targets, to as int));
            lemma_pop_rest(targets, before, rest, k, to as int);
            lemma_seq_where_step(p, f, k as nat, to as nat);
        }
        let from = sq_to_pos((to as i32 - delta) as u32);
        let tpos = sq_to_pos(to);
        if promo {
            let m1 = Move { from, to: tpos, promotion: Some(PieceTy::Queen) };
            let m2 = Move { from, to: tpos, promotion: Some(PieceTy::Rook) };
            let m3 = Move { from, to: tpos, promotion: Some(PieceTy::Bishop) };
            let m4 = Move { from, to: tpos, promotion: Some(PieceTy::Knight) };
            proof {
                if fresh {
                    lemma_pos_index_roundtrip(tpos, to as int);
                    assert(shifted_move(targets, delta as int, promo, m1));
                    assert(!prev.contains(m1));
                    assert(!prev.contains(m2));
                    assert(!prev.contains(m3));
                    assert(!prev.contains(m4));
                    lemma_push_fresh(prev, m1);
                    assert(!prev.push(m1).contains(m2)) by {
                        lemma_seq_contains_after_push(prev, m1, m2);
                    }
                    lemma_push_fresh(prev.push(m1), m2);
                    assert(!prev.push(m1).push(m2).contains(m3)) by {
                        lemma_seq_contains_after_push(prev, m1, m3);
                        lemma_seq_contains_after_push(prev.push(m1), m2, m3);
                    }
                    lemma_push_fresh(prev.push(m1).push(m2), m3);
                    assert(!prev.push(m1).push(m2).push(m3).contains(m4)) by {
                        lemma_seq_contains_after_push(prev, m1, m4);
                        lemma_seq_contains_after_push(prev.push(m1), m2, m4);
                        lemma_seq_contains_after_push(prev.push(m1).push(m2), m3, m4);
                    }
                    lemma_push_fresh(prev.push(m1).push(m2).push(m3), m4);
                }
            }
            moves.push(m1);
            let ghost p1 = moves@;
            moves.push(m2);
            let ghost p2 = moves@;
            moves.push(m3);
            let ghost p3 = moves@;
            moves.push(m4);
            proof {
                assert forall|m: Move| #[trigger] moves@.contains(m) <==> (start.contains(m) || (
                on_board(m.to) && has_bit(targets, pos_index(m.to)) && !has_bit(rest, pos_index(m.to))
                    && m.from == index_pos(pos_index(m.to) - delta) && is_promo_kind(m.promotion))) by {
                    lemma_seq_contains_after_push(prev, m1, m);
                    lemma_seq_contains_after_push(p1, m2, m);
                    lemma_seq_contains_after_push(p2, m3, m);
                    lemma_seq_contains_after_push(p3, m4, m);
                    lemma_pos_index_roundtrip(m.to, to as int);
                }
                assert(moves@ =~= start + seq_where(p, f, (to + 1) as nat));
                k = to + 1;
            }
        } else {
            let nm = Move { from, to: tpos, promotion: None };
            proof {
                if fresh {
                    lemma_pos_index_roundtrip(tpos, to as int);
                    assert(shifted_move(targets, delta as int, promo, nm));
                    assert(!prev.contains(nm));
                    lemma_push_fresh(prev, nm);
                }
            }
            moves.push(nm);
            proof {
                assert forall|m: Move| #[trigger] moves@.contains(m) <==> (start.contains(m) || (
                on_board(m.to) && has_bit(targets, pos_index(m.to)) && !has_bit(rest, pos_index(m.to))
                    && m.from == index_pos(pos_index(m.to) - delta) && m.promotion == None::<PieceTy>)) by {
                    lemma_seq_contains_after_push(prev, nm, m);
                    lemma_pos_index_roundtrip(m.to, to as int);
                }
                assert(moves@ =~= start + seq_where(p, f, (to + 1) as nat));
                k = to + 1;
            }
        }
    }
    proof {
        crate::bits::lemma_zero();
        assert forall|i: int| k <= i < 64 implies !#[trigger] p(i) by {
            assert(!has_bit(rest, i));
        }
        lemma_seq_where_skip(p, f, k as nat, 64);
    }
}

/// A castling move of side `c`'s king to `to` that the generator offers:
/// the right is held and the squares between king and rook are empty.
pub open spec fn castle_target(
    rights: [(bool, bool); 2],
    c: Color,
    occ: Set<int>,
    to: Pos,
) -> bool {
    let back = c.back_rank() as int;
    ||| (rights[c.index()].1 && !occ.contains(sq_at(5, back)) && !occ.contains(sq_at(6, back)) && to == (
        6usize,
        c.back_rank(),
    ))
    ||| (rights[c.index()].0 && !occ.contains(sq_at(1, back)) && !occ.contains(sq_at(2, back))
        && !occ.contains(sq_at(3, back)) && to == (2usize, c.back_rank()))
}

/// The king moves of side `color` in the order the generator appends
/// them: from the king's square `k` (the lowest of `king_bb`), the steps to
/// squares not held by `own` in rising order, then castling kingside, then
/// castling queenside, each where the right is held and the squares between
/// king and rook are empty in `all`. Nothing without a king.
pub open spec fn king_seq(color: Color, king_bb: u64, own: u64, all: u64, rights: [(bool, bool); 2]) -> Seq<Move> {
    if king_bb == 0 {
        Seq::empty()
    } else {
        let k = lowest(king_bb);
        let back = color.back_rank() as int;
        let occ = bit_squares(all);
        let steps = seq_where(
            |t: int| king_attack(k, t) && !has_bit(own, t),
            |t: int| seq![Move { from: index_pos(k), to: index_pos(t), promotion: None }],
            64,
        );
        let kside = if rights[color.index()].1 && !occ.contains(sq_at(5, back)) && !occ.contains(sq_at(6, back)) {
            seq![Move { from: index_pos(k), to: index_pos(back * 8 + 6), promotion: None }]
        } else {
            Seq::empty()
        };
        let qside = if rights[color.index()].0 && !occ.contains(sq_at(1, back)) && !occ.contains(sq_at(2, back))
            && !occ.contains(sq_at(3, back)) {
            seq![Move { from: index_pos(k), to: index_pos(back * 8 + 2), promotion: None }]
        } else {
            Seq::empty()
        };
        steps + kside + qside
    }
}

impl Game {
    /// The king moves of side `color`, castling included.
    pub fn gen_king_moves(&self, color: Color, c: usize, own: BB, all: BB, moves: &mut Vec<Move>)
        requires
            c == color.index(),
        ensures
            forall|m: Move| #[trigger] final(moves)@.contains(m) <==> (old(moves)@.contains(m) || (
            self.board.pieces[c as int][5] != 0 && m.from == index_pos(
                lowest(self.board.pieces[c as int][5]),
            ) && m.promotion == None::<PieceTy> && on_board(m.to) && ((king_attack(
                lowest(self.board.pieces[c as int][5]),
                pos_index(m.to),
            ) && !has_bit(own, pos_index(m.to))) || castle_target(
                self.castleable,
                color,
                bit_squares(all),
                m.to,
            )))),
            old(moves)@.no_duplicates() && (forall|m: Move| #[trigger] old(moves)@.contains(m) ==> m.from
                != index_pos(lowest(self.board.pieces[c as int][5]))) && ((self.castleable[c as int].0
                || self.castleable[c as int].1) ==> lowest(self.board.pieces[c as int][5]) == 8
                * color.back_rank() + 4) ==> final(moves)@.no_duplicates(),
            final(moves)@ == old(moves)@ + king_seq(color, self.board.pieces[c as int][5], own, all, self.castleable),
    {
        let king_bb = self.board.pieces[c][5];
        if king_bb == 0 {
            assert(moves@ =~= moves@ + king_seq(color, king_bb, own, all, self.castleable));
            return ;
        }
        let ghost fresh = moves@.no_duplicates() && (forall|m: Move| #[trigger] moves@.contains(m) ==> m.from
            != index_pos(lowest(king_bb))) && ((self.castleable[c as int].0 || self.castleable[c as int].1)
            ==> lowest(king_bb) == 8 * color.back_rank() + 4);
        proof {
            lemma_lowest(king_bb);
            lemma_not(own);
        }
        let from = king_bb.trailing_zeros();
        let reach = king_attacks(from);
        let targets = reach & !own;
        proof {
            lemma_and(reach, !own);
        }
        let ghost start = moves@;
        push_targets(moves, from, targets);
        let ghost after_steps = moves@;
        proof {
            reveal(target_moves);
            let k = lowest(king_bb);
            assert((|i: int| has_bit(targets, i)) =~= (|t: int| king_attack(k, t) && !has_bit(own, t)));
            assert((|t: int| seq![Move { from: index_pos(from as int), to: index_pos(t), promotion: None }]) =~= (
            |t: int| seq![Move { from: index_pos(k), to: index_pos(t), promotion: None }]));
        }
        let back = color.start();
        let (can_queenside, can_kingside) = self.castleable[c];
        let fpos = sq_to_pos(from);
        let mut kside = false;
        if can_kingside {
            let b5 = bit((back * 8 + 5) as u32);
            let b6 = bit((back * 8 + 6) as u32);
            let between = b5 | b6;
            proof {
                lemma_or(b5, b6);
            }
            if !crate::threats::meets(all, between) {
                kside = true;
                let to = sq_to_pos((back * 8 + 6) as u32);
                proof {
                    if fresh {
                        let km = Move { from: fpos, to, promotion: None };
                        let ks = lowest(king_bb);
                        lemma_pos_index_roundtrip(to, back * 8 + 6);
                        lemma_square_coords(ks);
                        assert(!king_attack(ks, back * 8 + 6));
                        assert(!moves@.contains(km));
                        lemma_push_fresh(moves@, km);
                    }
                }
                moves.push(Move { from: fpos, to, promotion: None });
            }
        }
        let ghost after_k = moves@;
        let mut qside = false;
        if can_queenside {
            let b1 = bit((back * 8 + 1) as u32);
            let b2 = bit((back * 8 + 2) as u32);
            let b3 = bit((back * 8 + 3) as u32);
            let between = b1 | b2 | b3;
            proof {
                lemma_or(b1, b2);
                lemma_or(b1 | b2, b3);
            }
            if !crate::threats::meets(all, between) {
                qside = true;
                let to = sq_to_pos((back * 8 + 2) as u32);
                proof {
                    if fresh {
                        let qm = Move { from: fpos, to, promotion: None };
                        let ks = lowest(king_bb);
                        lemma_pos_index_roundtrip(to, back * 8 + 2);
                        lemma_pos_index_roundtrip((6usize, color.back_rank()), 0);
                        lemma_square_coords(ks);
                        assert(!king_attack(ks, back * 8 + 2));
                        assert(!after_steps.contains(qm));
                        if kside {
                            lemma_seq_contains_after_push(after_steps, Move { from: fpos, to: (6usize, color.back_rank()), promotion: None }, qm);
                        }
                        assert(!moves@.contains(qm));
                        lemma_push_fresh(moves@, qm);
                    }
                }
                moves.push(Move { from: fpos, to, promotion: None });
            }
        }
        proof {
            let kmove = Move { from: fpos, to: (6usize, color.back_rank()), promotion: None };
            let qmove = Move { from: fpos, to: (2usize, color.back_rank()), promotion: None };
            assert(kside == (self.castleable[c as int].1 && !bit_squares(all).contains(sq_at(5, back as int)) && !bit_squares(all).contains(sq_at(6, back as int))));
            assert(qside == (self.castleable[c as int].0 && !bit_squares(all).contains(sq_at(1, back as int)) && !bit_squares(all).contains(sq_at(2, back as int)) && !bit_squares(all).contains(sq_at(3, back as int))));
            assert forall|m: Move| #[trigger] moves@.contains(m) <==> (start.contains(m) || (m.from
                == index_pos(lowest(king_bb)) && m.promotion == None::<PieceTy> && on_board(m.to) && ((
            king_attack(lowest(king_bb), pos_index(m.to)) && !has_bit(own, pos_index(m.to)))
                || castle_target(self.castleable, color, bit_squares(all), m.to)))) by {
                if kside {
                    lemma_seq_contains_after_push(after_steps, kmove, m);
                }
                if qside {
                    lemma_seq_contains_after_push(after_k, qmove, m);
                }
                lemma_pos_index_roundtrip(m.to, 0);
            }
        }
        proof {
            let k = lowest(king_bb);
            let steps = seq_where(
                |t: int| king_attack(k, t) && !has_bit(own, t),
                |t: int| seq![Move { from: index_pos(k), to: index_pos(t), promotion: None }],
                64,
            );
            assert(after_steps == start + steps);
            assert(moves@ =~= start + king_seq(color, king_bb, own, all, self.castleable));
        }
    }
}

/// The rank direction of side `c`'s pawns.
pub open spec fn pawn_dir(c: Color) -> int {
    if c == Color::White { 1 } else { -1 }
}

/// The rank from which side `c`'s pawns promote on their next step.
pub open spec fn pre_promo_rank(c: Color) -> int {
    if c == Color::White { 6 } else { 1 }
}

/// The rank from which side `c`'s pawns may advance two squares.
pub open spec fn start_rank(c: Color) -> int {
    if c == Color::White { 1 } else { 6 }
}

/// The pawn moves the generator offers side `c`, whose pawns are `pawns`,
/// against enemy pieces `enemy`, with occupancy `all` and en passant square `ep`.
pub open spec fn pawn_move_bits(c: Color, pawns: u64, enemy: u64, all: u64, ep: Option<Pos>, m: Move) -> bool {
    let f = pos_index(m.from);
    let t = pos_index(m.to);
    let dr = pawn_dir(c);
    &&& on_board(m.from)
    &&& on_board(m.to)
    &&& has_bit(pawns, f)
    &&& {
        ||| (rank_of(f) != pre_promo_rank(c) && m.promotion == None::<PieceTy> && ((offset_hit(f, t, 0, dr)
            && !has_bit(all, t)) || (rank_of(f) == start_rank(c) && offset_hit(f, t, 0, 2 * dr)
            && !has_bit(all, f + 8 * dr) && !has_bit(all, t)) || (pawn_attack(c.index(), f, t)
            && has_bit(enemy, t))))
        ||| (rank_of(f) == pre_promo_rank(c) && is_promo_kind(m.promotion) && ((offset_hit(f, t, 0, dr)
            && !has_bit(all, t)) || (pawn_attack(c.index(), f, t) && has_bit(enemy, t))))
        ||| (ep == Some(m.to) && pawn_attack(c.index(), f, t) && m.promotion == None::<PieceTy>)
    }
}

/// Adds the move from each square of `froms` to `to`. None is added twice,
/// so where the list had no repeats and none of these moves, it has none
/// after.
/// The moves to `to` from each square with `p`, in rising order.
#[verifier::opaque]
pub open spec fn moves_to_where(p: spec_fn(int) -> bool, to: Pos) -> Seq<Move> {
    seq_where(p, |f: int| seq![Move { from: index_pos(f), to, promotion: None }], 64)
}

fn push_to(moves: &mut Vec<Move>, froms: BB, to: Pos)
    ensures
        final(moves)@ == old(moves)@ + moves_to_where(|i: int| has_bit(froms, i), to),
        forall|m: Move| #[trigger] final(moves)@.contains(m) <==> (old(moves)@.contains(m) || (m.to == to
            && on_board(m.from) && has_bit(froms, pos_index(m.from)) && m.promotion == None::<PieceTy>)),
        old(moves)@.no_duplicates() && (forall|m: Move| #[trigger] old(moves)@.contains(m) ==> !(m.to == to
            && on_board(m.from) && has_bit(froms, pos_index(m.from)) && m.promotion == None::<PieceTy>))
            ==> final(moves)@.no_duplicates(),
{
    let mut rest = froms;
    let ghost start = moves@;
    let ghost fresh = start.no_duplicates() && (forall|m: Move| #[trigger] start.contains(m) ==> !(m.to == to
        && on_board(m.from) && has_bit(froms, pos_index(m.from)) && m.promotion == None::<PieceTy>));
    let ghost p = |i: int| has_bit(froms, i);
    let ghost g = |f: int| seq![Move { from: index_pos(f), to, promotion: None }];
    let ghost mut k: int = 0;
    proof {
        reveal(moves_to_where);
    }
    while rest != 0
        invariant
            forall|i: int| #[trigger] has_bit(rest, i) ==> has_bit(froms, i),
            0 <= k <= 64,
            forall|i: int| #[trigger] has_bit(rest, i) == (has_bit(froms, i) && i >= k),
            p == (|i: int| has_bit(froms, i)),
            g == (|f: int| seq![Move { from: index_pos(f), to, promotion: None }]),
            moves@ == start + seq_where(p, g, k as nat),
            forall|m: Move| #[trigger] moves@.contains(m) <==> (start.contains(m) || (m.to == to
                && on_board(m.from) && has_bit(froms, pos_index(m.from)) && !has_bit(rest, pos_index(m.from))
                && m.promotion == None::<PieceTy>)),
            fresh == (start.no_duplicates() && (forall|m: Move| #[trigger] start.contains(m) ==> !(m.to
                == to && on_board(m.from) && has_bit(froms, pos_index(m.from)) && m.promotion
                == None::<PieceTy>))),
            fresh ==> moves@.no_duplicates(),
        decreases bit_squares(rest).len(),
    {
        let ghost before = rest;
        let ghost prev = moves@;
        proof {
            crate::bits::lemma_bit_squares_finite(before);
        }
        let f = pop_lsb(&mut rest);
        proof {
            assert(bit_squares(before).contains(f as int));
            lemma_pop_rest(froms, before, rest, k, f as int);
            lemma_seq_where_step(p, g, k as nat, f as nat);
        }
        let nm = Move { from: sq_to_pos(f), to, promotion: None };
        proof {
            if fresh {
                lemma_pos_index_roundtrip(nm.from, f as int);
                assert(!prev.contains(nm));
                lemma_push_fresh(prev, nm);
            }
        }
        moves.push(nm);
        proof {
            assert forall|m: Move| #[trigger] moves@.contains(m) <==> (start.contains(m) || (m.to == to
                && on_board(m.from) && has_bit(froms, pos_index(m.from)) && !has_bit(rest, pos_index(m.from))
                && m.promotion == None::<PieceTy>)) by {
                lemma_seq_contains_after_push(prev, nm, m);
                lemma_pos_index_roundtrip(m.from, f as int);
            }
            assert(moves@ =~= start + seq_where(p, g, (f + 1) as nat));
            k = f + 1;
        }
    }
    proof {
        crate::bits::lemma_zero();
        assert forall|i: int| k <= i < 64 implies !#[trigger] p(i) by {
            assert(!has_bit(rest, i));
        }
        lemma_seq_where_skip(p, g, k as nat, 64);
    }
}

/// The en passant captures the pawn generator appends: onto `ep`, from each
/// pawn of `pawns` beside it, in rising order of the pawn's square.
pub open spec fn ep_seq(color: Color, pawns: u64, ep: Option<Pos>) -> Seq<Move> {
    match ep {
        Some(e) => moves_to_where(|f: int| pawn_attack(1 - color.index(), pos_index(e), f) && has_bit(pawns, f), e),
        None => Seq::empty(),
    }
}

/// How far side `color`'s pawns push: up a rank for white, down for black.
pub open spec fn pawn_push(color: Color) -> int {
    if color == Color::White { 8 } else { -8 }
}

/// How far side `color`'s pawns move capturing toward the a-file.
pub open spec fn pawn_left(color: Color) -> int {
    if color == Color::White { 7 } else { -9 }
}

/// How far side `color`'s pawns move capturing toward the h-file.
pub open spec fn pawn_right(color: Color) -> int {
    if color == Color::White { 9 } else { -7 }
}

/// The destination sets of side `color`'s pawn moves: single pushes,
/// double pushes, captures toward the a-file and toward the h-file, then
/// the same three for pawns about to promote.
pub open spec fn pawn_targets(color: Color, pawns: u64, all: u64, enemy: u64) -> (u64, u64, u64, u64, u64, u64, u64) {
    let white = color == Color::White;
    let pre_promo: u64 = if white { RANK_7 } else { RANK_2 };
    let mid: u64 = if white { RANK_3 } else { RANK_6 };
    let free = !all;
    let non_promo = pawns & !pre_promo;
    let promo_pawns = pawns & pre_promo;
    let single = shift_spec(non_promo, pawn_push(color)) & free;
    (
        single,
        shift_spec(single & mid, pawn_push(color)) & free,
        shift_spec(non_promo & !FILE_A, pawn_left(color)) & enemy,
        shift_spec(non_promo & !FILE_H, pawn_right(color)) & enemy,
        shift_spec(promo_pawns, pawn_push(color)) & free,
        shift_spec(promo_pawns & !FILE_A, pawn_left(color)) & enemy,
        shift_spec(promo_pawns & !FILE_H, pawn_right(color)) & enemy,
    )
}

/// The pawn moves of side `color`, whose pawns are `pawns`, in the order
/// the generator appends them: single pushes, double pushes, captures
/// toward the a-file, captures toward the h-file, then the promoting
/// pushes, promoting captures toward the a-file and toward the h-file
/// (queen, rook, bishop, knight for each), then en passant captures; each
/// group in rising order of the destination (of the origin for en passant).
/// Nothing when there are no pawns.
#[verifier::opaque]
pub open spec fn pawn_seq(color: Color, pawns: u64, all: u64, enemy: u64, ep: Option<Pos>) -> Seq<Move> {
    if pawns == 0 {
        Seq::empty()
    } else {
        let t = pawn_targets(color, pawns, all, enemy);
        let push = pawn_push(color);
        let left = pawn_left(color);
        let right = pawn_right(color);
        shifted_seq(t.0, push, false) + shifted_seq(t.1, push * 2, false) + shifted_seq(t.2, left, false)
            + shifted_seq(t.3, right, false) + shifted_seq(t.4, push, true) + shifted_seq(t.5, left, true)
            + shifted_seq(t.6, right, true) + ep_seq(color, pawns, ep)
    }
}

/// Appending the groups one after another appends their concatenation.
proof fn lemma_append_groups(
    start: Seq<Move>,
    s1: Seq<Move>, s2: Seq<Move>, s3: Seq<Move>, s4: Seq<Move>,
    s5: Seq<Move>, s6: Seq<Move>, s7: Seq<Move>, s8: Seq<Move>,
    m1: Seq<Move>, m2: Seq<Move>, m3: Seq<Move>, m4: Seq<Move>,
    m5: Seq<Move>, m6: Seq<Move>, m7: Seq<Move>, m8: Seq<Move>,
)
    requires
        m1 == start + s1,
        m2 == m1 + s2,
        m3 == m2 + s3,
        m4 == m3 + s4,
        m5 == m4 + s5,
        m6 == m5 + s6,
        m7 == m6 + s7,
        m8 == m7 + s8,
    ensures
        m8 == start + (s1 + s2 + s3 + s4 + s5 + s6 + s7 + s8),
{
    assert(m8 =~= start + (s1 + s2 + s3 + s4 + s5 + s6 + s7 + s8));
}

/// Appending six groups one after another to nothing gives their concatenation.
proof fn lemma_append_six(
    s1: Seq<Move>, s2: Seq<Move>, s3: Seq<Move>, s4: Seq<Move>, s5: Seq<Move>, s6: Seq<Move>,
    m0: Seq<Move>, m1: Seq<Move>, m2: Seq<Move>, m3: Seq<Move>, m4: Seq<Move>, m5: Seq<Move>, m6: Seq<Move>,
)
    requires
        m0 == Seq::<Move>::empty(),
        m1 == m0 + s1,
        m2 == m1 + s2,
        m3 == m2 + s3,
        m4 == m3 + s4,
        m5 == m4 + s5,
        m6 == m5 + s6,
    ensures
        m6 == s1 + s2 + s3 + s4 + s5 + s6,
{
    assert(m6 =~= s1 + s2 + s3 + s4 + s5 + s6);
}

/// What keeps side `color`'s generated moves free of repeats: no enemy
/// piece on the en passant square, and the king at home while a castling
/// right is held.
pub open spec fn generates_once(g: Game, color: Color) -> bool {
    let c = color.index();
    &&& (g.enpass matches Some(e) ==> !has_bit(g.board.color[1 - c], pos_index(e)))
    &&& ((g.castleable[c].0 || g.castleable[c].1) ==> lowest(g.board.pieces[c][5]) == 8 * color.back_rank() + 4)
}

/// A sound position generates each move of either side once.
pub proof fn lemma_sound_generates_once(g: Game, color: Color)
    requires
        g.sound(),
    ensures
        generates_once(g, color),
{
    lemma_view_bits(g.board);
    lemma_lowest(g.board.pieces[color.index()][5]);
    assert(g.side_sound(color));
    if g.castleable[color.index()].0 || g.castleable[color.index()].1 {
        let home = (4usize, color.back_rank());
        assert(g.board@[pos_index(home)] == Square::of(PieceTy::King, color));
    }
}

/// The moves of side `color` in `g` in the order the generator lists them:
/// pawns, knights, bishops, rooks, queens, then the king.
pub open spec fn pseudo_seq(g: Game, color: Color) -> Seq<Move> {
    let c = color.index();
    let own = g.board.color[c];
    let all = g.board.all;
    pawn_seq(color, g.board.pieces[c][0], all, g.board.color[1 - c], g.enpass) + piece_seq(
        1,
        g.board.pieces[c][1],
        own,
        0,
    ) + piece_seq(2, g.board.pieces[c][2], own, all) + piece_seq(3, g.board.pieces[c][3], own, all) + piece_seq(
        4,
        g.board.pieces[c][4],
        own,
        all,
    ) + king_seq(color, g.board.pieces[c][5], own, all, g.castleable)
}

/// `pawn_seq` spelled out for given destination sets.
proof fn lemma_pawn_seq_is(
    color: Color, pawns: u64, all: u64, enemy: u64, ep: Option<Pos>,
    t: (u64, u64, u64, u64, u64, u64, u64),
)
    requires
        pawns != 0,
        t == pawn_targets(color, pawns, all, enemy),
    ensures
        pawn_seq(color, pawns, all, enemy, ep) == shifted_seq(t.0, pawn_push(color), false) + shifted_seq(
            t.1,
            pawn_push(color) * 2,
            false,
        ) + shifted_seq(t.2, pawn_left(color), false) + shifted_seq(t.3, pawn_right(color), false) + shifted_seq(
            t.4,
            pawn_push(color),
            true,
        ) + shifted_seq(t.5, pawn_left(color), true) + shifted_seq(t.6, pawn_right(color), true) + ep_seq(
            color,
            pawns,
            ep,
        ),
{
    reveal(pawn_seq);
}

impl Game {
    /// The pawn moves of side `color`.
    #[verifier::rlimit(100)]
    #[verifier::spinoff_prover]
    pub fn gen_pawn_moves(&self, color: Color, c: usize, all: BB, enemy: BB, moves: &mut Vec<Move>)
        requires
            c == color.index(),
            self.enpass matches Some(e) ==> on_board(e),
        ensures
            forall|m: Move| #[trigger] final(moves)@.contains(m) <==> (old(moves)@.contains(m)
                || pawn_move_bits(color, self.board.pieces[c as int][0], enemy, all, self.enpass, m)),
            old(moves)@.no_duplicates() && (forall|m: Move| #[trigger] old(moves)@.contains(m) ==> !(on_board(
                m.from,
            ) && has_bit(self.board.pieces[c as int][0], pos_index(m.from)))) && (self.enpass matches Some(
                e,
            ) ==> !has_bit(enemy, pos_index(e))) ==> final(moves)@.no_duplicates(),
            final(moves)@ == old(moves)@ + pawn_seq(color, self.board.pieces[c as int][0], all, enemy, self.enpass),
    {
        let pawns = self.board.pieces[c][0];
        let ghost start = moves@;
        let ghost fresh = start.no_duplicates() && (forall|m: Move| #[trigger] start.contains(m) ==> !(on_board(
            m.from,
        ) && has_bit(pawns, pos_index(m.from)))) && (self.enpass matches Some(e) ==> !has_bit(
            enemy,
            pos_index(e),
        ));
        if pawns == 0 {
            proof {
                crate::bits::lemma_zero();
                reveal(pawn_seq);
                assert(moves@ =~= start + pawn_seq(color, pawns, all, enemy, self.enpass));
            }
            return ;
        }
        let free = !all;
        let (push, pre_promo, mid): (i32, u64, u64) = if color == Color::White {
            (8, RANK_7, RANK_3)
        } else {
            (-8, RANK_2, RANK_6)
        };
        let (left_dir, right_dir): (i32, i32) = if color == Color::White {
            (7, 9)
        } else {
            (-9, -7)
        };
        proof {
            lemma_not(all);
            lemma_not(pre_promo);
            lemma_not(FILE_A);
            lemma_not(FILE_H);
            lemma_masks();
        }
        let non_promo = pawns & !pre_promo;
        let promo_pawns = pawns & pre_promo;
        proof {
            lemma_and(pawns, !pre_promo);
            lemma_and(pawns, pre_promo);
        }
        let sp = crate::bits::shift(non_promo, push);
        let single_push = sp & free;
        proof {
            lemma_and(sp, free);
        }
        proof {
            assert(forall|t: int| #[trigger] has_bit(single_push, t) ==> 0 <= t - push < 64 && has_bit(pawns, t - push));
            if fresh {
                assert forall|m: Move| #[trigger] moves@.contains(m) implies !shifted_move(single_push, push as int, false, m) by {
                    if shifted_move(single_push, push as int, false, m) {
                        lemma_shifted_from(m, single_push, push as int, false, pawns);
                    }
                }
            }
        }
        push_shifted(moves, single_push, push, false);
        let ghost m1 = moves@;
        let sm = single_push & mid;
        proof {
            lemma_and(single_push, mid);
        }
        let dp = crate::bits::shift(sm, push);
        let double_push = dp & free;
        proof {
            lemma_and(dp, free);
        }
        proof {
            assert(forall|t: int| #[trigger] has_bit(double_push, t) ==> 0 <= t - push * 2 < 64 && has_bit(pawns, t - push * 2));
            if fresh {
                assert forall|m: Move| #[trigger] moves@.contains(m) implies !shifted_move(double_push, push * 2, false, m) by {
                    if shifted_move(double_push, push * 2, false, m) {
                        lemma_shifted_from(m, double_push, push * 2, false, pawns);
                        if shifted_move(single_push, push as int, false, m) {
                            lemma_shifted_distinct(m, single_push, push as int, false, double_push, push * 2, false);
                        }
                    }
                }
            }
        }
        push_shifted(moves, double_push, push * 2, false);
        let ghost m2 = moves@;
        let lp = non_promo & !FILE_A;
        proof {
            lemma_and(non_promo, !FILE_A);
        }
        let ls = crate::bits::shift(lp, left_dir);
        let left_cap = ls & enemy;
        proof {
            lemma_and(ls, enemy);
        }
        proof {
            assert(forall|t: int| #[trigger] has_bit(left_cap, t) ==> 0 <= t - left_dir < 64 && has_bit(pawns, t - left_dir));
            if fresh {
                assert forall|m: Move| #[trigger] moves@.contains(m) implies !shifted_move(left_cap, left_dir as int, false, m) by {
                    if shifted_move(left_cap, left_dir as int, false, m) {
                        lemma_shifted_from(m, left_cap, left_dir as int, false, pawns);
                        if shifted_move(single_push, push as int, false, m) {
                            lemma_shifted_distinct(m, single_push, push as int, false, left_cap, left_dir as int, false);
                        }
                        if shifted_move(double_push, push * 2, false, m) {
                            lemma_shifted_distinct(m, double_push, push * 2, false, left_cap, left_dir as int, false);
                        }
                    }
                }
            }
        }
        push_shifted(moves, left_cap, left_dir, false);
        let ghost m3 = moves@;
        let rp = non_promo & !FILE_H;
        proof {
            lemma_and(non_promo, !FILE_H);
        }
        let rs = crate::bits::shift(rp, right_dir);
        let right_cap = rs & enemy;
        proof {
            lemma_and(rs, enemy);
        }
        proof {
            assert(forall|t: int| #[trigger] has_bit(right_cap, t) ==> 0 <= t - right_dir < 64 && has_bit(pawns, t - right_dir));
            if fresh {
                assert forall|m: Move| #[trigger] moves@.contains(m) implies !shifted_move(right_cap, right_dir as int, false, m) by {
                    if shifted_move(right_cap, right_dir as int, false, m) {
                        lemma_shifted_from(m, right_cap, right_dir as int, false, pawns);
                        if shifted_move(single_push, push as int, false, m) {
                            lemma_shifted_distinct(m, single_push, push as int, false, right_cap, right_dir as int, false);
                        }
                        if shifted_move(double_push, push * 2, false, m) {
                            lemma_shifted_distinct(m, double_push, push * 2, false, right_cap, right_dir as int, false);
                        }
                        if shifted_move(left_cap, left_dir as int, false, m) {
                            lemma_shifted_distinct(m, left_cap, left_dir as int, false, right_cap, right_dir as int, false);
                        }
                    }
                }
            }
        }
        push_shifted(moves, right_cap, right_dir, false);
        let ghost m4 = moves@;
        let pps = crate::bits::shift(promo_pawns, push);
        let straight_promo = pps & free;
        proof {
            lemma_and(pps, free);
        }
        proof {
            assert(forall|t: int| #[trigger] has_bit(straight_promo, t) ==> 0 <= t - push < 64 && has_bit(pawns, t - push));
            if fresh {
                assert forall|m: Move| #[trigger] moves@.contains(m) implies !shifted_move(straight_promo, push as int, true, m) by {
                    if shifted_move(straight_promo, push as int, true, m) {
                        lemma_shifted_from(m, straight_promo, push as int, true, pawns);
                        if shifted_move(single_push, push as int, false, m) {
                            lemma_shifted_distinct(m, single_push, push as int, false, straight_promo, push as int, true);
                        }
                        if shifted_move(double_push, push * 2, false, m) {
                            lemma_shifted_distinct(m, double_push, push * 2, false, straight_promo, push as int, true);
                        }
                        if shifted_move(left_cap, left_dir as int, false, m) {
                            lemma_shifted_distinct(m, left_cap, left_dir as int, false, straight_promo, push as int, true);
                        }
                        if shifted_move(right_cap, right_dir as int, false, m) {
                            lemma_shifted_distinct(m, right_cap, right_dir as int, false, straight_promo, push as int, true);
                        }
                    }
                }
            }
        }
        push_shifted(moves, straight_promo, push, true);
        let ghost m5 = moves@;
        let plp = promo_pawns & !FILE_A;
        proof {
            lemma_and(promo_pawns, !FILE_A);
        }
        let pls = crate::bits::shift(plp, left_dir);
        let left_cap_promo = pls & enemy;
        proof {
            lemma_and(pls, enemy);
        }
        proof {
            assert(forall|t: int| #[trigger] has_bit(left_cap_promo, t) ==> 0 <= t - left_dir < 64 && has_bit(pawns, t - left_dir));
            if fresh {
                assert forall|m: Move| #[trigger] moves@.contains(m) implies !shifted_move(left_cap_promo, left_dir as int, true, m) by {
                    if shifted_move(left_cap_promo, left_dir as int, true, m) {
                        lemma_shifted_from(m, left_cap_promo, left_dir as int, true, pawns);
                        if shifted_move(single_push, push as int, false, m) {
                            lemma_shifted_distinct(m, single_push, push as int, false, left_cap_promo, left_dir as int, true);
                        }
                        if shifted_move(double_push, push * 2, false, m) {
                            lemma_shifted_distinct(m, double_push, push * 2, false, left_cap_promo, left_dir as int, true);
                        }
                        if shifted_move(left_cap, left_dir as int, false, m) {
                            lemma_shifted_distinct(m, left_cap, left_dir as int, false, left_cap_promo, left_dir as int, true);
                        }
                        if shifted_move(right_cap, right_dir as int, false, m) {
                            lemma_shifted_distinct(m, right_cap, right_dir as int, false, left_cap_promo, left_dir as int, true);
                        }
                        if shifted_move(straight_promo, push as int, true, m) {
                            lemma_shifted_distinct(m, straight_promo, push as int, true, left_cap_promo, left_dir as int, true);
                        }
                    }
                }
            }
        }
        push_shifted(moves, left_cap_promo, left_dir, true);
        let ghost m6 = moves@;
        let prp = promo_pawns & !FILE_H;
        proof {
            lemma_and(promo_pawns, !FILE_H);
        }
        let prs = crate::bits::shift(prp, right_dir);
        let right_cap_promo = prs & enemy;
        proof {
            lemma_and(prs, enemy);
        }
        proof {
            assert(forall|t: int| #[trigger] has_bit(right_cap_promo, t) ==> 0 <= t - right_dir < 64 && has_bit(pawns, t - right_dir));
            if fresh {
                assert forall|m: Move| #[trigger] moves@.contains(m) implies !shifted_move(right_cap_promo, right_dir as int, true, m) by {
                    if shifted_move(right_cap_promo, right_dir as int, true, m) {
                        lemma_shifted_from(m, right_cap_promo, right_dir as int, true, pawns);
                        if shifted_move(single_push, push as int, false, m) {
                            lemma_shifted_distinct(m, single_push, push as int, false, right_cap_promo, right_dir as int, true);
                        }
                        if shifted_move(double_push, push * 2, false, m) {
                            lemma_shifted_distinct(m, double_push, push * 2, false, right_cap_promo, right_dir as int, true);
                        }
                        if shifted_move(left_cap, left_dir as int, false, m) {
                            lemma_shifted_distinct(m, left_cap, left_dir as int, false, right_cap_promo, right_dir as int, true);
                        }
                        if shifted_move(right_cap, right_dir as int, false, m) {
                            lemma_shifted_distinct(m, right_cap, right_dir as int, false, right_cap_promo, right_dir as int, true);
                        }
                        if shifted_move(straight_promo, push as int, true, m) {
                            lemma_shifted_distinct(m, straight_promo, push as int, true, right_cap_promo, right_dir as int, true);
                        }
                        if shifted_move(left_cap_promo, left_dir as int, true, m) {
                            lemma_shifted_distinct(m, left_cap_promo, left_dir as int, true, right_cap_promo, right_dir as int, true);
                        }
                    }
                }
            }
        }
        push_shifted(moves, right_cap_promo, right_dir, true);
        let ghost m7 = moves@;
        let mut ep_froms: BB = 0;
        match self.enpass {
            Some(ep) => {
                let s = sq(ep);
                let att = pawn_attacks(1 - c, s);
                ep_froms = att & pawns;
                proof {
                    lemma_and(att, pawns);
                    if fresh {
                        lemma_square_coords(s as int);
                        assert forall|m: Move| #[trigger] moves@.contains(m) implies !(m.to == ep && on_board(m.from)
                            && has_bit(ep_froms, pos_index(m.from)) && m.promotion == None::<PieceTy>) by {
                            if m.to == ep && on_board(m.from) && has_bit(ep_froms, pos_index(m.from)) && m.promotion
                                == None::<PieceTy> {
                                assert(has_bit(pawns, pos_index(m.from)));
                                assert(pawn_attack((1 - c) as int, s as int, pos_index(m.from)));
                                if shifted_move(single_push, push as int, false, m) {
                                    lemma_pos_index_roundtrip(m.from, s - push);
                                }
                                if shifted_move(double_push, push * 2, false, m) {
                                    lemma_pos_index_roundtrip(m.from, s - push * 2);
                                }
                            }
                        }
                    }
                }
                let ghost before_ep = moves@;
                push_to(moves, ep_froms, ep);
                proof {
                    assert((|i: int| has_bit(ep_froms, i)) =~= (|f: int| pawn_attack(1 - color.index(), pos_index(ep), f)
                        && has_bit(pawns, f)));
                    assert(moves@ == before_ep + ep_seq(color, pawns, self.enpass));
                }
            },
            None => {
                assert(moves@ =~= m7 + ep_seq(color, pawns, self.enpass));
            },
        }
        proof {
        }
        proof {
            let dr = pawn_dir(color);
            assert forall|m: Move| #[trigger] moves@.contains(m) <==> (start.contains(m)
                || pawn_move_bits(color, pawns, enemy, all, self.enpass, m)) by {
                let f = pos_index(m.from);
                let t = pos_index(m.to);
                lemma_pos_index_roundtrip(m.from, t - push);
                lemma_pos_index_roundtrip(m.from, t - push * 2);
                lemma_pos_index_roundtrip(m.from, t - left_dir);
                lemma_pos_index_roundtrip(m.from, t - right_dir);
                lemma_pos_index_roundtrip(m.to, 0);
                if on_board(m.from) {
                    lemma_offset_index(f, t, 0, dr);
                    lemma_offset_index(f, t, 0, 2 * dr);
                    lemma_offset_index(f, t, 1, dr);
                    lemma_offset_index(f, t, -1, dr);
                    if 0 <= f + 8 * dr < 64 {
                        lemma_offset_index(f + 8 * dr, t, 0, dr);
                    }
                    lemma_square_coords(f);
                }
                match self.enpass {
                    Some(ep) => {
                        lemma_pos_index_roundtrip(ep, 0);
                        lemma_offset_symmetric(pos_index(ep), f, 1, -dr);
                        lemma_offset_symmetric(pos_index(ep), f, -1, -dr);
                    },
                    None => {
                        crate::bits::lemma_zero();
                    },
                }
            }
        }
        proof {
            let t = (single_push, double_push, left_cap, right_cap, straight_promo, left_cap_promo, right_cap_promo);
            assert(t == pawn_targets(color, pawns, all, enemy));
            lemma_pawn_seq_is(color, pawns, all, enemy, self.enpass, t);
            lemma_append_groups(
                start,
                shifted_seq(single_push, push as int, false),
                shifted_seq(double_push, push * 2, false),
                shifted_seq(left_cap, left_dir as int, false),
                shifted_seq(right_cap, right_dir as int, false),
                shifted_seq(straight_promo, push as int, true),
                shifted_seq(left_cap_promo, left_dir as int, true),
                shifted_seq(right_cap_promo, right_dir as int, true),
                ep_seq(color, pawns, self.enpass),
                m1, m2, m3, m4, m5, m6, m7, moves@,
            );
        }
    }
}

/// The pawn moves of side `c` by the pawn on `m.from`: single and double
/// pushes, diagonal captures, promotions on reaching the last rank (to a
/// queen, rook, bishop or knight), and captures onto the en passant square.
pub open spec fn pawn_rule(g: Game, c: Color, m: Move) -> bool {
    let v = g.board@;
    let f = pos_index(m.from);
    let t = pos_index(m.to);
    let dr = pawn_dir(c);
    ||| (rank_of(f) != pre_promo_rank(c) && m.promotion == None::<PieceTy> && ((offset_hit(f, t, 0, dr)
        && v[t] == Square::blank()) || (rank_of(f) == start_rank(c) && offset_hit(f, t, 0, 2 * dr)
        && v[f + 8 * dr] == Square::blank() && v[t] == Square::blank()) || (pawn_attack(c.index(), f, t)
        && enemy_at(v, c, t))))
    ||| (rank_of(f) == pre_promo_rank(c) && is_promo_kind(m.promotion) && ((offset_hit(f, t, 0, dr)
        && v[t] == Square::blank()) || (pawn_attack(c.index(), f, t) && enemy_at(v, c, t))))
    ||| (g.enpass == Some(m.to) && pawn_attack(c.index(), f, t) && m.promotion == None::<PieceTy>)
}

/// The moves the generator offers side `c` in position `g`: each piece of
/// `c` moves by its rule to a square not held by `c`, ignoring checks;
/// castling needs only the right and empty squares between king and rook.
pub open spec fn pseudo_move(g: Game, c: Color, m: Move) -> bool {
    let v = g.board@;
    let f = pos_index(m.from);
    let t = pos_index(m.to);
    let occ = occupied(v);
    &&& on_board(m.from)
    &&& on_board(m.to)
    &&& own_at(v, c, f)
    &&& match v[f].kind() {
        PieceTy::Pawn => pawn_rule(g, c, m),
        PieceTy::Knight => m.promotion == None::<PieceTy> && knight_attack(f, t) && !own_at(v, c, t),
        PieceTy::Bishop => m.promotion == None::<PieceTy> && bishop_reach(f, occ).contains(t) && !own_at(
            v,
            c,
            t,
        ),
        PieceTy::Rook => m.promotion == None::<PieceTy> && rook_reach(f, occ).contains(t) && !own_at(
            v,
            c,
            t,
        ),
        PieceTy::Queen => m.promotion == None::<PieceTy> && (bishop_reach(f, occ).contains(t)
            || rook_reach(f, occ).contains(t)) && !own_at(v, c, t),
        PieceTy::King => f == g.king_square(c) && m.promotion == None::<PieceTy> && ((king_attack(f, t)
            && !own_at(v, c, t)) || castle_target(g.castleable, c, occ, m.to)),
    }
}

impl Game {
    /// All moves of side `color` by the movement rules, before checks are
    /// considered.
    #[verifier::rlimit(60)]
    pub fn get_all_pseudo_moves(&self, color: Color) -> (r: Vec<Move>)
        requires
            self.wf(),
        ensures
            forall|m: Move| #[trigger] r@.contains(m) <==> pseudo_move(*self, color, m),
            generates_once(*self, color) ==> r@.no_duplicates(),
            r@ == pseudo_seq(*self, color),
    {
        let mut moves: Vec<Move> = Vec::new();
        let c = color.to_index();
        let own = self.board.color[c];
        let all = self.board.all;
        let enemy = self.board.color[1 - c];
        let ghost m0 = moves@;
        let ghost ci = c as int;
        self.gen_pawn_moves(color, c, all, enemy, &mut moves);
        let ghost m1 = moves@;
        proof {
            if generates_once(*self, color) {
                assert forall|m: Move| #[trigger] moves@.contains(m) implies !(on_board(m.from) && has_bit(
                    self.board.pieces[ci][1],
                    pos_index(m.from),
                )) by {
                    if on_board(m.from) && has_bit(self.board.pieces[ci][1], pos_index(m.from)) {
                        lemma_one_kind(self.board, ci, 1, 0, pos_index(m.from));
                    }
                }
            }
        }
        self.gen_knight_moves(c, own, &mut moves);
        let ghost m2 = moves@;
        proof {
            if generates_once(*self, color) {
                assert forall|m: Move| #[trigger] moves@.contains(m) implies !(on_board(m.from) && has_bit(
                    self.board.pieces[ci][2],
                    pos_index(m.from),
                )) by {
                    if on_board(m.from) && has_bit(self.board.pieces[ci][2], pos_index(m.from)) {
                        lemma_one_kind(self.board, ci, 2, 0, pos_index(m.from));
                        lemma_one_kind(self.board, ci, 2, 1, pos_index(m.from));
                    }
                }
            }
        }
        self.gen_bishop_moves(c, own, all, &mut moves);
        let ghost m3 = moves@;
        proof {
            if generates_once(*self, color) {
                assert forall|m: Move| #[trigger] moves@.contains(m) implies !(on_board(m.from) && has_bit(
                    self.board.pieces[ci][3],
                    pos_index(m.from),
                )) by {
                    if on_board(m.from) && has_bit(self.board.pieces[ci][3], pos_index(m.from)) {
                        lemma_one_kind(self.board, ci, 3, 0, pos_index(m.from));
                        lemma_one_kind(self.board, ci, 3, 1, pos_index(m.from));
                        lemma_one_kind(self.board, ci, 3, 2, pos_index(m.from));
                    }
                }
            }
        }
        self.gen_rook_moves(c, own, all, &mut moves);
        let ghost m4 = moves@;
        proof {
            if generates_once(*self, color) {
                assert forall|m: Move| #[trigger] moves@.contains(m) implies !(on_board(m.from) && has_bit(
                    self.board.pieces[ci][4],
                    pos_index(m.from),
                )) by {
                    if on_board(m.from) && has_bit(self.board.pieces[ci][4], pos_index(m.from)) {
                        lemma_one_kind(self.board, ci, 4, 0, pos_index(m.from));
                        lemma_one_kind(self.board, ci, 4, 1, pos_index(m.from));
                        lemma_one_kind(self.board, ci, 4, 2, pos_index(m.from));
                        lemma_one_kind(self.board, ci, 4, 3, pos_index(m.from));
                    }
                }
            }
        }
        self.gen_queen_moves(c, own, all, &mut moves);
        let ghost m5 = moves@;
        proof {
            if generates_once(*self, color) {
                let k = self.board.pieces[ci][5];
                let l = lowest(k);
                lemma_lowest(k);
                lemma_pos_index_roundtrip(index_pos(l), l);
                assert forall|m: Move| #[trigger] moves@.contains(m) implies m.from != index_pos(l) by {
                    if m.from == index_pos(l) && k == 0 {
                        assert(on_board(m.from));
                        assert(index_pos(64) == (0usize, 8usize));
                    }
                    if m.from == index_pos(l) && k != 0 {
                        lemma_one_kind(self.board, ci, 5, 0, l);
                        lemma_one_kind(self.board, ci, 5, 1, l);
                        lemma_one_kind(self.board, ci, 5, 2, l);
                        lemma_one_kind(self.board, ci, 5, 3, l);
                        lemma_one_kind(self.board, ci, 5, 4, l);
                    }
                }
            }
        }
        self.gen_king_moves(color, c, own, all, &mut moves);
        proof {
            lemma_append_six(
                pawn_seq(color, self.board.pieces[ci][0], all, enemy, self.enpass),
                piece_seq(1, self.board.pieces[ci][1], own, 0),
                piece_seq(2, self.board.pieces[ci][2], own, all),
                piece_seq(3, self.board.pieces[ci][3], own, all),
                piece_seq(4, self.board.pieces[ci][4], own, all),
                king_seq(color, self.board.pieces[ci][5], own, all, self.castleable),
                m0, m1, m2, m3, m4, m5, moves@,
            );
        }
        proof {
            let v = self.board@;
            lemma_view_bits(self.board);
            lemma_occupied(self.board);
            lemma_lowest(self.board.pieces[c as int][5]);
            lemma_square_of(PieceTy::Pawn, color);
            lemma_square_of(PieceTy::Knight, color);
            lemma_square_of(PieceTy::Bishop, color);
            lemma_square_of(PieceTy::Rook, color);
            lemma_square_of(PieceTy::Queen, color);
            lemma_square_of(PieceTy::King, color);
            assert forall|m: Move| #[trigger] moves@.contains(m) <==> pseudo_move(*self, color, m) by {
                let f = pos_index(m.from);
                let t = pos_index(m.to);
                lemma_pos_index_roundtrip(m.from, lowest(self.board.pieces[c as int][5]));
                lemma_pos_index_roundtrip(m.to, 0);
                if on_board(m.from) && on_board(m.to) {
                    assert(self.board.at(c as int, 0, f) == has_bit(self.board.pieces[c as int][0], f));
                    assert(self.board.at(c as int, 1, f) == has_bit(self.board.pieces[c as int][1], f));
                    assert(self.board.at(c as int, 2, f) == has_bit(self.board.pieces[c as int][2], f));
                    assert(self.board.at(c as int, 3, f) == has_bit(self.board.pieces[c as int][3], f));
                    assert(self.board.at(c as int, 4, f) == has_bit(self.board.pieces[c as int][4], f));
                    assert(self.board.at(c as int, 5, f) == has_bit(self.board.pieces[c as int][5], f));
                    assert(has_bit(own, t) == own_at(v, color, t));
                    assert(has_bit(enemy, t) == enemy_at(v, color, t));
                    assert(has_bit(all, t) == (v[t] != Square::blank()));
                    if 0 <= f + 8 * pawn_dir(color) < 64 {
                        assert(has_bit(all, f + 8 * pawn_dir(color)) == (v[f + 8 * pawn_dir(color)]
                            != Square::blank()));
                    }
                }
            }
        }
        moves
    }
}

} // verus!
