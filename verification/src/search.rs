use vstd::prelude::*;
use crate::types::{Color, PieceTy, Square, Pos, Move, pos_index, lemma_square_of, lemma_pos_index_roundtrip};
use crate::board::lemma_view_bits;
use crate::game::Game;
use crate::perft::{position_key, key_game, perft, branch_sum, capped, move_number, move_numbers, lemma_key_game, lemma_key_after, lemma_legal_numbered, lemma_branch_sum_upto};
use crate::movegen::{pseudo_move, pawn_rule, pawn_dir, lemma_offset_index};
use crate::legality::{legal_move, legal_fast, lemma_pseudo_move_ok, law_move_keeps_sound};
use crate::game::{law_undo_restores_move, law_undo_restores_null_move};
use crate::attacks::{offset_hit, lemma_square_coords};

verus! {

/// Two games in the same position with the same history: they differ at
/// most in storage that their views do not show.
pub open spec fn same_position(a: Game, b: Game) -> bool {
    &&& b.board == a.board
    &&& b.to_move == a.to_move
    &&& b.castleable == a.castleable
    &&& b.enpass == a.enpass
    &&& b.hash == a.hash
    &&& b.full_move_clock == a.full_move_clock
    &&& b.prev_pos.prev_pos_idx == a.prev_pos.prev_pos_idx
    &&& b.prev_pos@ == a.prev_pos@
    &&& b.moves@ == a.moves@
}

/// Games in the same position agree on soundness, checks and moves.
pub proof fn lemma_same_position(a: Game, b: Game)
    requires
        same_position(a, b),
    ensures
        a.wf() == b.wf(),
        a.sound() == b.sound(),
        forall|c: Color| #[trigger] b.in_check(c) == a.in_check(c),
        forall|c: Color, m: Move| #[trigger] pseudo_move(b, c, m) == pseudo_move(a, c, m),
        forall|m: Move, ic: bool| #[trigger] legal_fast(b, m, ic) == legal_fast(a, m, ic),
        forall|m: Move| #[trigger] b.move_ok(m) == a.move_ok(m),
        forall|c: Color, m: Move| #[trigger] legal_move(b, c, m) == legal_move(a, c, m),
        b.undo_ok() == a.undo_ok(),
        forall|g2: Game| #[trigger] Game::undone(b, g2) == Game::undone(a, g2),
        b.full() == a.full(),
{
}

/// Sameness of position is symmetric and transitive.
pub proof fn lemma_same_position_trans(a: Game, b: Game, c: Game)
    ensures
        same_position(a, b) ==> same_position(b, a),
        same_position(a, b) && same_position(b, c) ==> same_position(a, c),
{
}

/// The scores of `s` do not increase.
pub open spec fn sorted_desc(s: Seq<(i32, Move)>) -> bool {
    forall|i: int, j: int| 0 <= i < j < s.len() ==> #[trigger] s[i].0 >= #[trigger] s[j].0
}

/// The index of the first highest score among the first `n` entries of `s`.
pub open spec fn first_best(s: Seq<(i32, Move)>, n: nat) -> int
    decreases n,
{
    if n <= 1 {
        0
    } else {
        let b = first_best(s, (n - 1) as nat);
        if s[n - 1].0 > s[b].0 {
            n - 1
        } else {
            b
        }
    }
}

pub proof fn lemma_first_best(s: Seq<(i32, Move)>, n: nat)
    requires
        1 <= n,
    ensures
        0 <= first_best(s, n) < n,
    decreases n,
{
    if n > 1 {
        lemma_first_best(s, (n - 1) as nat);
    }
}

/// `s` ordered by taking, again and again, the first entry with the
/// highest score left: from the highest score down, equal scores in their
/// order in `s`.
pub open spec fn select_sorted(s: Seq<(i32, Move)>) -> Seq<(i32, Move)>
    decreases s.len(),
{
    if s.len() == 0 {
        s
    } else {
        let b = first_best(s, s.len());
        proof {
            lemma_first_best(s, s.len());
        }
        seq![s[b]] + select_sorted(s.remove(b))
    }
}

/// Orders scored moves from the highest score down.
pub fn sort_scored(v: Vec<(i32, Move)>) -> (r: Vec<(i32, Move)>)
    ensures
        r@.to_multiset() == v@.to_multiset(),
        forall|x: (i32, Move)| #[trigger] r@.contains(x) <==> v@.contains(x),
        r@.len() == v@.len(),
        sorted_desc(r@),
        r@ == select_sorted(v@),
{
    broadcast use vstd::seq_lib::group_to_multiset_ensures;

    let ghost orig = v@;
    let mut rest = v;
    let mut out: Vec<(i32, Move)> = Vec::new();
    while rest.len() > 0
        invariant
            out@ + select_sorted(rest@) == select_sorted(orig),
            out@.to_multiset().add(rest@.to_multiset()) == orig.to_multiset(),
            sorted_desc(out@),
            forall|i: int, j: int|
                0 <= i < out@.len() && 0 <= j < rest@.len() ==> #[trigger] out@[i].0 >= #[trigger] rest@[j].0,
        decreases rest.len(),
    {
        let mut best: usize = 0;
        let mut k: usize = 1;
        while k < rest.len()
            invariant
                best < rest@.len(),
                1 <= k <= rest@.len(),
                forall|j: int| 0 <= j < k ==> rest@[best as int].0 >= #[trigger] rest@[j].0,
                best == first_best(rest@, k as nat),
            decreases rest@.len() - k,
        {
            if rest[k].0 > rest[best].0 {
                best = k;
            }
            k = k + 1;
        }
        let ghost before = rest@;
        let ghost out_before = out@;
        let x = rest.remove(best);
        out.push(x);
        proof {
            assert(select_sorted(before) == seq![before[best as int]] + select_sorted(before.remove(best as int)));
            assert(out@ + select_sorted(rest@) =~= out_before + select_sorted(before));
            vstd::seq_lib::to_multiset_remove(before, best as int);
            vstd::seq_lib::to_multiset_build(out_before, x);
            assert(out@ == out_before.push(x));
            assert(rest@ == before.remove(best as int));
            assert(before.to_multiset().count(x) > 0) by {
                assert(before.contains(x)) by {
                    assert(before[best as int] == x);
                }
                vstd::seq_lib::to_multiset_contains(before, x);
            }
            assert(out@.to_multiset().add(rest@.to_multiset()) =~= out_before.to_multiset().add(
                before.to_multiset(),
            ));
            assert forall|i: int, j: int|
                0 <= i < out@.len() && 0 <= j < rest@.len() implies #[trigger] out@[i].0 >= #[trigger] rest@[j].0 by {
                if j < best {
                    assert(rest@[j] == before[j]);
                } else {
                    assert(rest@[j] == before[j + 1]);
                }
                if i < out_before.len() {
                    assert(out@[i] == out_before[i]);
                }
            }
            assert forall|i: int, j: int| 0 <= i < j < out@.len() implies #[trigger] out@[i].0 >= #[trigger] out@[j].0 by {
                if j < out_before.len() {
                    assert(out@[i] == out_before[i]);
                    assert(out@[j] == out_before[j]);
                } else {
                    assert(out@[i] == out_before[i]);
                    assert(before[best as int] == x);
                }
            }
        }
    }
    proof {
        assert(rest@ =~= Seq::<(i32, Move)>::empty());
        assert(rest@.to_multiset() =~= vstd::multiset::Multiset::<(i32, Move)>::empty());
        assert(out@.to_multiset() =~= orig.to_multiset());
        vstd::seq_lib::to_multiset_len(out@);
        vstd::seq_lib::to_multiset_len(orig);
        assert forall|x: (i32, Move)| #[trigger] out@.contains(x) <==> orig.contains(x) by {
            assert(out@.contains(x) <==> out@.to_multiset().count(x) > 0);
            assert(orig.contains(x) <==> orig.to_multiset().count(x) > 0);
        }
    }
    out
}

/// What a capture takes: the piece on the destination, else the square
/// beside the origin.
pub open spec fn capture_victim(g: Game, m: Move) -> Square {
    if g.at(m.to) != Square::blank() {
        g.at(m.to)
    } else {
        g.at((m.to.0, m.from.1))
    }
}

/// A legal move that lands on a piece, or a pawn move that changes file,
/// takes a piece: the destination's, or the pawn passed by en passant.
pub proof fn lemma_capture_victim(g: Game, m: Move)
    requires
        g.sound(),
        legal_move(g, g.to_move, m),
        g.at(m.to) != Square::blank() || (g.at(m.from) != Square::blank() && g.at(m.from).kind() == PieceTy::Pawn
            && m.from.0 != m.to.0),
    ensures
        capture_victim(g, m).is_piece(),
        g.at(m.from).is_piece(),
        g.move_ok(m),
        g.at(m.to) != Square::of(PieceTy::King, g.to_move.opposite()),
{
    let v = g.board@;
    let c = g.to_move;
    let f = pos_index(m.from);
    let t = pos_index(m.to);
    lemma_view_bits(g.board);
    lemma_square_of(PieceTy::King, c.opposite());
    lemma_square_of(PieceTy::Pawn, c.opposite());
    lemma_pseudo_move_ok(g, m);
    lemma_pos_index_roundtrip(m.from, 0);
    lemma_pos_index_roundtrip(m.to, 0);
    if g.at(m.to) == Square::blank() {
        let dr = pawn_dir(c);
        lemma_square_coords(f);
        lemma_square_coords(t);
        lemma_offset_index(f, t, 0, dr);
        lemma_offset_index(f, t, 0, 2 * dr);
        assert(pawn_rule(g, c, m));
        assert(!offset_hit(f, t, 0, dr));
        assert(!offset_hit(f, t, 0, 2 * dr));
        assert(g.enpass == Some(m.to));
        assert(g.is_ep_capture(m));
    }
}

/// After a legal move the position is sound, the history one longer, and
/// taking the move back gives the position again.
pub proof fn lemma_after_move(g: Game, m: Move, g1: Game)
    requires
        g.sound(),
        legal_move(g, g.to_move, m),
        Game::moved(g, m, g1),
    ensures
        g1.sound(),
        g1.prev_pos.prev_pos_idx == g.prev_pos.prev_pos_idx + 1,
        g1.undo_ok(),
        forall|g2: Game| #[trigger] Game::undone(g1, g2) ==> same_position(g, g2),
{
    lemma_view_bits(g.board);
    lemma_square_of(PieceTy::King, g.to_move.opposite());
    assert(g.at(m.to) != Square::of(PieceTy::King, g.to_move.opposite()));
    law_move_keeps_sound(g, m, g1);
    assert(g1.prev_pos@.len() == g.prev_pos@.len() + 1);
    lemma_pseudo_move_ok(g, m);
    law_undo_restores_move(g, m, g1, g1);
    assert forall|g2: Game| #[trigger] Game::undone(g1, g2) implies same_position(g, g2) by {
        law_undo_restores_move(g, m, g1, g2);
        assert(g2.prev_pos@.len() == g.prev_pos@.len());
    }
}

/// After a null move the position is sound, the history one longer, and
/// taking it back gives the position again.
pub proof fn lemma_after_null_move(g: Game, g1: Game)
    requires
        g.sound(),
        g1.wf(),
        g1.board == g.board,
        g1.to_move == g.to_move.opposite(),
        g1.castleable == g.castleable,
        g1.enpass == None::<Pos>,
        g1.prev_pos@ == g.prev_pos@.push(g.hash),
        g1.moves@ == g.moves@.push(Game::null_record(g)),
        g1.full_move_clock == g.full_move_clock,
    ensures
        g1.sound(),
        g1.prev_pos.prev_pos_idx == g.prev_pos.prev_pos_idx + 1,
        g1.undo_ok(),
        forall|g2: Game| #[trigger] Game::undone(g1, g2) ==> same_position(g, g2),
{
    assert(g1.prev_pos@.len() == g.prev_pos@.len() + 1);
    law_undo_restores_null_move(g, g1, g1);
    assert forall|g2: Game| #[trigger] Game::undone(g1, g2) implies same_position(g, g2) by {
        law_undo_restores_null_move(g, g1, g2);
        assert(g2.prev_pos@.len() == g.prev_pos@.len());
    }
}

/// A legal move can be played and does not take the enemy king.
pub proof fn lemma_legal_move_ok(g: Game, m: Move)
    requires
        g.sound(),
        legal_move(g, g.to_move, m),
    ensures
        g.move_ok(m),
        g.at(m.to) != Square::of(PieceTy::King, g.to_move.opposite()),
{
    lemma_view_bits(g.board);
    lemma_square_of(PieceTy::King, g.to_move.opposite());
    assert(g.at(m.to) != Square::of(PieceTy::King, g.to_move.opposite()));
    lemma_pseudo_move_ok(g, m);
}

/// A move the generator offers changes square.
pub proof fn lemma_pseudo_from_to(g: Game, m: Move)
    requires
        g.board.wf(),
        pseudo_move(g, g.to_move, m),
        g.sound(),
    ensures
        m.from != m.to,
{
    lemma_view_bits(g.board);
    lemma_pos_index_roundtrip(m.from, 0);
    lemma_pos_index_roundtrip(m.to, 0);
    if m.from == m.to {
        let f = pos_index(m.from);
        let occ = crate::threats::occupied(g.board@);
        crate::attacks::lemma_reach_excludes_start(f, occ);
        lemma_square_coords(f);
        let dr = pawn_dir(g.to_move);
        lemma_offset_index(f, f, 0, dr);
        lemma_offset_index(f, f, 0, 2 * dr);
        lemma_offset_index(f, f, 1, dr);
        lemma_offset_index(f, f, -1, dr);
    }
}

/// Counts the move sequences of `depth` plies from the position, playing
/// and taking back each legal move; the count stops growing at the largest
/// number it can hold.
pub fn explore(game: &mut Game, depth: u16) -> (r: u64)
    requires
        old(game).sound(),
        old(game).prev_pos.prev_pos_idx + depth <= 256,
    ensures
        same_position(*old(game), *final(game)),
        r == capped(perft(position_key(*old(game)), depth as nat)),
    decreases depth,
{
    let ghost g0 = *game;
    proof {
        lemma_same_position_trans(g0, g0, g0);
    }
    if depth == 0 {
        return 1;
    }
    let moves = game.get_all_moves(game.get_to_move());
    let mut total: u64 = 0;
    let mut i: usize = 0;
    while i < moves.len()
        invariant
            same_position(g0, *game),
            g0 == *old(game),
            g0.sound(),
            g0.prev_pos.prev_pos_idx + depth <= 256,
            1 <= depth,
            i <= moves@.len(),
            forall|m: Move| #[trigger] moves@.contains(m) <==> legal_move(g0, g0.to_move, m),
            total == capped(branch_sum(position_key(g0), depth as nat, moves@.take(i as int))),
        decreases moves@.len() - i,
    {
        let m = moves[i];
        proof {
            assert(moves@.contains(moves@[i as int]));
            lemma_same_position(g0, *game);
            lemma_legal_move_ok(*game, m);
        }
        let ghost gm = *game;
        game.move_piece(m);
        let ghost g1 = *game;
        proof {
            lemma_after_move(gm, m, g1);
        }
        let n = explore(game, depth - 1);
        proof {
            lemma_same_position(g1, *game);
        }
        game.undo_move();
        proof {
            assert(Game::undone(g1, *game));
            lemma_same_position_trans(g0, gm, *game);
            lemma_key_after(g0, gm, m, g1);
            let k0 = position_key(g0);
            let s1 = moves@.take(i + 1);
            assert(s1.drop_last() =~= moves@.take(i as int));
            assert(s1.last() == m);
            assert(branch_sum(k0, depth as nat, s1) == branch_sum(k0, depth as nat, moves@.take(i as int)) + perft(
                position_key(g1),
                (depth - 1) as nat,
            ));
        }
        total = total.saturating_add(n);
        i = i + 1;
    }
    proof {
        let k0 = position_key(g0);
        let gk = key_game(k0);
        lemma_key_game(g0);
        lemma_same_position(g0, gk);
        assert(moves@.take(moves@.len() as int) =~= moves@);
        assert forall|m: Move| #[trigger] moves@.contains(m) <==> (legal_move(gk, gk.to_move, m) && move_number(m)
            < move_numbers()) by {
            if legal_move(gk, gk.to_move, m) {
                lemma_legal_numbered(gk, m);
            }
        }
        lemma_branch_sum_upto(k0, depth as nat, moves@, move_numbers());
    }
    total
}

/// Whether `m` is among `v`.
pub fn contains_move(v: &Vec<Move>, m: Move) -> (r: bool)
    ensures
        r == v@.contains(m),
{
    let mut i: usize = 0;
    while i < v.len()
        invariant
            i <= v@.len(),
            forall|j: int| 0 <= j < i ==> v@[j] != m,
        decreases v@.len() - i,
    {
        if v[i] == m {
            return true;
        }
        i = i + 1;
    }
    false
}

} // verus!
