use vstd::prelude::*;
use crate::types::{Color, PieceTy, Pos, Move, on_board, index_pos, pos_index, lemma_pos_index_roundtrip};
use crate::game::{Game, Undo};
use crate::board::{BitBoards, lemma_view_determines};
use crate::movegen::is_promo_kind;
use crate::legality::legal_move;
use crate::search::{same_position, lemma_same_position};

verus! {

/// What a game's legal moves, and the games they lead to, depend on: the
/// fields that `same_position` compares.
pub type PositionKey = (BitBoards, Color, [(bool, bool); 2], Option<Pos>, u64, u32, usize, Seq<u64>, Seq<Undo>);

/// The key of game `g`.
pub open spec fn position_key(g: Game) -> PositionKey {
    (g.board, g.to_move, g.castleable, g.enpass, g.hash, g.full_move_clock, g.prev_pos.prev_pos_idx, g.prev_pos@, g.moves@)
}

/// A game with key `k`.
pub open spec fn key_game(k: PositionKey) -> Game {
    choose|g: Game| position_key(g) == k
}

/// The key of the game that move `m` leads to from the game with key `k`.
pub open spec fn key_after(k: PositionKey, m: Move) -> PositionKey {
    position_key(choose|g1: Game| Game::moved(key_game(k), m, g1))
}

/// The number of a promotion choice: none, knight, bishop, rook, queen.
pub open spec fn promo_number(p: Option<PieceTy>) -> int {
    match p {
        None => 0,
        Some(PieceTy::Knight) => 1,
        Some(PieceTy::Bishop) => 2,
        Some(PieceTy::Rook) => 3,
        Some(PieceTy::Queen) => 4,
        Some(_) => 5,
    }
}

/// The promotion choice numbered `n`.
pub open spec fn number_promo(n: int) -> Option<PieceTy> {
    if n == 1 {
        Some(PieceTy::Knight)
    } else if n == 2 {
        Some(PieceTy::Bishop)
    } else if n == 3 {
        Some(PieceTy::Rook)
    } else if n == 4 {
        Some(PieceTy::Queen)
    } else {
        None
    }
}

/// Moves numbered by origin, destination and promotion: every move a
/// game can make has a number below `move_numbers()`.
pub open spec fn move_number(m: Move) -> int {
    pos_index(m.from) * 320 + pos_index(m.to) * 5 + promo_number(m.promotion)
}

/// The move numbered `n`.
pub open spec fn numbered_move(n: int) -> Move {
    Move { from: index_pos(n / 320), to: index_pos((n / 5) % 64), promotion: number_promo(n % 5) }
}

/// How many numbers moves take: 64 origins, 64 destinations, 5 promotion choices.
pub open spec fn move_numbers() -> nat {
    20480
}

/// Numbering and its inverse agree on every move that stays on the board
/// and promotes, if at all, to a knight, bishop, rook or queen.
pub proof fn lemma_move_number(m: Move)
    requires
        on_board(m.from),
        on_board(m.to),
        m.promotion == None::<PieceTy> || is_promo_kind(m.promotion),
    ensures
        0 <= move_number(m) < move_numbers(),
        numbered_move(move_number(m)) == m,
{
    let a = pos_index(m.from);
    let b = pos_index(m.to);
    let p = promo_number(m.promotion);
    lemma_pos_index_roundtrip(m.from, 0);
    lemma_pos_index_roundtrip(m.to, 0);
    assert(0 <= p < 5);
    let n = a * 320 + b * 5 + p;
    assert(n / 320 == a && (n / 5) % 64 == b && n % 5 == p) by (nonlinear_arith)
        requires
            0 <= a < 64,
            0 <= b < 64,
            0 <= p < 5,
            n == a * 320 + b * 5 + p,
    {
        assert(n == (b + a * 64) * 5 + p);
        assert(n / 5 == b + a * 64);
        assert(n == a * 320 + (b * 5 + p));
    }
}

/// Every number below `move_numbers()` names a move that numbers back to it.
pub proof fn lemma_numbered_move(n: int)
    requires
        0 <= n < move_numbers(),
    ensures
        move_number(numbered_move(n)) == n,
        on_board(numbered_move(n).from),
        on_board(numbered_move(n).to),
{
    let a = n / 320;
    let b = (n / 5) % 64;
    let p = n % 5;
    assert(0 <= a < 64 && 0 <= b < 64 && 0 <= p < 5 && n == a * 320 + b * 5 + p) by (nonlinear_arith)
        requires
            0 <= n < 20480,
            a == n / 320,
            b == (n / 5) % 64,
            p == n % 5,
    {
        assert(n / 5 == (n / 5 / 64) * 64 + b);
        assert(n / 5 / 64 == a);
    }
    lemma_pos_index_roundtrip(index_pos(a), a);
    lemma_pos_index_roundtrip(index_pos(b), b);
}

/// The sum of `f` over the moves of `s`.
pub open spec fn moves_sum(s: Seq<Move>, f: spec_fn(Move) -> int) -> int
    decreases s.len(),
{
    if s.len() == 0 {
        0
    } else {
        moves_sum(s.drop_last(), f) + f(s.last())
    }
}

/// The sum of `f` over the moves numbered below `n` that satisfy `p`.
pub open spec fn numbered_sum(p: spec_fn(Move) -> bool, f: spec_fn(Move) -> int, n: nat) -> int
    decreases n,
{
    if n == 0 {
        0
    } else {
        numbered_sum(p, f, (n - 1) as nat) + if p(numbered_move(n - 1)) {
            f(numbered_move(n - 1))
        } else {
            0
        }
    }
}

/// Taking one move out of a list takes its term out of the sum.
pub proof fn lemma_moves_sum_remove(s: Seq<Move>, f: spec_fn(Move) -> int, i: int)
    requires
        0 <= i < s.len(),
    ensures
        moves_sum(s, f) == moves_sum(s.remove(i), f) + f(s[i]),
    decreases s.len(),
{
    if i < s.len() - 1 {
        let t = s.drop_last();
        lemma_moves_sum_remove(t, f, i);
        assert(s.remove(i).drop_last() =~= t.remove(i));
        assert(s.remove(i).last() == s.last());
    } else {
        assert(s.remove(i) =~= s.drop_last());
    }
}

/// Summing over a list that holds, each once, the moves numbered below `n`
/// that satisfy `p` is summing over those numbers.
pub proof fn lemma_moves_sum_numbered(s: Seq<Move>, p: spec_fn(Move) -> bool, f: spec_fn(Move) -> int, n: nat)
    requires
        n <= move_numbers(),
        s.no_duplicates(),
        forall|m: Move| #[trigger] p(m) ==> 0 <= move_number(m) < move_numbers() && numbered_move(move_number(m)) == m,
        forall|m: Move| #[trigger] s.contains(m) <==> (p(m) && move_number(m) < n),
    ensures
        moves_sum(s, f) == numbered_sum(p, f, n),
    decreases n,
{
    if n == 0 {
        if s.len() > 0 {
            assert(s.contains(s[0]));
        }
        assert(s =~= Seq::<Move>::empty());
    } else {
        let mv = numbered_move(n - 1);
        lemma_numbered_move(n - 1);
        if p(mv) {
            assert(s.contains(mv));
            let i = choose|i: int| 0 <= i < s.len() && s[i] == mv;
            let t = s.remove(i);
            assert forall|a: int, b: int| 0 <= a < t.len() && 0 <= b < t.len() && a != b implies t[a] != t[b] by {
                let a2 = if a < i { a } else { a + 1 };
                let b2 = if b < i { b } else { b + 1 };
                assert(t[a] == s[a2] && t[b] == s[b2]);
            }
            assert forall|m: Move| #[trigger] t.contains(m) <==> (p(m) && move_number(m) < n - 1) by {
                if t.contains(m) {
                    let j = choose|j: int| 0 <= j < t.len() && t[j] == m;
                    let j2 = if j < i { j } else { j + 1 };
                    assert(s[j2] == m);
                    assert(s.contains(m));
                    assert(j2 != i);
                }
                if p(m) && move_number(m) < n - 1 {
                    assert(s.contains(m));
                    let j = choose|j: int| 0 <= j < s.len() && s[j] == m;
                    assert(j != i);
                    let j2 = if j < i { j } else { j - 1 };
                    assert(t[j2] == m);
                }
            }
            lemma_moves_sum_numbered(t, p, f, (n - 1) as nat);
            lemma_moves_sum_remove(s, f, i);
        } else {
            lemma_moves_sum_numbered(s, p, f, (n - 1) as nat);
        }
    }
}

/// With terms from `0` to `w`, a prefix sums to no more than the whole,
/// and the whole to no more than `w` per move.
pub proof fn lemma_moves_sum_bounds(s: Seq<Move>, f: spec_fn(Move) -> int, w: int, i: int)
    requires
        0 <= i <= s.len(),
        forall|m: Move| 0 <= #[trigger] f(m) <= w,
    ensures
        0 <= moves_sum(s.take(i), f) <= moves_sum(s, f) <= w * s.len(),
    decreases s.len(),
{
    if s.len() > 0 {
        if i == s.len() {
            assert(s.take(i) =~= s);
            lemma_moves_sum_bounds(s.drop_last(), f, w, 0);
        } else {
            assert(s.drop_last().take(i) =~= s.take(i));
            lemma_moves_sum_bounds(s.drop_last(), f, w, i);
        }
        assert(w * s.len() == w * (s.len() - 1) + w) by (nonlinear_arith);
    } else {
        assert(s.take(i) =~= s);
    }
}

/// A numbered sum with terms up to `w` is at most `w` per number.
pub proof fn lemma_numbered_sum_bound(p: spec_fn(Move) -> bool, f: spec_fn(Move) -> int, w: int, n: nat)
    requires
        forall|m: Move| 0 <= #[trigger] f(m) <= w,
    ensures
        0 <= numbered_sum(p, f, n) <= w * n,
    decreases n,
{
    if n > 0 {
        let n1 = (n - 1) as nat;
        lemma_numbered_sum_bound(p, f, w, n1);
        let x = f(numbered_move(n1 as int));
        assert(0 <= x <= w);
        assert(numbered_sum(p, f, n) == numbered_sum(p, f, n1) + if p(numbered_move(n1 as int)) { x } else { 0 });
        assert(w * n == w * n1 + w) by (nonlinear_arith)
            requires
                n == n1 + 1,
        ;
    }
}

/// The number of sequences of `depth` legal moves from the game with key `k`.
pub open spec fn perft(k: PositionKey, depth: nat) -> nat
    decreases depth, move_numbers() + 1,
{
    if depth == 0 {
        1
    } else {
        perft_upto(k, depth, move_numbers())
    }
}

/// The sequences counted by `perft(k, depth)` whose first move is numbered
/// below `n`.
pub open spec fn perft_upto(k: PositionKey, depth: nat, n: nat) -> nat
    decreases depth, n,
{
    if depth == 0 || n == 0 {
        0
    } else {
        let m = numbered_move(n - 1);
        let g = key_game(k);
        perft_upto(k, depth, (n - 1) as nat) + if legal_move(g, g.to_move, m) {
            perft(key_after(k, m), (depth - 1) as nat)
        } else {
            0
        }
    }
}

/// The sequences counted by `perft(k, depth)` that begin with a move of `s`.
pub open spec fn branch_sum(k: PositionKey, depth: nat, s: Seq<Move>) -> nat
    decreases s.len(),
{
    if s.len() == 0 || depth == 0 {
        0
    } else {
        branch_sum(k, depth, s.drop_last()) + perft(key_after(k, s.last()), (depth - 1) as nat)
    }
}

/// A legal move has a number.
pub proof fn lemma_legal_numbered(g: Game, m: Move)
    requires
        legal_move(g, g.to_move, m),
    ensures
        0 <= move_number(m) < move_numbers(),
        numbered_move(move_number(m)) == m,
{
    assert(m.promotion == None::<PieceTy> || is_promo_kind(m.promotion));
    lemma_move_number(m);
}

/// Taking one move out of a list takes its branch out of the sum.
pub proof fn lemma_branch_sum_remove(k: PositionKey, depth: nat, s: Seq<Move>, i: int)
    requires
        0 <= i < s.len(),
        depth > 0,
    ensures
        branch_sum(k, depth, s) == branch_sum(k, depth, s.remove(i)) + perft(key_after(k, s[i]), (depth - 1) as nat),
    decreases s.len(),
{
    if i < s.len() - 1 {
        let t = s.drop_last();
        lemma_branch_sum_remove(k, depth, t, i);
        assert(s.remove(i).drop_last() =~= t.remove(i));
        assert(s.remove(i).last() == s.last());
    } else {
        assert(s.remove(i) =~= s.drop_last());
    }
}

/// The branch sum over a list of the legal moves numbered below `n`, each
/// once, is `perft_upto(k, depth, n)`.
pub proof fn lemma_branch_sum_upto(k: PositionKey, depth: nat, s: Seq<Move>, n: nat)
    requires
        depth > 0,
        n <= move_numbers(),
        s.no_duplicates(),
        forall|m: Move| #[trigger] s.contains(m) <==> (legal_move(key_game(k), key_game(k).to_move, m)
            && move_number(m) < n),
    ensures
        branch_sum(k, depth, s) == perft_upto(k, depth, n),
    decreases n,
{
    let g = key_game(k);
    if n == 0 {
        if s.len() > 0 {
            assert(s.contains(s[0]));
            lemma_legal_numbered(g, s[0]);
        }
        assert(s =~= Seq::<Move>::empty());
    } else {
        let mv = numbered_move(n - 1);
        lemma_numbered_move(n - 1);
        if legal_move(g, g.to_move, mv) {
            assert(s.contains(mv));
            let i = choose|i: int| 0 <= i < s.len() && s[i] == mv;
            let t = s.remove(i);
            assert forall|a: int, b: int| 0 <= a < t.len() && 0 <= b < t.len() && a != b implies t[a] != t[b] by {
                let a2 = if a < i { a } else { a + 1 };
                let b2 = if b < i { b } else { b + 1 };
                assert(t[a] == s[a2] && t[b] == s[b2]);
            }
            assert forall|m: Move| #[trigger] t.contains(m) <==> (legal_move(g, g.to_move, m) && move_number(m)
                < n - 1) by {
                if t.contains(m) {
                    let j = choose|j: int| 0 <= j < t.len() && t[j] == m;
                    let j2 = if j < i { j } else { j + 1 };
                    assert(s[j2] == m);
                    assert(s.contains(m));
                    assert(j2 != i);
                    lemma_legal_numbered(g, m);
                }
                if legal_move(g, g.to_move, m) && move_number(m) < n - 1 {
                    assert(s.contains(m));
                    let j = choose|j: int| 0 <= j < s.len() && s[j] == m;
                    lemma_legal_numbered(g, m);
                    assert(j != i);
                    let j2 = if j < i { j } else { j - 1 };
                    assert(t[j2] == m);
                }
            }
            lemma_branch_sum_upto(k, depth, t, (n - 1) as nat);
            lemma_branch_sum_remove(k, depth, s, i);
        } else {
            assert forall|m: Move| #[trigger] s.contains(m) <==> (legal_move(g, g.to_move, m) && move_number(m)
                < n - 1) by {
                if legal_move(g, g.to_move, m) {
                    lemma_legal_numbered(g, m);
                }
            }
            lemma_branch_sum_upto(k, depth, s, (n - 1) as nat);
        }
    }
}

/// A game has the key of its own key game.
pub proof fn lemma_key_game(g: Game)
    ensures
        same_position(g, key_game(position_key(g))),
{
    let k = position_key(g);
    assert(exists|h: Game| position_key(h) == k);
    let h = key_game(k);
    assert(position_key(h) == k);
}

/// A move leads from one game to games of one key.
pub proof fn lemma_moved_key(g: Game, m: Move, a: Game, b: Game)
    requires
        Game::moved(g, m, a),
        Game::moved(g, m, b),
    ensures
        position_key(a) == position_key(b),
{
    lemma_view_determines(a.board, b.board);
    assert(a.castleable =~= b.castleable);
    assert(a.full() == b.full());
    let f = a.full();
    let (x, y, z) = (a.hash, b.hash, g.hash ^ g.full());
    assert(x ^ f == z && y ^ f == z ==> x == y) by (bit_vector);
    assert(a.prev_pos@.len() == a.prev_pos.prev_pos_idx);
    assert(b.prev_pos@.len() == b.prev_pos.prev_pos_idx);
}

/// The key a move leads to from `g`'s key is that of any game the move
/// leads to from a game in `g`'s position.
pub proof fn lemma_key_after(g: Game, h: Game, m: Move, g1: Game)
    requires
        same_position(g, h),
        Game::moved(h, m, g1),
    ensures
        key_after(position_key(g), m) == position_key(g1),
{
    let k = position_key(g);
    lemma_key_game(g);
    let gk = key_game(k);
    assert(Game::moved(gk, m, g1));
    let x = choose|x: Game| Game::moved(gk, m, x);
    lemma_moved_key(gk, m, x, g1);
}

/// `n`, or the largest `u64` where `n` is larger.
pub open spec fn capped(n: nat) -> u64 {
    if n < u64::MAX {
        n as u64
    } else {
        u64::MAX
    }
}

} // verus!
