use vstd::prelude::*;
use crate::bits::{BB, has_bit, bit_squares, bit, test_bit, lemma_or, lemma_zero};

verus! {

pub open spec fn file_of(i: int) -> int {
    i % 8
}

pub open spec fn rank_of(i: int) -> int {
    i / 8
}

pub open spec fn sq_at(f: int, r: int) -> int {
    r * 8 + f
}

pub open spec fn in_board(f: int, r: int) -> bool {
    0 <= f < 8 && 0 <= r < 8
}

pub open spec fn abs(x: int) -> int {
    if x < 0 { -x } else { x }
}

/// `t` is the on-board square `(df, dr)` away from `s`.
pub open spec fn offset_hit(s: int, t: int, df: int, dr: int) -> bool {
    &&& 0 <= s < 64
    &&& in_board(file_of(s) + df, rank_of(s) + dr)
    &&& t == sq_at(file_of(s) + df, rank_of(s) + dr)
}

/// A knight on `s` attacks `t`: `t` is a knight's jump away.
pub open spec fn knight_attack(s: int, t: int) -> bool {
    ||| offset_hit(s, t, 1, 2)
    ||| offset_hit(s, t, -1, 2)
    ||| offset_hit(s, t, 2, 1)
    ||| offset_hit(s, t, -2, 1)
    ||| offset_hit(s, t, 1, -2)
    ||| offset_hit(s, t, -1, -2)
    ||| offset_hit(s, t, 2, -1)
    ||| offset_hit(s, t, -2, -1)
}

/// A king on `s` attacks `t`: `t` is one step away.
pub open spec fn king_attack(s: int, t: int) -> bool {
    ||| offset_hit(s, t, 1, 1)
    ||| offset_hit(s, t, 0, 1)
    ||| offset_hit(s, t, -1, 1)
    ||| offset_hit(s, t, 1, 0)
    ||| offset_hit(s, t, -1, 0)
    ||| offset_hit(s, t, 1, -1)
    ||| offset_hit(s, t, 0, -1)
    ||| offset_hit(s, t, -1, -1)
}

/// A pawn of side `c` (0 white, 1 black) on `s` attacks `t`: one step
/// diagonally forward.
pub open spec fn pawn_attack(c: int, s: int, t: int) -> bool {
    let dr = if c == 0 { 1 } else { -1 };
    offset_hit(s, t, 1, dr) || offset_hit(s, t, -1, dr)
}

/// Coordinates of an on-board square.
pub proof fn lemma_coords(f: int, r: int)
    requires
        in_board(f, r),
    ensures
        file_of(sq_at(f, r)) == f,
        rank_of(sq_at(f, r)) == r,
        0 <= sq_at(f, r) < 64,
{
}

/// Square numbers decompose into file and rank.
pub proof fn lemma_square_coords(s: int)
    requires
        0 <= s < 64,
    ensures
        in_board(file_of(s), rank_of(s)),
        sq_at(file_of(s), rank_of(s)) == s,
{
}

/// Offsets are symmetric: `t` is `(df, dr)` from `s` exactly when `s` is
/// `(-df, -dr)` from `t`.
pub proof fn lemma_offset_symmetric(s: int, t: int, df: int, dr: int)
    ensures
        offset_hit(s, t, df, dr) == (0 <= s < 64 && offset_hit(t, s, -df, -dr)),
{
    if offset_hit(s, t, df, dr) {
        lemma_coords(file_of(s) + df, rank_of(s) + dr);
        lemma_square_coords(s);
    }
    if 0 <= s < 64 && offset_hit(t, s, -df, -dr) {
        lemma_coords(file_of(t) - df, rank_of(t) - dr);
        lemma_square_coords(t);
    }
}

/// Adds the square `(file(s) + df, rank(s) + dr)` when it is on the board.
fn add_offset(r: BB, s: u32, df: i32, dr: i32) -> (out: BB)
    requires
        s < 64,
        -2 <= df <= 2,
        -2 <= dr <= 2,
    ensures
        forall|t: int| #[trigger] has_bit(out, t) == (has_bit(r, t) || offset_hit(s as int, t, df as int, dr as int)),
{
    let f = (s % 8) as i32 + df;
    let k = (s / 8) as i32 + dr;
    if 0 <= f && f < 8 && 0 <= k && k < 8 {
        let b = bit((k * 8 + f) as u32);
        proof {
            lemma_or(r, b);
        }
        r | b
    } else {
        r
    }
}

/// The squares a knight on `s` attacks.
pub fn knight_attacks(s: u32) -> (r: BB)
    requires
        s < 64,
    ensures
        forall|t: int| #[trigger] has_bit(r, t) == knight_attack(s as int, t),
{
    proof {
        lemma_zero();
    }
    let r0: BB = 0;
    let r1 = add_offset(r0, s, 1, 2);
    let r2 = add_offset(r1, s, -1, 2);
    let r3 = add_offset(r2, s, 2, 1);
    let r4 = add_offset(r3, s, -2, 1);
    let r5 = add_offset(r4, s, 1, -2);
    let r6 = add_offset(r5, s, -1, -2);
    let r7 = add_offset(r6, s, 2, -1);
    let r8 = add_offset(r7, s, -2, -1);
    assert forall|t: int| #[trigger] has_bit(r8, t) == knight_attack(s as int, t) by {
        assert(has_bit(r8, t) == (has_bit(r7, t) || offset_hit(s as int, t, -2, -1)));
        assert(has_bit(r7, t) == (has_bit(r6, t) || offset_hit(s as int, t, 2, -1)));
        assert(has_bit(r6, t) == (has_bit(r5, t) || offset_hit(s as int, t, -1, -2)));
        assert(has_bit(r5, t) == (has_bit(r4, t) || offset_hit(s as int, t, 1, -2)));
        assert(has_bit(r4, t) == (has_bit(r3, t) || offset_hit(s as int, t, -2, 1)));
        assert(has_bit(r3, t) == (has_bit(r2, t) || offset_hit(s as int, t, 2, 1)));
        assert(has_bit(r2, t) == (has_bit(r1, t) || offset_hit(s as int, t, -1, 2)));
        assert(has_bit(r1, t) == (has_bit(r0, t) || offset_hit(s as int, t, 1, 2)));
    }
    r8
}

/// The squares a king on `s` attacks.
pub fn king_attacks(s: u32) -> (r: BB)
    requires
        s < 64,
    ensures
        forall|t: int| #[trigger] has_bit(r, t) == king_attack(s as int, t),
{
    proof {
        lemma_zero();
    }
    let r0: BB = 0;
    let r1 = add_offset(r0, s, 1, 1);
    let r2 = add_offset(r1, s, 0, 1);
    let r3 = add_offset(r2, s, -1, 1);
    let r4 = add_offset(r3, s, 1, 0);
    let r5 = add_offset(r4, s, -1, 0);
    let r6 = add_offset(r5, s, 1, -1);
    let r7 = add_offset(r6, s, 0, -1);
    let r8 = add_offset(r7, s, -1, -1);
    assert forall|t: int| #[trigger] has_bit(r8, t) == king_attack(s as int, t) by {
        assert(has_bit(r8, t) == (has_bit(r7, t) || offset_hit(s as int, t, -1, -1)));
        assert(has_bit(r7, t) == (has_bit(r6, t) || offset_hit(s as int, t, 0, -1)));
        assert(has_bit(r6, t) == (has_bit(r5, t) || offset_hit(s as int, t, 1, -1)));
        assert(has_bit(r5, t) == (has_bit(r4, t) || offset_hit(s as int, t, -1, 0)));
        assert(has_bit(r4, t) == (has_bit(r3, t) || offset_hit(s as int, t, 1, 0)));
        assert(has_bit(r3, t) == (has_bit(r2, t) || offset_hit(s as int, t, -1, 1)));
        assert(has_bit(r2, t) == (has_bit(r1, t) || offset_hit(s as int, t, 0, 1)));
        assert(has_bit(r1, t) == (has_bit(r0, t) || offset_hit(s as int, t, 1, 1)));
    }
    r8
}

/// The squares a pawn of side `c` on `s` attacks.
pub fn pawn_attacks(c: usize, s: u32) -> (r: BB)
    requires
        c < 2,
        s < 64,
    ensures
        forall|t: int| #[trigger] has_bit(r, t) == pawn_attack(c as int, s as int, t),
{
    proof {
        lemma_zero();
    }
    let r0: BB = 0;
    let dr: i32 = if c == 0 { 1 } else { -1 };
    let r1 = add_offset(r0, s, 1, dr);
    let r2 = add_offset(r1, s, -1, dr);
    r2
}

/// The squares reached from `(f, r)` stepping by `(df, dr)` up to `fuel`
/// times, stopping at the first occupied square (which is included).
pub open spec fn ray(f: int, r: int, df: int, dr: int, occ: Set<int>, fuel: nat) -> Set<int>
    decreases fuel,
{
    if fuel == 0 || !in_board(f + df, r + dr) {
        Set::empty()
    } else {
        let n = sq_at(f + df, r + dr);
        if occ.contains(n) {
            set![n]
        } else {
            ray(f + df, r + dr, df, dr, occ, (fuel - 1) as nat).insert(n)
        }
    }
}

/// The squares a slider on `s` reaches in direction `(df, dr)`.
pub open spec fn ray_from(s: int, df: int, dr: int, occ: Set<int>) -> Set<int> {
    ray(file_of(s), rank_of(s), df, dr, occ, 7)
}

/// The squares a bishop on `s` reaches over occupancy `occ`.
pub open spec fn bishop_reach(s: int, occ: Set<int>) -> Set<int> {
    ray_from(s, 1, 1, occ) + ray_from(s, -1, 1, occ) + ray_from(s, 1, -1, occ) + ray_from(
        s,
        -1,
        -1,
        occ,
    )
}

/// The squares a rook on `s` reaches over occupancy `occ`.
pub open spec fn rook_reach(s: int, occ: Set<int>) -> Set<int> {
    ray_from(s, 1, 0, occ) + ray_from(s, -1, 0, occ) + ray_from(s, 0, 1, occ) + ray_from(
        s,
        0,
        -1,
        occ,
    )
}

/// Every square of a ray is on the board.
pub proof fn lemma_ray_on_board(f: int, r: int, df: int, dr: int, occ: Set<int>, fuel: nat)
    ensures
        forall|t: int| #[trigger] ray(f, r, df, dr, occ, fuel).contains(t) ==> 0 <= t < 64,
    decreases fuel,
{
    if fuel > 0 && in_board(f + df, r + dr) {
        lemma_ray_on_board(f + df, r + dr, df, dr, occ, (fuel - 1) as nat);
        lemma_coords(f + df, r + dr);
        assert forall|t: int| #[trigger] ray(f, r, df, dr, occ, fuel).contains(t) implies 0 <= t < 64 by {
            if t != sq_at(f + df, r + dr) {
                assert(ray(f + df, r + dr, df, dr, occ, (fuel - 1) as nat).contains(t));
            }
        }
    }
}

/// Every square of a ray lies strictly ahead of its start in the ray's
/// direction.
pub proof fn lemma_ray_ahead(f: int, r: int, df: int, dr: int, occ: Set<int>, fuel: nat)
    ensures
        forall|t: int| #[trigger] ray(f, r, df, dr, occ, fuel).contains(t) ==> {
            &&& 0 <= t < 64
            &&& (df > 0 ==> file_of(t) > f)
            &&& (df < 0 ==> file_of(t) < f)
            &&& (df == 0 ==> file_of(t) == f)
            &&& (dr > 0 ==> rank_of(t) > r)
            &&& (dr < 0 ==> rank_of(t) < r)
            &&& (dr == 0 ==> rank_of(t) == r)
        },
    decreases fuel,
{
    if fuel > 0 && in_board(f + df, r + dr) {
        lemma_ray_ahead(f + df, r + dr, df, dr, occ, (fuel - 1) as nat);
        lemma_coords(f + df, r + dr);
        assert forall|t: int| #[trigger] ray(f, r, df, dr, occ, fuel).contains(t) implies {
            &&& 0 <= t < 64
            &&& (df > 0 ==> file_of(t) > f)
            &&& (df < 0 ==> file_of(t) < f)
            &&& (df == 0 ==> file_of(t) == f)
            &&& (dr > 0 ==> rank_of(t) > r)
            &&& (dr < 0 ==> rank_of(t) < r)
            &&& (dr == 0 ==> rank_of(t) == r)
        } by {
            if t != sq_at(f + df, r + dr) {
                assert(ray(f + df, r + dr, df, dr, occ, (fuel - 1) as nat).contains(t));
            }
        }
    }
}

/// A slider never reaches its own square.
pub proof fn lemma_reach_excludes_start(s: int, occ: Set<int>)
    requires
        0 <= s < 64,
    ensures
        !bishop_reach(s, occ).contains(s),
        !rook_reach(s, occ).contains(s),
{
    lemma_ray_ahead(file_of(s), rank_of(s), 1, 1, occ, 7);
    lemma_ray_ahead(file_of(s), rank_of(s), -1, 1, occ, 7);
    lemma_ray_ahead(file_of(s), rank_of(s), 1, -1, occ, 7);
    lemma_ray_ahead(file_of(s), rank_of(s), -1, -1, occ, 7);
    lemma_ray_ahead(file_of(s), rank_of(s), 1, 0, occ, 7);
    lemma_ray_ahead(file_of(s), rank_of(s), -1, 0, occ, 7);
    lemma_ray_ahead(file_of(s), rank_of(s), 0, 1, occ, 7);
    lemma_ray_ahead(file_of(s), rank_of(s), 0, -1, occ, 7);
}

/// Sliders only reach squares of the board.
pub proof fn lemma_reach_on_board(s: int, occ: Set<int>)
    ensures
        forall|t: int| #[trigger] bishop_reach(s, occ).contains(t) ==> 0 <= t < 64,
        forall|t: int| #[trigger] rook_reach(s, occ).contains(t) ==> 0 <= t < 64,
{
    lemma_ray_on_board(file_of(s), rank_of(s), 1, 1, occ, 7);
    lemma_ray_on_board(file_of(s), rank_of(s), -1, 1, occ, 7);
    lemma_ray_on_board(file_of(s), rank_of(s), 1, -1, occ, 7);
    lemma_ray_on_board(file_of(s), rank_of(s), -1, -1, occ, 7);
    lemma_ray_on_board(file_of(s), rank_of(s), 1, 0, occ, 7);
    lemma_ray_on_board(file_of(s), rank_of(s), -1, 0, occ, 7);
    lemma_ray_on_board(file_of(s), rank_of(s), 0, 1, occ, 7);
    lemma_ray_on_board(file_of(s), rank_of(s), 0, -1, occ, 7);
}

/// Adds the ray from `s` in direction `(df, dr)` to `acc`.
fn add_ray(acc: BB, s: u32, df: i32, dr: i32, occ: BB) -> (out: BB)
    requires
        s < 64,
        -1 <= df <= 1,
        -1 <= dr <= 1,
    ensures
        forall|t: int| #[trigger] has_bit(out, t) == (has_bit(acc, t) || ray_from(
            s as int,
            df as int,
            dr as int,
            bit_squares(occ),
        ).contains(t)),
{
    let ghost occs = bit_squares(occ);
    let mut f = (s % 8) as i32;
    let mut k = (s / 8) as i32;
    let mut fuel: u32 = 7;
    let mut out = acc;
    let ghost ray0 = ray_from(s as int, df as int, dr as int, occs);
    let ghost mut visited = Set::<int>::empty();
    proof {
        lemma_ray_on_board(f as int, k as int, df as int, dr as int, occs, 7);
        assert(ray0 =~= visited + ray(f as int, k as int, df as int, dr as int, occs, fuel as nat));
    }
    loop
        invariant
            -1 <= df <= 1,
            -1 <= dr <= 1,
            0 <= f < 8,
            0 <= k < 8,
            fuel <= 7,
            ray0 == ray_from(s as int, df as int, dr as int, occs),
            occs == bit_squares(occ),
            forall|t: int| #![trigger ray0.contains(t)] ray0.contains(t) ==> 0 <= t < 64,
            ray0 == visited + ray(f as int, k as int, df as int, dr as int, occs, fuel as nat),
            forall|t: int| #[trigger] has_bit(out, t) == (has_bit(acc, t) || visited.contains(t)),
        ensures
            forall|t: int| #[trigger] has_bit(out, t) == (has_bit(acc, t) || ray0.contains(t)),
        decreases fuel,
    {
        if fuel == 0 {
            assert(ray0 =~= visited);
            break;
        }
        let nf = f + df;
        let nk = k + dr;
        if !(0 <= nf && nf < 8 && 0 <= nk && nk < 8) {
            assert(ray0 =~= visited);
            break;
        }
        let n = (nk * 8 + nf) as u32;
        let b = bit(n);
        proof {
            lemma_or(out, b);
            lemma_coords(nf as int, nk as int);
        }
        out = out | b;
        if test_bit(occ, n) {
            proof {
                visited = visited.insert(n as int);
            }
            assert(ray0 =~= visited);
            break;
        }
        proof {
            visited = visited.insert(n as int);
        }
        assert(ray0 =~= visited + ray(nf as int, nk as int, df as int, dr as int, occs, (fuel - 1) as nat));
        f = nf;
        k = nk;
        fuel = fuel - 1;
    }
    out
}

/// The squares a bishop on `s` reaches over occupancy `occ`.
pub fn bishop_attacks(s: u32, occ: BB) -> (r: BB)
    requires
        s < 64,
    ensures
        forall|t: int| #[trigger] has_bit(r, t) == bishop_reach(s as int, bit_squares(occ)).contains(t),
{
    proof {
        lemma_zero();
    }
    let r1 = add_ray(0, s, 1, 1, occ);
    let r2 = add_ray(r1, s, -1, 1, occ);
    let r3 = add_ray(r2, s, 1, -1, occ);
    let r4 = add_ray(r3, s, -1, -1, occ);
    r4
}

/// The squares a rook on `s` reaches over occupancy `occ`.
pub fn rook_attacks(s: u32, occ: BB) -> (r: BB)
    requires
        s < 64,
    ensures
        forall|t: int| #[trigger] has_bit(r, t) == rook_reach(s as int, bit_squares(occ)).contains(t),
{
    proof {
        lemma_zero();
    }
    let r1 = add_ray(0, s, 1, 0, occ);
    let r2 = add_ray(r1, s, -1, 0, occ);
    let r3 = add_ray(r2, s, 0, 1, occ);
    let r4 = add_ray(r3, s, 0, -1, occ);
    r4
}

} // verus!
