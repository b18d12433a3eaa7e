use vstd::prelude::*;
use crate::bits::{BB, has_bit, test_bit, lemma_and, lemma_or, lemma_shl, lemma_shr, lemma_zero, lemma_zero_iff};
use crate::board::side_of_index;
use crate::types::Color;
use crate::attacks::{file_of, rank_of, abs};
use crate::movegen::{FILE_A, lemma_masks};
use crate::game::Game;

verus! {

/// Square `t` lies ahead of square `s` for side `c`'s pawn on `s`, on its
/// file or a neighbouring one: where an enemy pawn stops it from passing.
pub open spec fn passed_zone(c: Color, s: int, t: int) -> bool {
    &&& 0 <= t < 64
    &&& abs(file_of(t) - file_of(s)) <= 1
    &&& if c == Color::White { rank_of(t) > rank_of(s) } else { rank_of(t) < rank_of(s) }
}

/// No pawn of `them` stands in the zone of side `c`'s pawn on `s`.
pub open spec fn is_passed(them: u64, c: Color, s: int) -> bool {
    forall|t: int| #[trigger] has_bit(them, t) ==> !passed_zone(c, s, t)
}

/// The passed pawns of `us` below square `n`, for side `c` against `them`.
pub open spec fn passed_count(us: u64, them: u64, c: Color, n: nat) -> int
    decreases n,
{
    if n == 0 {
        0
    } else {
        passed_count(us, them, c, (n - 1) as nat) + (if has_bit(us, n - 1) && is_passed(them, c, n - 1) {
            1int
        } else {
            0int
        })
    }
}

proof fn bv_full(i: u64)
    by (bit_vector)
    requires
        i < 64,
    ensures
        (0xFFFF_FFFF_FFFF_FFFFu64 >> i) & 1u64 == 1u64,
{
}

/// The smaller of two numbers.
pub fn min(n1: usize, n2: usize) -> (r: usize)
    ensures
        r == (if n1 < n2 { n1 } else { n2 }),
{
    if n1 < n2 {
        n1
    } else {
        n2
    }
}

/// The squares of file `f`.
pub fn file_mask(f: usize) -> (r: BB)
    requires
        f < 8,
    ensures
        forall|t: int| #[trigger] has_bit(r, t) == (0 <= t < 64 && file_of(t) == f),
{
    proof {
        lemma_masks();
        lemma_shl(FILE_A, f as u64);
        assert forall|t: int| #[trigger] has_bit(FILE_A << (f as u64), t) == (0 <= t < 64 && file_of(t) == f) by {
            assert(has_bit(FILE_A, t - f) == (0 <= t - f < 64 && file_of(t - f) == 0));
        }
    }
    FILE_A << f
}

/// For each side and square, the squares whose enemy pawns stop a pawn
/// there from passing.
pub fn compute_passed_masks() -> (masks: [[u64; 64]; 2])
    ensures
        forall|c: int, s: int, t: int|
            0 <= c < 2 && 0 <= s < 64 ==> #[trigger] has_bit(masks[c][s], t) == passed_zone(side_of_index(c), s, t),
{
    let mut masks = [[0u64; 64]; 2];
    let mut s: usize = 0;
    proof {
        assert forall|i: int| 0 <= i < 64 implies #[trigger] has_bit(0xFFFF_FFFF_FFFF_FFFFu64, i) by {
            bv_full(i as u64);
        }
    }
    while s < 64
        invariant
            s <= 64,
            forall|i: int| 0 <= i < 64 ==> #[trigger] has_bit(0xFFFF_FFFF_FFFF_FFFFu64, i),
            forall|c: int, q: int, t: int|
                0 <= c < 2 && 0 <= q < s ==> #[trigger] has_bit(masks[c][q], t) == passed_zone(side_of_index(c), q, t),
        decreases 64 - s,
    {
        let file = s % 8;
        let rank = s / 8;
        let lo = if file >= 1 { file - 1 } else { 0 };
        let hi = min(file + 1, 7);
        let m1 = file_mask(file);
        let m2 = file_mask(lo);
        let m3 = file_mask(hi);
        let files = m1 | m2 | m3;
        let up: u64 = if rank == 7 {
            0
        } else {
            0xFFFF_FFFF_FFFF_FFFFu64 << (8 * (rank + 1))
        };
        let down: u64 = if rank == 0 {
            0
        } else {
            0xFFFF_FFFF_FFFF_FFFFu64 >> (8 * (8 - rank))
        };
        proof {
            lemma_zero();
            lemma_or(m1, m2);
            lemma_or(m1 | m2, m3);
            if rank != 7 {
                lemma_shl(0xFFFF_FFFF_FFFF_FFFFu64, (8 * (rank + 1)) as u64);
            }
            if rank != 0 {
                lemma_shr(0xFFFF_FFFF_FFFF_FFFFu64, (8 * (8 - rank)) as u64);
            }
        }
        let ghost before = masks;
        masks[0][s] = files & up;
        masks[1][s] = files & down;
        proof {
            lemma_and(files, up);
            lemma_and(files, down);
            assert forall|c: int, q: int, t: int|
                0 <= c < 2 && 0 <= q < s + 1 implies #[trigger] has_bit(masks[c][q], t) == passed_zone(side_of_index(c), q, t) by {
                if q < s {
                    assert(masks[c][q] == before[c][q]);
                } else {
                    assert(q == s);
                    assert(file_of(q) == file && rank_of(q) == rank);
                }
            }
        }
        s = s + 1;
    }
    masks
}

impl Game {
    /// The passed pawns of side `c`: its pawns with no enemy pawn ahead on
    /// their own or a neighbouring file.
    pub fn passed_pawns_check(&self, c: Color) -> (r: i32)
        ensures
            r == passed_count(self.board.pieces[c.index()][0], self.board.pieces[1 - c.index()][0], c, 64),
    {
        let masks = compute_passed_masks();
        let cx = c.to_index();
        let us = self.board.pieces[cx][0];
        let them = self.board.pieces[1 - cx][0];
        let mut count: i32 = 0;
        let mut s: u32 = 0;
        while s < 64
            invariant
                s <= 64,
                cx == c.index(),
                us == self.board.pieces[c.index()][0],
                them == self.board.pieces[1 - c.index()][0],
                forall|cc: int, q: int, t: int|
                    0 <= cc < 2 && 0 <= q < 64 ==> #[trigger] has_bit(masks[cc][q], t) == passed_zone(side_of_index(cc), q, t),
                count == passed_count(us, them, c, s as nat),
                0 <= count <= s,
            decreases 64 - s,
        {
            let m = masks[cx][s as usize];
            let blocked = them & m;
            proof {
                lemma_and(them, m);
                lemma_zero_iff(blocked);
                assert(side_of_index(cx as int) == c);
                if blocked == 0 {
                    assert forall|t: int| #[trigger] has_bit(them, t) implies !passed_zone(c, s as int, t) by {
                        if passed_zone(c, s as int, t) {
                            assert(has_bit(m, t));
                            assert(has_bit(blocked, t));
                        }
                    }
                } else {
                    let t = choose|t: int| 0 <= t < 64 && has_bit(blocked, t);
                    assert(has_bit(them, t) && passed_zone(c, s as int, t));
                }
            }
            if test_bit(us, s) && blocked == 0 {
                count = count + 1;
            }
            s = s + 1;
        }
        count
    }
}

} // verus!
