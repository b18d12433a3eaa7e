use vstd::prelude::*;
use vstd::std_specs::bits::{u64_trailing_zeros, axiom_u64_trailing_zeros};
use vstd::set_lib::set_int_range;

verus! {

/// A bitboard: bit `i` stands for square `i` (a1 = 0, h1 = 7, a8 = 56).
pub type BB = u64;

/// Whether bit `i` of `b` is set.
pub open spec fn has_bit(b: u64, i: int) -> bool {
    0 <= i < 64 && (b >> (i as u64)) & 1u64 == 1u64
}

/// The squares whose bits are set.
pub open spec fn bit_squares(b: u64) -> Set<int> {
    Set::new(|i: int| has_bit(b, i))
}

proof fn bv_or(x: u64, y: u64, i: u64)
    by (bit_vector)
    requires
        i < 64,
    ensures
        ((x | y) >> i) & 1u64 == 1u64 <==> ((x >> i) & 1u64 == 1u64 || (y >> i) & 1u64 == 1u64),
{
}

proof fn bv_and(x: u64, y: u64, i: u64)
    by (bit_vector)
    requires
        i < 64,
    ensures
        ((x & y) >> i) & 1u64 == 1u64 <==> ((x >> i) & 1u64 == 1u64 && (y >> i) & 1u64 == 1u64),
{
}

proof fn bv_not(x: u64, i: u64)
    by (bit_vector)
    requires
        i < 64,
    ensures
        ((!x) >> i) & 1u64 == 1u64 <==> !((x >> i) & 1u64 == 1u64),
{
}

proof fn bv_xor(x: u64, y: u64, i: u64)
    by (bit_vector)
    requires
        i < 64,
    ensures
        ((x ^ y) >> i) & 1u64 == 1u64 <==> ((x >> i) & 1u64 == 1u64) != ((y >> i) & 1u64 == 1u64),
{
}

proof fn bv_single(j: u64, i: u64)
    by (bit_vector)
    requires
        i < 64,
        j < 64,
    ensures
        ((1u64 << j) >> i) & 1u64 == 1u64 <==> i == j,
{
}

proof fn bv_low_mask(t: u64, i: u64)
    by (bit_vector)
    requires
        t < 64,
        i < 64,
    ensures
        ((((1u64 << t) - 1) as u64) >> i) & 1u64 == 1u64 <==> i < t,
{
}

proof fn bv_zero(i: u64)
    by (bit_vector)
    requires
        i < 64,
    ensures
        !((0u64 >> i) & 1u64 == 1u64),
{
}

proof fn bv_shl(x: u64, k: u64, i: u64)
    by (bit_vector)
    requires
        i < 64,
        k < 64,
    ensures
        ((x << k) >> i) & 1u64 == 1u64 <==> (i >= k && (x >> ((i - k) as u64)) & 1u64 == 1u64),
{
}

proof fn bv_shr(x: u64, k: u64, i: u64)
    by (bit_vector)
    requires
        i < 64,
        k < 64,
    ensures
        ((x >> k) >> i) & 1u64 == 1u64 <==> (i + k < 64 && (x >> ((i + k) as u64)) & 1u64 == 1u64),
{
}

proof fn bv_clear_lowest(x: u64, t: u64, i: u64)
    by (bit_vector)
    requires
        t < 64,
        i < 64,
        x != 0,
        (x >> t) & 1u64 == 1u64,
        x & (((1u64 << t) - 1) as u64) == 0,
    ensures
        ((x & ((x - 1) as u64)) >> i) & 1u64 == 1u64 <==> ((x >> i) & 1u64 == 1u64 && i != t),
{
}

/// Bitwise or is union of squares.
pub proof fn lemma_or(x: u64, y: u64)
    ensures
        forall|i: int| #[trigger] has_bit(x | y, i) == (has_bit(x, i) || has_bit(y, i)),
{
    assert forall|i: int| #[trigger] has_bit(x | y, i) == (has_bit(x, i) || has_bit(y, i)) by {
        if 0 <= i < 64 {
            bv_or(x, y, i as u64);
        }
    }
}

/// Bitwise and is intersection of squares.
pub proof fn lemma_and(x: u64, y: u64)
    ensures
        forall|i: int| #[trigger] has_bit(x & y, i) == (has_bit(x, i) && has_bit(y, i)),
{
    assert forall|i: int| #[trigger] has_bit(x & y, i) == (has_bit(x, i) && has_bit(y, i)) by {
        if 0 <= i < 64 {
            bv_and(x, y, i as u64);
        }
    }
}

/// Bitwise not is the complement of squares.
pub proof fn lemma_not(x: u64)
    ensures
        forall|i: int| 0 <= i < 64 ==> #[trigger] has_bit(!x, i) == !has_bit(x, i),
{
    assert forall|i: int| 0 <= i < 64 implies #[trigger] has_bit(!x, i) == !has_bit(x, i) by {
        bv_not(x, i as u64);
    }
}

/// Bitwise xor is symmetric difference of squares.
pub proof fn lemma_xor(x: u64, y: u64)
    ensures
        forall|i: int| #[trigger] has_bit(x ^ y, i) == (has_bit(x, i) != has_bit(y, i)),
{
    assert forall|i: int| #[trigger] has_bit(x ^ y, i) == (has_bit(x, i) != has_bit(y, i)) by {
        if 0 <= i < 64 {
            bv_xor(x, y, i as u64);
        }
    }
}

/// The single-bit board of square `j` holds exactly `j`.
pub proof fn lemma_single(j: u64)
    requires
        j < 64,
    ensures
        forall|i: int| #[trigger] has_bit(1u64 << j, i) == (i == j),
{
    assert forall|i: int| #[trigger] has_bit(1u64 << j, i) == (i == j) by {
        if 0 <= i < 64 {
            bv_single(j, i as u64);
        }
    }
}

/// The empty board holds no square.
pub proof fn lemma_zero()
    ensures
        forall|i: int| !#[trigger] has_bit(0u64, i),
{
    assert forall|i: int| !#[trigger] has_bit(0u64, i) by {
        if 0 <= i < 64 {
            bv_zero(i as u64);
        }
    }
}

/// Shifting left by `k` moves every square up by `k`.
pub proof fn lemma_shl(x: u64, k: u64)
    requires
        k < 64,
    ensures
        forall|i: int| #[trigger] has_bit(x << k, i) == (0 <= i < 64 && i >= k && has_bit(x, i - k)),
{
    assert forall|i: int| #[trigger] has_bit(x << k, i) == (0 <= i < 64 && i >= k && has_bit(
        x,
        i - k,
    )) by {
        if 0 <= i < 64 {
            bv_shl(x, k, i as u64);
        }
    }
}

/// Shifting right by `k` moves every square down by `k`.
pub proof fn lemma_shr(x: u64, k: u64)
    requires
        k < 64,
    ensures
        forall|i: int| #[trigger] has_bit(x >> k, i) == (0 <= i < 64 && has_bit(x, i + k)),
{
    assert forall|i: int| #[trigger] has_bit(x >> k, i) == (0 <= i < 64 && has_bit(x, i + k)) by {
        if 0 <= i < 64 {
            bv_shr(x, k, i as u64);
        }
    }
}

/// Two boards with the same squares are equal.
pub proof fn lemma_ext(x: u64, y: u64)
    requires
        forall|i: int| 0 <= i < 64 ==> #[trigger] has_bit(x, i) == has_bit(y, i),
    ensures
        x == y,
{
    let z = x ^ y;
    lemma_xor(x, y);
    if z != 0 {
        axiom_u64_trailing_zeros(z);
        let t = u64_trailing_zeros(z) as int;
        assert(has_bit(z, t));
        assert(has_bit(x, t) == has_bit(y, t));
    }
    assert(x ^ y == 0u64 ==> x == y) by (bit_vector);
}

/// A board is empty exactly when it holds no square.
pub proof fn lemma_zero_iff(x: u64)
    ensures
        (x == 0) <==> (forall|i: int| 0 <= i < 64 ==> !#[trigger] has_bit(x, i)),
{
    lemma_zero();
    if forall|i: int| 0 <= i < 64 ==> !#[trigger] has_bit(x, i) {
        lemma_ext(x, 0);
    }
}

/// The board holds only squares of `0..64`, finitely many.
pub proof fn lemma_bit_squares_finite(x: u64)
    ensures
        bit_squares(x).finite(),
        bit_squares(x).subset_of(set_int_range(0, 64)),
        bit_squares(x).len() <= 64,
{
    assert(bit_squares(x).subset_of(set_int_range(0, 64)));
    vstd::set_lib::lemma_int_range(0, 64);
    vstd::set_lib::lemma_len_subset(bit_squares(x), set_int_range(0, 64));
}

/// The single-bit board of `sq`.
pub fn bit(sq: u32) -> (r: BB)
    requires
        sq < 64,
    ensures
        forall|i: int| #[trigger] has_bit(r, i) == (i == sq),
{
    proof {
        lemma_single(sq as u64);
    }
    1u64 << sq
}

/// Whether square `s` is set on a board.
pub fn test_bit(x: BB, s: u32) -> (r: bool)
    requires
        s < 64,
    ensures
        r == has_bit(x, s as int),
{
    let b = bit(s);
    proof {
        lemma_and(x, b);
        lemma_zero_iff(x & b);
        assert(has_bit(x & b, s as int) == has_bit(x, s as int));
        if !has_bit(x, s as int) {
            assert forall|i: int| 0 <= i < 64 implies !#[trigger] has_bit(x & b, i) by {}
        }
    }
    x & b != 0
}

/// The lowest square of a non-empty board.
pub open spec fn lowest(b: u64) -> int {
    u64_trailing_zeros(b) as int
}

/// Facts about the lowest square of a board.
pub proof fn lemma_lowest(b: u64)
    ensures
        b != 0 ==> 0 <= lowest(b) < 64 && has_bit(b, lowest(b)),
        b != 0 ==> forall|j: int| 0 <= j < lowest(b) ==> !#[trigger] has_bit(b, j),
        b == 0 ==> lowest(b) == 64,
{
    axiom_u64_trailing_zeros(b);
    if b != 0 {
        assert forall|j: int| 0 <= j < lowest(b) implies !#[trigger] has_bit(b, j) by {
            assert((b >> (j as u64)) & 1u64 == 0u64);
        }
    }
}

/// Removes the lowest square of a non-empty board and returns it.
pub fn pop_lsb(bb: &mut BB) -> (sq: u32)
    requires
        *old(bb) != 0,
    ensures
        sq == lowest(*old(bb)),
        sq < 64,
        has_bit(*old(bb), sq as int),
        forall|j: int| 0 <= j < sq ==> !#[trigger] has_bit(*old(bb), j),
        forall|i: int| #[trigger] has_bit(*final(bb), i) == (has_bit(*old(bb), i) && i != sq),
        bit_squares(*final(bb)) == bit_squares(*old(bb)).remove(sq as int),
{
    let x = *bb;
    let s = x.trailing_zeros();
    proof {
        lemma_lowest(x);
        axiom_u64_trailing_zeros(x);
    }
    *bb = x & (x - 1);
    proof {
        let m = ((1u64 << s) - 1) as u64;
        assert forall|i: int| 0 <= i < 64 implies !#[trigger] has_bit(x & m, i) by {
            bv_low_mask(s as u64, i as u64);
            bv_and(x, m, i as u64);
        }
        lemma_zero_iff(x & m);
        assert forall|i: int| #[trigger] has_bit(*bb, i) == (has_bit(x, i) && i != s) by {
            if 0 <= i < 64 {
                bv_clear_lowest(x, s as u64, i as u64);
            }
        }
        assert(bit_squares(*bb) =~= bit_squares(x).remove(s as int));
    }
    s
}

/// The number of squares on a board.
pub open spec fn bit_count(b: u64) -> nat {
    bit_squares(b).len()
}

/// Counts the squares of a board.
pub fn count_bits(b: BB) -> (n: u32)
    ensures
        n == bit_count(b),
        n <= 64,
{
    let mut rest = b;
    let mut n: u32 = 0;
    proof {
        lemma_bit_squares_finite(b);
    }
    while rest != 0
        invariant
            bit_squares(rest).subset_of(bit_squares(b)),
            n + bit_count(rest) == bit_count(b),
            bit_count(b) <= 64,
        decreases bit_count(rest),
    {
        let ghost before = rest;
        proof {
            lemma_bit_squares_finite(before);
        }
        let s = pop_lsb(&mut rest);
        proof {
            assert(bit_squares(before).contains(s as int));
        }
        n = n + 1;
    }
    proof {
        lemma_zero();
        assert(bit_squares(rest) =~= Set::empty());
    }
    n
}

/// `bb` shifted up by a positive `n`, down by a negative one.
pub open spec fn shift_spec(bb: u64, n: int) -> u64 {
    if n > 0 {
        bb << (n as u64)
    } else {
        bb >> ((-n) as u64)
    }
}

/// Shifts up by a positive amount, down by a negative one.
pub fn shift(bb: BB, n: i32) -> (r: BB)
    requires
        -64 < n < 64,
    ensures
        r == shift_spec(bb, n as int),
        n >= 0 ==> forall|i: int| #[trigger] has_bit(r, i) == (0 <= i < 64 && has_bit(bb, i - n)),
        n < 0 ==> forall|i: int| #[trigger] has_bit(r, i) == (0 <= i < 64 && has_bit(bb, i - n)),
{
    if n > 0 {
        proof {
            lemma_shl(bb, n as u64);
        }
        bb << n
    } else {
        proof {
            lemma_shr(bb, (-n) as u64);
        }
        bb >> (-n)
    }
}

} // verus!
