use vstd::prelude::*;
use crate::types::{Square, Color};

verus! {

/// Multiplication modulo 2^64.
pub open spec fn mul_wrap(a: u64, b: u64) -> u64 {
    ((a as nat * b as nat) % 0x1_0000_0000_0000_0000nat) as u64
}

/// The SplitMix64 sequence: the `n`-th output for seed zero.
pub open spec fn splitmix(n: u64) -> u64 {
    let z0 = mul_wrap((n as nat + 1) as u64, 0x9E37_79B9_7F4A_7C15u64);
    let z1 = mul_wrap(z0 ^ (z0 >> 30u64), 0xBF58_476D_1CE4_E5B9u64);
    let z2 = mul_wrap(z1 ^ (z1 >> 27u64), 0x94D0_49BB_1331_11EBu64);
    z2 ^ (z2 >> 31u64)
}

/// The key of a piece code on square `i` (64 squares, 16 codes each).
pub open spec fn piece_key(i: int, code: int) -> u64 {
    splitmix((i * 16 + code) as u64)
}

/// The key of black to move.
pub open spec fn side_key() -> u64 {
    splitmix(1024)
}

/// The key of a castling right of side `c` (`side` 0 queenside, 1 kingside).
pub open spec fn castle_key(c: int, side: int) -> u64 {
    splitmix((1025 + c * 2 + side) as u64)
}

/// The key of an en passant file, by the side that made the double push.
pub open spec fn enpass_key(c: int, file: int) -> u64 {
    splitmix((1029 + c * 8 + file) as u64)
}

/// The `n`-th Zobrist key.
pub fn zobrist(n: u64) -> (r: u64)
    requires
        n < 1045,
    ensures
        r == splitmix(n),
{
    let z0 = (n + 1).wrapping_mul(0x9E37_79B9_7F4A_7C15u64);
    let z1 = (z0 ^ (z0 >> 30)).wrapping_mul(0xBF58_476D_1CE4_E5B9u64);
    let z2 = (z1 ^ (z1 >> 27)).wrapping_mul(0x94D0_49BB_1331_11EBu64);
    z2 ^ (z2 >> 31)
}

/// The key of piece square code `code` at board position (x, y).
pub fn zobrist_table(y: usize, x: usize, code: usize) -> (r: u64)
    requires
        y < 8,
        x < 8,
        code < 16,
    ensures
        r == piece_key(y * 8 + x, code as int),
{
    zobrist(((y * 8 + x) * 16 + code) as u64)
}

/// The key of black to move.
pub fn zobrist_side_to_move() -> (r: u64)
    ensures
        r == side_key(),
{
    zobrist(1024)
}

/// The key of castling right `side` of side `c`.
pub fn zobrist_castling(c: usize, side: usize) -> (r: u64)
    requires
        c < 2,
        side < 2,
    ensures
        r == castle_key(c as int, side as int),
{
    zobrist((1025 + c * 2 + side) as u64)
}

/// The key of en passant file `file` for side `c`.
pub fn zobrist_enpass(c: usize, file: usize) -> (r: u64)
    requires
        c < 2,
        file < 8,
    ensures
        r == enpass_key(c as int, file as int),
{
    zobrist((1029 + c * 8 + file) as u64)
}

/// The key a square contributes: nothing when empty.
pub open spec fn square_term(board: Seq<Square>, i: int) -> u64 {
    if board[i] == Square::blank() {
        0
    } else {
        piece_key(i, board[i].0 as int)
    }
}

/// The xor of the keys of the first `n` squares.
pub open spec fn squares_hash(board: Seq<Square>, n: nat) -> u64
    decreases n,
{
    if n == 0 {
        0
    } else {
        squares_hash(board, (n - 1) as nat) ^ square_term(board, n - 1)
    }
}

/// The keys of the castling rights.
pub open spec fn castling_hash(rights: [(bool, bool); 2]) -> u64 {
    (if rights[0].0 { castle_key(0, 0) } else { 0 }) ^ (if rights[0].1 {
        castle_key(0, 1)
    } else {
        0
    }) ^ (if rights[1].0 { castle_key(1, 0) } else { 0 }) ^ (if rights[1].1 {
        castle_key(1, 1)
    } else {
        0
    })
}

/// The Zobrist hash of a whole position.
pub open spec fn full_hash(
    board: Seq<Square>,
    to_move: Color,
    rights: [(bool, bool); 2],
    enpass: Option<(usize, usize)>,
) -> u64 {
    squares_hash(board, 64) ^ (if to_move == Color::Black { side_key() } else { 0 }) ^ castling_hash(
        rights,
    ) ^ (match enpass {
        Some(p) => enpass_key(to_move.opposite().index(), p.0 as int),
        None => 0,
    })
}

/// Xor is associative and commutative, with zero as unit, and self-inverse.
pub proof fn lemma_xor_algebra(a: u64, b: u64, c: u64)
    by (bit_vector)
    ensures
        (a ^ b) ^ c == a ^ (b ^ c),
        a ^ b == b ^ a,
        a ^ 0 == a,
        a ^ a == 0,
{
}

/// Changing one square changes the square hash by the old and the new keys.
pub proof fn lemma_squares_hash_update(board: Seq<Square>, j: int, v: Square, n: nat)
    requires
        0 <= j < board.len(),
        n <= board.len(),
    ensures
        squares_hash(board.update(j, v), n) == (if j < n {
            squares_hash(board, n) ^ square_term(board, j) ^ square_term(board.update(j, v), j)
        } else {
            squares_hash(board, n)
        }),
    decreases n,
{
    let nb = board.update(j, v);
    if n > 0 {
        lemma_squares_hash_update(board, j, v, (n - 1) as nat);
        let h = squares_hash(board, (n - 1) as nat);
        let a = square_term(board, j);
        let b = square_term(nb, j);
        let t = square_term(board, n - 1);
        if j < n - 1 {
            assert(square_term(nb, n - 1) == t);
            lemma_xor_algebra(h, a, b);
            lemma_xor_algebra(h ^ a, b, t);
            lemma_xor_algebra(h, a ^ b, t);
            lemma_xor_algebra(a ^ b, t, 0);
            lemma_xor_algebra(h, t, a ^ b);
            lemma_xor_algebra(h ^ t, a, b);
        } else if j == n - 1 {
            lemma_xor_algebra(h, a, a);
            lemma_xor_algebra(a, a, 0);
            lemma_xor_algebra(h, 0, 0);
            lemma_xor_algebra(h ^ a, a, b);
            lemma_xor_algebra(h, a, a ^ b);
            lemma_xor_algebra(a, a, b);
            lemma_xor_algebra(0, b, 0);
            lemma_xor_algebra(b, 0, 0);
        }
    }
}


/// The key of black to move is not zero, and it differs from the change
/// between the two sides' keys of each en passant file.
proof fn lemma_side_key_values()
    by (bit_vector)
    ensures
        splitmix(1024) != 0,
        splitmix(1024) != splitmix(1029) ^ splitmix(1037),
        splitmix(1024) != splitmix(1030) ^ splitmix(1038),
        splitmix(1024) != splitmix(1031) ^ splitmix(1039),
        splitmix(1024) != splitmix(1032) ^ splitmix(1040),
        splitmix(1024) != splitmix(1033) ^ splitmix(1041),
        splitmix(1024) != splitmix(1034) ^ splitmix(1042),
        splitmix(1024) != splitmix(1035) ^ splitmix(1043),
        splitmix(1024) != splitmix(1036) ^ splitmix(1044),
{
}

/// Two hashes that agree but for one key on one side and a pair of keys on
/// the other: the one key is the xor of the pair.
proof fn lemma_xor_cancel(s: u64, k: u64, c: u64, a: u64, b: u64)
    by (bit_vector)
    requires
        ((s ^ 0) ^ c) ^ a == ((s ^ k) ^ c) ^ b,
    ensures
        k == a ^ b,
{
}

/// The key of black to move is not zero.
pub proof fn law_side_key_nonzero()
    ensures
        side_key() != 0,
{
    lemma_side_key_values();
}

/// The hash of a position changes with the side to move: two positions
/// that differ in nothing else, an en passant file (on the board) included,
/// have different hashes.
pub proof fn law_full_hash_separates_side(
    board: Seq<Square>,
    rights: [(bool, bool); 2],
    enpass: Option<(usize, usize)>,
)
    requires
        enpass matches Some(p) ==> p.0 < 8,
    ensures
        full_hash(board, Color::White, rights, enpass) != full_hash(board, Color::Black, rights, enpass),
{
    lemma_side_key_values();
    let s = squares_hash(board, 64);
    let c = castling_hash(rights);
    let (a, b): (u64, u64) = match enpass {
        Some(p) => (enpass_key(1, p.0 as int), enpass_key(0, p.0 as int)),
        None => (0, 0),
    };
    if full_hash(board, Color::White, rights, enpass) == full_hash(board, Color::Black, rights, enpass) {
        lemma_xor_cancel(s, side_key(), c, a, b);
        match enpass {
            Some(p) => {
                let f = p.0 as int;
                assert(a == splitmix((1037 + f) as u64) && b == splitmix((1029 + f) as u64));
                if f == 0 {
                } else if f == 1 {
                } else if f == 2 {
                } else if f == 3 {
                } else if f == 4 {
                } else if f == 5 {
                } else if f == 6 {
                } else {
                    assert(f == 7);
                }
                lemma_xor_algebra(a, b, 0);
                assert(false);
            },
            None => {
                lemma_xor_algebra(0, 0, 0);
                assert(false);
            },
        }
    }
}

} // verus!
