use vstd::prelude::*;
use crate::bits::{bit_count, count_bits};
use crate::board::{BitBoards, Board, board_seq, kind_of_index, side_of_index, lemma_view_bits, lemma_view_determines};
use crate::types::{Color, PieceTy, Square, Pos, Move, sq, on_board, pos_index, lemma_square_of, lemma_square_decode};
use crate::zobrist::{
    full_hash, squares_hash, square_term, castling_hash, piece_key, side_key, castle_key, enpass_key,
    zobrist_table, zobrist_side_to_move, zobrist_castling, zobrist_enpass, lemma_xor_algebra,
    lemma_squares_hash_update, law_full_hash_separates_side,
};

verus! {

/// The hashes of the positions seen before the current one, oldest first.
#[derive(Debug, Clone, Copy)]
pub struct PrevPos {
    pub previous_positions: [u64; 256],
    pub prev_pos_idx: usize,
}

impl PrevPos {
    pub open spec fn wf(&self) -> bool {
        self.prev_pos_idx <= 256
    }

    pub open spec fn view(&self) -> Seq<u64> {
        self.previous_positions@.take(self.prev_pos_idx as int)
    }

    pub fn new() -> (r: PrevPos)
        ensures
            r.wf(),
            r@ == Seq::<u64>::empty(),
            r.prev_pos_idx == 0,
            forall|i: int| 0 <= i < 256 ==> #[trigger] r.previous_positions[i] == 0,
    {
        let r = PrevPos { previous_positions: [0u64; 256], prev_pos_idx: 0 };
        assert(r@ =~= Seq::<u64>::empty());
        r
    }

    /// Forgets the most recent hash.
    pub fn undo(&mut self)
        requires
            old(self).wf(),
            old(self).prev_pos_idx > 0,
        ensures
            final(self).wf(),
            final(self)@ == old(self)@.drop_last(),
            final(self).prev_pos_idx == old(self).prev_pos_idx - 1,
    {
        self.prev_pos_idx = self.prev_pos_idx - 1;
        assert(self@ =~= old(self)@.drop_last());
    }

    /// Records a hash.
    pub fn push(&mut self, h: u64)
        requires
            old(self).wf(),
            old(self).prev_pos_idx < 256,
        ensures
            final(self).wf(),
            final(self)@ == old(self)@.push(h),
            final(self).prev_pos_idx == old(self).prev_pos_idx + 1,
    {
        let i = self.prev_pos_idx;
        self.previous_positions[i] = h;
        self.prev_pos_idx = i + 1;
        assert(self@ =~= old(self)@.push(h));
    }
}

/// The length of the compared prefix of two histories.
pub open spec fn kept_len(idx: usize) -> int {
    if idx <= 256 { idx as int } else { 256 }
}

impl PartialEq for PrevPos {
    fn eq(&self, other: &PrevPos) -> (r: bool) {
        if self.prev_pos_idx != other.prev_pos_idx {
            return false;
        }
        let n = if self.prev_pos_idx <= 256 {
            self.prev_pos_idx
        } else {
            256
        };
        let mut i: usize = 0;
        while i < n
            invariant
                n == kept_len(self.prev_pos_idx),
                self.prev_pos_idx == other.prev_pos_idx,
                i <= n,
                forall|j: int| 0 <= j < i ==> self.previous_positions[j] == other.previous_positions[j],
            decreases n - i,
        {
            if self.previous_positions[i] != other.previous_positions[i] {
                return false;
            }
            i = i + 1;
        }
        true
    }
}

impl vstd::std_specs::cmp::PartialEqSpecImpl for PrevPos {
    open spec fn obeys_eq_spec() -> bool {
        true
    }

    open spec fn eq_spec(&self, other: &PrevPos) -> bool {
        self.prev_pos_idx == other.prev_pos_idx && forall|j: int|
            0 <= j < kept_len(self.prev_pos_idx) ==> self.previous_positions[j] == other.previous_positions[j]
    }
}

impl Default for PrevPos {
    fn default() -> (r: Self)
        ensures
            r.wf(),
            r@ == Seq::<u64>::empty(),
    {
        Self::new()
    }
}

/// What is needed to take a move back.
#[derive(Debug, Clone, Copy)]
pub struct Undo {
    pub moving: Square,
    pub capture: Option<(Square, Pos)>,
    pub castleable: [(bool, bool); 2],
    pub en_pass: Option<Pos>,
    pub hash: u64,
    pub m: Move,
}

/// A position with its history.
#[derive(Debug, Clone)]
pub struct Game {
    pub board: BitBoards,
    pub to_move: Color,
    pub castleable: [(bool, bool); 2],
    pub enpass: Option<Pos>,
    pub full_move_clock: u32,
    pub hash: u64,
    pub prev_pos: PrevPos,
    pub moves: Vec<Undo>,
}

pub open spec fn abs_diff(a: usize, b: usize) -> int {
    if a >= b { a - b } else { b - a }
}

/// The number of times `h` occurs in `s`.
pub open spec fn count_of(s: Seq<u64>, h: u64) -> nat
    decreases s.len(),
{
    if s.len() == 0 {
        0
    } else {
        count_of(s.drop_last(), h) + (if s.last() == h { 1nat } else { 0nat })
    }
}

pub fn pos_eq(a: Pos, b: Pos) -> (r: bool)
    ensures
        r == (a == b),
{
    a.0 == b.0 && a.1 == b.1
}

pub fn opt_pos_eq(a: Option<Pos>, b: Option<Pos>) -> (r: bool)
    ensures
        r == (a == b),
{
    match (a, b) {
        (None, None) => true,
        (Some(x), Some(y)) => pos_eq(x, y),
        _ => false,
    }
}

pub fn usize_abs_diff(a: usize, b: usize) -> (r: usize)
    ensures
        r == abs_diff(a, b),
{
    if a >= b {
        a - b
    } else {
        b - a
    }
}

/// The hash of an array board and the rest of a position.
pub fn gen_full_hash(
    board: &Board,
    to_move: Color,
    castleable: [(bool, bool); 2],
    enpass: Option<Pos>,
) -> (h: u64)
    requires
        forall|k: int| 0 <= k < 64 ==> (#[trigger] board_seq(*board)[k]).is_valid(),
        enpass matches Some(e) ==> e.0 < 8,
    ensures
        h == full_hash(board_seq(*board), to_move, castleable, enpass),
{
    let ghost bs = board_seq(*board);
    let mut h = 0u64;
    let mut y: usize = 0;
    while y < 8
        invariant
            y <= 8,
            bs == board_seq(*board),
            forall|k: int| 0 <= k < 64 ==> (#[trigger] bs[k]).is_valid(),
            h == squares_hash(bs, (y * 8) as nat),
        decreases 8 - y,
    {
        let mut x: usize = 0;
        while x < 8
            invariant
                y < 8,
                x <= 8,
                bs == board_seq(*board),
                forall|k: int| 0 <= k < 64 ==> (#[trigger] bs[k]).is_valid(),
                h == squares_hash(bs, (y * 8 + x) as nat),
            decreases 8 - x,
        {
            let piece = board[y][x];
            assert(piece == bs[(y * 8 + x) as int]);
            if !piece.is_empty() {
                h = h ^ zobrist_table(y, x, piece.to_usize());
            } else {
                proof {
                    lemma_xor_algebra(h, 0, 0);
                }
            }
            x = x + 1;
        }
        y = y + 1;
    }
    let sq_part = h;
    if to_move == Color::Black {
        h = h ^ zobrist_side_to_move();
    } else {
        proof {
            lemma_xor_algebra(h, 0, 0);
        }
    }
    let side_part = h;
    proof {
        lemma_xor_algebra(side_part, 0, 0);
    }
    let mut color: usize = 0;
    while color < 2
        invariant
            color <= 2,
            h == side_part ^ (if color == 0 {
                0u64
            } else if color == 1 {
                castle_pair(castleable, 0)
            } else {
                castling_hash(castleable)
            }),
        decreases 2 - color,
    {
        let ghost before = h;
        if castleable[color].0 {
            h = h ^ zobrist_castling(color, 0);
        }
        if castleable[color].1 {
            h = h ^ zobrist_castling(color, 1);
        }
        proof {
            let a = if castleable[color as int].0 { castle_key(color as int, 0) } else { 0 };
            let b = if castleable[color as int].1 { castle_key(color as int, 1) } else { 0 };
            lemma_xor_algebra(before, 0, 0);
            lemma_xor_algebra(h, 0, 0);
            assert(h == (before ^ a) ^ b);
            if color == 0 {
                lemma_xor_algebra(side_part, 0, 0);
                lemma_xor_algebra(side_part, a, b);
                lemma_xor_algebra(0, 0, 0);
                lemma_xor_algebra(a, 0, 0);
                lemma_xor_algebra(0, a, 0);
            } else {
                let p0 = castle_pair(castleable, 0);
                lemma_xor_algebra(side_part, p0, a);
                lemma_xor_algebra(side_part ^ p0, a, b);
                lemma_xor_algebra(side_part, p0 ^ a, b);
                lemma_xor_algebra(p0, a, b);
            }
        }
        color = color + 1;
    }
    let ghost castle_part = h;
    match enpass {
        Some((file, _)) => {
            h = h ^ zobrist_enpass(to_move.other().to_index(), file);
        },
        None => {
            proof {
                lemma_xor_algebra(h, 0, 0);
            }
        },
    }
    h
}

/// The keys of side `c`'s two castling rights.
pub open spec fn castle_pair(rights: [(bool, bool); 2], c: int) -> u64 {
    (if rights[c].0 { castle_key(c, 0) } else { 0 }) ^ (if rights[c].1 { castle_key(c, 1) } else { 0 })
}


/// Changing one part of a position hash by `d` changes the hash by `d`,
/// and a change applied to both a hash and the position cancels out.
pub proof fn lemma_xor_parts(h: u64, q: u64, s: u64, k: u64, e: u64, d: u64)
    by (bit_vector)
    ensures
        ((((q ^ d) ^ s) ^ k) ^ e) == ((((q ^ s) ^ k) ^ e) ^ d),
        (((q ^ (s ^ d)) ^ k) ^ e) == ((((q ^ s) ^ k) ^ e) ^ d),
        (h ^ d) ^ (((q ^ s) ^ k) ^ e) == h ^ ((((q ^ s) ^ k) ^ e) ^ d),
        ((((q ^ s) ^ (k ^ d)) ^ e)) == ((((q ^ s) ^ k) ^ e) ^ d),
        ((((q ^ s) ^ k) ^ (e ^ d))) == ((((q ^ s) ^ k) ^ e) ^ d),
        (h ^ d) ^ ((((q ^ s) ^ k) ^ e) ^ d) == h ^ (((q ^ s) ^ k) ^ e),
        (q ^ d) ^ 0 == q ^ d,
        (q ^ 0) ^ d == q ^ d,
        q ^ 0 == q,
{
}

/// Clearing or setting one castling right changes the castling keys by that right's key.
pub proof fn lemma_xor4(a: u64, b: u64, c: u64, d: u64, x: u64)
    by (bit_vector)
    ensures
        (((a ^ x) ^ b) ^ c) ^ d == ((((a ^ b) ^ c) ^ d) ^ x),
        (((a ^ (b ^ x)) ^ c) ^ d) == ((((a ^ b) ^ c) ^ d) ^ x),
        (((a ^ b) ^ (c ^ x)) ^ d) == ((((a ^ b) ^ c) ^ d) ^ x),
        (((a ^ b) ^ c) ^ (d ^ x)) == ((((a ^ b) ^ c) ^ d) ^ x),
        0u64 ^ x == x,
        x ^ x == 0u64,
{
}

/// Clearing castling right (c, side) changes the castling keys by its key.
pub proof fn lemma_castling_clear(r: [(bool, bool); 2], r2: [(bool, bool); 2], c: int, side: int)
    requires
        0 <= c < 2,
        0 <= side < 2,
        side == 0 ==> r[c].0 && !r2[c].0 && r2[c].1 == r[c].1,
        side == 1 ==> r[c].1 && !r2[c].1 && r2[c].0 == r[c].0,
        r2[1 - c] == r[1 - c],
    ensures
        castling_hash(r2) == castling_hash(r) ^ castle_key(c, side),
{
    let x = castle_key(c, side);
    let a = if r2[0].0 { castle_key(0, 0) } else { 0 };
    let b = if r2[0].1 { castle_key(0, 1) } else { 0 };
    let cc = if r2[1].0 { castle_key(1, 0) } else { 0 };
    let d = if r2[1].1 { castle_key(1, 1) } else { 0 };
    lemma_xor4(a, b, cc, d, x);
    lemma_xor4(0, 0, 0, 0, x);
    let h2 = castling_hash(r2);
    lemma_xor_algebra(h2, x, x);
    lemma_xor_algebra(h2, 0, 0);
    lemma_xor_algebra(x, x, 0);
}

impl Game {
    pub open spec fn wf(&self) -> bool {
        &&& self.board.wf()
        &&& self.prev_pos.wf()
        &&& self.prev_pos@.len() == self.moves@.len()
        &&& (self.enpass matches Some(e) ==> e.0 < 8 && e.1 < 8)
    }

    /// What stands on a position.
    pub open spec fn at(&self, p: Pos) -> Square {
        self.board@[pos_index(p)]
    }

    /// The hash of the position as a whole.
    pub open spec fn full(&self) -> u64 {
        full_hash(self.board@, self.to_move, self.castleable, self.enpass)
    }

    pub open spec fn moving(&self, m: Move) -> Square {
        self.at(m.from)
    }

    pub open spec fn is_ep_capture(&self, m: Move) -> bool {
        self.moving(m).kind() == PieceTy::Pawn && self.enpass == Some(m.to)
    }

    pub open spec fn is_castling(&self, m: Move) -> bool {
        self.moving(m).kind() == PieceTy::King && abs_diff(m.from.0, m.to.0) == 2
    }

    /// The captured pawn of an en passant capture.
    pub open spec fn ep_victim(m: Move) -> Pos {
        (m.to.0, m.from.1)
    }

    pub open spec fn rook_from(m: Move) -> Pos {
        (if m.to.0 < m.from.0 { 0usize } else { 7usize }, m.from.1)
    }

    pub open spec fn rook_to(m: Move) -> Pos {
        (if m.to.0 < m.from.0 { 3usize } else { 5usize }, m.from.1)
    }

    /// What a move captures, and where.
    pub open spec fn captured(&self, m: Move) -> Option<(Square, Pos)> {
        if self.is_ep_capture(m) {
            Some((self.at(Game::ep_victim(m)), Game::ep_victim(m)))
        } else if self.at(m.to) != Square::blank() {
            Some((self.at(m.to), m.to))
        } else {
            None
        }
    }

    /// What stands on the destination after a move.
    pub open spec fn landing(&self, m: Move) -> Square {
        match m.promotion {
            Some(p) => Square::of(p, self.moving(m).side()),
            None => self.moving(m),
        }
    }

    /// A move that the board can carry out consistently: a piece of the side
    /// to move goes to a different square that is empty or holds an enemy
    /// piece other than the king; en passant takes an enemy pawn, and
    /// castling finds its own rook and a free square for it.
    pub open spec fn move_ok(&self, m: Move) -> bool {
        &&& on_board(m.from)
        &&& on_board(m.to)
        &&& m.from != m.to
        &&& self.moving(m) != Square::blank()
        &&& self.moving(m).side() == self.to_move
        &&& (self.at(m.to) == Square::blank() || (self.at(m.to).side() != self.to_move && self.at(
            m.to,
        ).kind() != PieceTy::King))
        &&& (self.is_ep_capture(m) ==> {
            &&& self.at(m.to) == Square::blank()
            &&& Game::ep_victim(m) != m.from
            &&& self.at(Game::ep_victim(m)) == Square::of(PieceTy::Pawn, self.to_move.opposite())
        })
        &&& (self.is_castling(m) ==> {
            &&& self.at(Game::rook_from(m)) == Square::of(PieceTy::Rook, self.to_move)
            &&& self.at(Game::rook_to(m)) == Square::blank()
            &&& Game::rook_from(m) != m.from
            &&& Game::rook_from(m) != m.to
            &&& Game::rook_to(m) != m.from
            &&& Game::rook_to(m) != m.to
        })
    }

    /// The squares after a move.
    pub open spec fn board_after(&self, m: Move) -> Seq<Square> {
        let b0 = self.board@;
        let b1 = if self.is_ep_capture(m) {
            b0.update(pos_index(Game::ep_victim(m)), Square::blank())
        } else {
            b0
        };
        let b2 = if self.is_castling(m) {
            b1.update(pos_index(Game::rook_from(m)), Square::blank()).update(
                pos_index(Game::rook_to(m)),
                Square::of(PieceTy::Rook, self.moving(m).side()),
            )
        } else {
            b1
        };
        b2.update(pos_index(m.from), Square::blank()).update(pos_index(m.to), self.landing(m))
    }

    /// Side `ci`'s castling rights after a move.
    pub open spec fn rights_after(&self, m: Move, ci: int) -> (bool, bool) {
        let mover = self.moving(m);
        let c = mover.side().index();
        let r0 = self.castleable[ci];
        let r1 = if ci == c && mover.kind() == PieceTy::King {
            (false, false)
        } else {
            r0
        };
        let r2 = if ci == c && mover.kind() == PieceTy::Rook && m.from.1 == mover.side().back_rank() {
            if m.from.0 == 0 {
                (false, r1.1)
            } else if m.from.0 == 7 {
                (r1.0, false)
            } else {
                r1
            }
        } else {
            r1
        };
        let target = self.at(m.to);
        if ci == 1 - c && !self.is_ep_capture(m) && target != Square::blank() && target.kind()
            == PieceTy::Rook && m.to.1 == target.side().back_rank() {
            if m.to.0 == 0 {
                (false, r2.1)
            } else if m.to.0 == 7 {
                (r2.0, false)
            } else {
                r2
            }
        } else {
            r2
        }
    }

    /// The en passant square after a move.
    pub open spec fn enpass_after(&self, m: Move) -> Option<Pos> {
        if self.moving(m).kind() == PieceTy::Pawn && abs_diff(m.from.1, m.to.1) == 2 {
            Some((m.to.0, ((m.from.1 + m.to.1) / 2) as usize))
        } else {
            None
        }
    }

    /// The record that lets a move be taken back.
    pub open spec fn undo_record(&self, m: Move) -> Undo {
        Undo {
            moving: self.moving(m),
            capture: self.captured(m),
            castleable: self.castleable,
            en_pass: self.enpass,
            hash: self.hash,
            m,
        }
    }

    /// `g1` is `g` after move `m`.
    pub open spec fn moved(g: Game, m: Move, g1: Game) -> bool {
        &&& g1.wf()
        &&& g1.board@ == g.board_after(m)
        &&& g1.to_move == g.to_move.opposite()
        &&& g1.castleable[0] == g.rights_after(m, 0)
        &&& g1.castleable[1] == g.rights_after(m, 1)
        &&& g1.enpass == g.enpass_after(m)
        &&& g1.prev_pos@ == g.prev_pos@.push(g.hash)
        &&& g1.moves@ == g.moves@.push(g.undo_record(m))
        &&& g1.full_move_clock == g.full_move_clock
        &&& g1.hash ^ g1.full() == g.hash ^ g.full()
    }

    /// Takes side `c`'s piece of kind number `t` off square `s`, keeping the
    /// hash in step.
    fn clear_square(&mut self, s: u32, c: usize, t: usize)
        requires
            old(self).board.wf(),
            s < 64,
            c < 2,
            t < 6,
            old(self).board.at(c as int, t as int, s as int),
        ensures
            final(self).board.wf(),
            final(self).board@ == old(self).board@.update(s as int, Square::blank()),
            final(self).hash ^ final(self).full() == old(self).hash ^ old(self).full(),
            final(self).to_move == old(self).to_move,
            final(self).castleable == old(self).castleable,
            final(self).enpass == old(self).enpass,
            final(self).prev_pos == old(self).prev_pos,
            final(self).moves == old(self).moves,
            final(self).full_move_clock == old(self).full_move_clock,
    {
        let ghost o = *self;
        let piece = Square::piece(PieceTy::from_u8((t + 1) as u8), Color::from_u8(c as u8));
        let key = zobrist_table((s / 8) as usize, (s % 8) as usize, piece.to_usize());
        self.hash = self.hash ^ key;
        self.board.remove_piece(s, c, t);
        proof {
            lemma_view_bits(o.board);
            assert(o.board@[s as int] == piece);
            lemma_squares_hash_update(o.board@, s as int, Square::blank(), 64);
            assert(square_term(o.board@, s as int) == key);
            assert(square_term(self.board@, s as int) == 0);
            let q = squares_hash(o.board@, 64);
            let sp = if o.to_move == Color::Black { side_key() } else { 0 };
            let kp = castling_hash(o.castleable);
            let ep = match o.enpass {
                Some(p) => enpass_key(o.to_move.opposite().index(), p.0 as int),
                None => 0,
            };
            lemma_xor_parts(o.hash, q, sp, kp, ep, key);
        }
    }

    /// Puts side `c`'s piece of kind number `t` on the empty square `s`,
    /// keeping the hash in step.
    fn fill_square(&mut self, s: u32, c: usize, t: usize)
        requires
            old(self).board.wf(),
            s < 64,
            c < 2,
            t < 6,
            old(self).board@[s as int] == Square::blank(),
        ensures
            final(self).board.wf(),
            final(self).board@ == old(self).board@.update(
                s as int,
                Square::of(kind_of_index(t as int), side_of_index(c as int)),
            ),
            final(self).hash ^ final(self).full() == old(self).hash ^ old(self).full(),
            final(self).to_move == old(self).to_move,
            final(self).castleable == old(self).castleable,
            final(self).enpass == old(self).enpass,
            final(self).prev_pos == old(self).prev_pos,
            final(self).moves == old(self).moves,
            final(self).full_move_clock == old(self).full_move_clock,
    {
        let ghost o = *self;
        let piece = Square::piece(PieceTy::from_u8((t + 1) as u8), Color::from_u8(c as u8));
        let key = zobrist_table((s / 8) as usize, (s % 8) as usize, piece.to_usize());
        self.hash = self.hash ^ key;
        self.board.place_piece(s, c, t);
        proof {
            lemma_squares_hash_update(o.board@, s as int, piece, 64);
            assert(square_term(o.board@, s as int) == 0);
            assert(square_term(self.board@, s as int) == key);
            let q = squares_hash(o.board@, 64);
            let sp = if o.to_move == Color::Black { side_key() } else { 0 };
            let kp = castling_hash(o.castleable);
            let ep = match o.enpass {
                Some(p) => enpass_key(o.to_move.opposite().index(), p.0 as int),
                None => 0,
            };
            lemma_xor_parts(o.hash, q, sp, kp, ep, key);
        }
    }

    /// Withdraws castling right `side` of side `ci` if it is held, keeping
    /// the hash in step.
    fn drop_right(&mut self, ci: usize, side: usize)
        requires
            ci < 2,
            side < 2,
        ensures
            final(self).castleable[ci as int] == (if side == 0 {
                (false, old(self).castleable[ci as int].1)
            } else {
                (old(self).castleable[ci as int].0, false)
            }),
            final(self).castleable[1 - ci] == old(self).castleable[1 - ci],
            final(self).hash ^ final(self).full() == old(self).hash ^ old(self).full(),
            final(self).board == old(self).board,
            final(self).to_move == old(self).to_move,
            final(self).enpass == old(self).enpass,
            final(self).prev_pos == old(self).prev_pos,
            final(self).moves == old(self).moves,
            final(self).full_move_clock == old(self).full_move_clock,
    {
        let ghost o = *self;
        let held = if side == 0 { self.castleable[ci].0 } else { self.castleable[ci].1 };
        if held {
            let key = zobrist_castling(ci, side);
            self.hash = self.hash ^ key;
            if side == 0 {
                self.castleable[ci].0 = false;
            } else {
                self.castleable[ci].1 = false;
            }
            proof {
                lemma_castling_clear(o.castleable, self.castleable, ci as int, side as int);
                let q = squares_hash(o.board@, 64);
                let sp = if o.to_move == Color::Black { side_key() } else { 0 };
                let kp = castling_hash(o.castleable);
                let ep = match o.enpass {
                    Some(p) => enpass_key(o.to_move.opposite().index(), p.0 as int),
                    None => 0,
                };
                lemma_xor_parts(o.hash, q, sp, kp, ep, key);
            }
        } else {
            proof {
                assert(self.castleable =~= o.castleable);
            }
        }
    }

    /// What stands on position `p`.
    pub fn get(&self, p: Pos) -> (r: Square)
        requires
            self.board.wf(),
            p.1 * 8 + p.0 < 64,
        ensures
            r == self.at(p),
            r.is_valid(),
    {
        self.board.get(p)
    }

    /// Whether position `p` is occupied.
    pub fn occupied(&self, p: Pos) -> (r: bool)
        requires
            self.board.wf(),
            p.1 * 8 + p.0 < 64,
        ensures
            r == (self.at(p) != Square::blank()),
    {
        self.board.occupied(p)
    }

    /// Updates the castling rights for move `m` of position `g`.
    fn apply_rights(
        &mut self,
        m: Move,
        mty: PieceTy,
        mcolor: Color,
        ep_capture: bool,
        capture: Option<(Square, Pos)>,
        Ghost(g): Ghost<Game>,
    )
        requires
            g.wf(),
            g.move_ok(m),
            old(self).castleable == g.castleable,
            mty == g.moving(m).kind(),
            mcolor == g.moving(m).side(),
            ep_capture == g.is_ep_capture(m),
            capture == g.captured(m),
        ensures
            final(self).castleable[0] == g.rights_after(m, 0),
            final(self).castleable[1] == g.rights_after(m, 1),
            final(self).hash ^ final(self).full() == old(self).hash ^ old(self).full(),
            final(self).board == old(self).board,
            final(self).to_move == old(self).to_move,
            final(self).enpass == old(self).enpass,
            final(self).prev_pos == old(self).prev_pos,
            final(self).moves == old(self).moves,
            final(self).full_move_clock == old(self).full_move_clock,
    {
        let c = mcolor.to_index();
        let ec: usize = 1 - c;
        proof {
            lemma_view_bits(g.board);
        }
        if mty == PieceTy::King {
            self.drop_right(c, 0);
            self.drop_right(c, 1);
        }
        if mty == PieceTy::Rook && m.from.1 == mcolor.start() {
            if m.from.0 == 0 {
                self.drop_right(c, 0);
            } else if m.from.0 == 7 {
                self.drop_right(c, 1);
            }
        }
        if !ep_capture {
            match capture {
                Some((cap, cap_pos)) => {
                    proof {
                        assert(cap.side() != mcolor);
                    }
                    if cap.ty() == PieceTy::Rook && cap_pos.1 == cap.color().start() {
                        if cap_pos.0 == 0 {
                            self.drop_right(ec, 0);
                        } else if cap_pos.0 == 7 {
                            self.drop_right(ec, 1);
                        }
                    }
                },
                None => {},
            }
        }
    }

    /// Moves the pieces for move `m` of position `g`.
    #[verifier::rlimit(40)]
    fn apply_pieces(
        &mut self,
        m: Move,
        mty: PieceTy,
        mcolor: Color,
        ep_capture: bool,
        capture: Option<(Square, Pos)>,
        Ghost(g): Ghost<Game>,
    )
        requires
            g.wf(),
            g.move_ok(m),
            old(self).board == g.board,
            mty == g.moving(m).kind(),
            mcolor == g.moving(m).side(),
            ep_capture == g.is_ep_capture(m),
            capture == g.captured(m),
        ensures
            final(self).board.wf(),
            final(self).board@ == g.board_after(m),
            final(self).hash ^ final(self).full() == old(self).hash ^ old(self).full(),
            final(self).castleable == old(self).castleable,
            final(self).to_move == old(self).to_move,
            final(self).enpass == old(self).enpass,
            final(self).prev_pos == old(self).prev_pos,
            final(self).moves == old(self).moves,
            final(self).full_move_clock == old(self).full_move_clock,
    {
        let c = mcolor.to_index();
        let ec: usize = 1 - c;
        let pt = (mty.to_u8() - 1) as usize;
        proof {
            lemma_view_bits(g.board);
            lemma_square_of(mty, mcolor);
        }
        if ep_capture {
            let cap_pos = (m.to.0, m.from.1);
            proof {
                lemma_square_of(PieceTy::Pawn, mcolor.opposite());
            }
            self.clear_square(sq(cap_pos), ec, 0);
        }
        let castling = mty == PieceTy::King && usize_abs_diff(m.from.0, m.to.0) == 2;
        if castling {
            self.move_castling_rook(m, c, Ghost(g));
        }
        if !ep_capture {
            match capture {
                Some((cap, _)) => {
                    let cpt = (cap.ty().to_u8() - 1) as usize;
                    proof {
                        lemma_view_bits(self.board);
                        lemma_square_decode(cap);
                    }
                    self.clear_square(sq(m.to), ec, cpt);
                },
                None => {},
            }
        }
        proof {
            lemma_view_bits(self.board);
        }
        self.clear_square(sq(m.from), c, pt);
        let final_pt: usize = match m.promotion {
            Some(p) => (p.to_u8() - 1) as usize,
            None => pt,
        };
        self.fill_square(sq(m.to), c, final_pt);
        assert(self.board@ =~= g.board_after(m));
    }

    /// Moves the rook of castling move `m` of position `g`.
    fn move_castling_rook(&mut self, m: Move, c: usize, Ghost(g): Ghost<Game>)
        requires
            g.wf(),
            g.move_ok(m),
            g.is_castling(m),
            old(self).board == g.board,
            c == g.to_move.index(),
        ensures
            final(self).board.wf(),
            final(self).board@ == g.board@.update(pos_index(Game::rook_from(m)), Square::blank()).update(
                pos_index(Game::rook_to(m)),
                Square::of(PieceTy::Rook, g.to_move),
            ),
            final(self).hash ^ final(self).full() == old(self).hash ^ old(self).full(),
            final(self).castleable == old(self).castleable,
            final(self).to_move == old(self).to_move,
            final(self).enpass == old(self).enpass,
            final(self).prev_pos == old(self).prev_pos,
            final(self).moves == old(self).moves,
            final(self).full_move_clock == old(self).full_move_clock,
    {
        let rank = m.from.1;
        let (rx, rfinal): (usize, usize) = if m.to.0 < m.from.0 {
            (0, 3)
        } else {
            (7, 5)
        };
        proof {
            lemma_view_bits(self.board);
            lemma_square_of(PieceTy::Rook, g.to_move);
        }
        self.clear_square(sq((rx, rank)), c, 3);
        self.fill_square(sq((rfinal, rank)), c, 3);
    }

    /// Plays move `m`, recording how to take it back.
    pub fn move_piece(&mut self, m: Move)
        requires
            old(self).wf(),
            old(self).move_ok(m),
            old(self).prev_pos.prev_pos_idx < 256,
        ensures
            Game::moved(*old(self), m, *final(self)),
    {
        let ghost g = *self;
        proof {
            lemma_view_bits(g.board);
        }
        let moving = self.get(m.from);
        let mcolor = moving.color();
        let c = mcolor.to_index();
        let ec: usize = 1 - c;
        let mty = moving.ty();
        let ep_capture = mty == PieceTy::Pawn && opt_pos_eq(Some(m.to), self.enpass);
        let capture = if ep_capture {
            let cap_pos = (m.to.0, m.from.1);
            Some((self.get(cap_pos), cap_pos))
        } else {
            let t = self.get(m.to);
            if !t.is_empty() {
                Some((t, m.to))
            } else {
                None
            }
        };
        let h0 = self.hash;
        self.prev_pos.push(h0);
        self.moves.push(
            Undo {
                moving,
                capture,
                castleable: self.castleable,
                en_pass: self.enpass,
                hash: h0,
                m,
            },
        );
        let ghost drift = g.hash ^ g.full();
        self.apply_pieces(m, mty, mcolor, ep_capture, capture, Ghost(g));
        match self.enpass {
            Some(ep) => {
                let key = zobrist_enpass(ec, ep.0);
                let ghost o = *self;
                self.hash = self.hash ^ key;
                self.enpass = None;
                proof {
                    let q = squares_hash(o.board@, 64);
                    let sp = if o.to_move == Color::Black { side_key() } else { 0 };
                    let kp = castling_hash(o.castleable);
                    lemma_xor4(0, 0, 0, 0, key);
                    lemma_xor_parts(o.hash, q, sp, kp, 0, key);
                }
            },
            None => {},
        }
        self.apply_rights(m, mty, mcolor, ep_capture, capture, Ghost(g));
        {
            let key = zobrist_side_to_move();
            let ghost o = *self;
            self.hash = self.hash ^ key;
            self.to_move = self.to_move.other();
            proof {
                let q = squares_hash(o.board@, 64);
                let sp = if o.to_move == Color::Black { side_key() } else { 0 };
                let kp = castling_hash(o.castleable);
                lemma_xor4(0, 0, 0, 0, key);
                lemma_xor_parts(o.hash, q, sp, kp, 0, key);
            }
        }
        if mty == PieceTy::Pawn && usize_abs_diff(m.from.1, m.to.1) == 2 {
            let mid_y = (m.from.1 + m.to.1) / 2;
            let key = zobrist_enpass(c, m.to.0);
            let ghost o = *self;
            self.enpass = Some((m.to.0, mid_y));
            self.hash = self.hash ^ key;
            proof {
                let q = squares_hash(o.board@, 64);
                let sp = if o.to_move == Color::Black { side_key() } else { 0 };
                let kp = castling_hash(o.castleable);
                lemma_xor4(0, 0, 0, 0, key);
                lemma_xor_parts(o.hash, q, sp, kp, 0, key);
            }
        }
    }

    /// What the record's move left on its destination.
    pub open spec fn landing_of(u: Undo) -> Square {
        match u.m.promotion {
            Some(p) => Square::of(p, u.moving.side()),
            None => u.moving,
        }
    }

    pub open spec fn castling_of(u: Undo) -> bool {
        u.moving.kind() == PieceTy::King && abs_diff(u.m.from.0, u.m.to.0) == 2
    }

    /// The last move can be taken back: the board shows what its record says
    /// the move left behind.
    pub open spec fn undo_ok(&self) -> bool {
        &&& self.moves@.len() > 0
        &&& (self.moves@.last().en_pass matches Some(e) ==> e.0 < 8 && e.1 < 8)
        &&& {
            let u = self.moves@.last();
            ||| u.m.from == u.m.to
            ||| {
                &&& on_board(u.m.from)
                &&& on_board(u.m.to)
                &&& u.moving.is_piece()
                &&& self.at(u.m.to) == Game::landing_of(u)
                &&& self.at(u.m.from) == Square::blank()
                &&& (u.capture matches Some(cap) ==> {
                    &&& cap.0.is_piece()
                    &&& on_board(cap.1)
                    &&& cap.1 != u.m.from
                    &&& (cap.1 == u.m.to || self.at(cap.1) == Square::blank())
                })
                &&& (Game::castling_of(u) ==> {
                    &&& self.at(Game::rook_to(u.m)) == Square::of(PieceTy::Rook, u.moving.side())
                    &&& self.at(Game::rook_from(u.m)) == Square::blank()
                    &&& Game::rook_from(u.m) != u.m.from
                    &&& Game::rook_from(u.m) != u.m.to
                    &&& Game::rook_to(u.m) != u.m.from
                    &&& Game::rook_to(u.m) != u.m.to
                    &&& (u.capture matches Some(cap) ==> cap.1 != Game::rook_from(u.m) && cap.1
                        != Game::rook_to(u.m))
                })
            }
        }
    }

    /// The squares after taking back the move of record `u`.
    pub open spec fn board_restored(&self, u: Undo) -> Seq<Square> {
        let b1 = self.board@.update(pos_index(u.m.to), Square::blank()).update(
            pos_index(u.m.from),
            u.moving,
        );
        let b2 = match u.capture {
            Some(cap) => b1.update(pos_index(cap.1), cap.0),
            None => b1,
        };
        if Game::castling_of(u) {
            b2.update(pos_index(Game::rook_to(u.m)), Square::blank()).update(
                pos_index(Game::rook_from(u.m)),
                Square::of(PieceTy::Rook, u.moving.side()),
            )
        } else {
            b2
        }
    }

    /// `g2` is `g` with its last move taken back.
    pub open spec fn undone(g: Game, g2: Game) -> bool {
        let u = g.moves@.last();
        &&& g2.wf()
        &&& g2.board@ == (if u.m.from == u.m.to { g.board@ } else { g.board_restored(u) })
        &&& g2.to_move == g.to_move.opposite()
        &&& g2.hash == u.hash
        &&& g2.castleable == u.castleable
        &&& g2.enpass == u.en_pass
        &&& g2.prev_pos@ == g.prev_pos@.drop_last()
        &&& g2.moves@ == g.moves@.drop_last()
        &&& g2.full_move_clock == g.full_move_clock
    }

    /// Takes back the last move.
    #[verifier::rlimit(40)]
    pub fn undo_move(&mut self)
        requires
            old(self).wf(),
            old(self).undo_ok(),
        ensures
            Game::undone(*old(self), *final(self)),
    {
        let ghost g = *self;
        let undo = self.moves.pop().unwrap();
        self.to_move = self.to_move.other();
        self.hash = undo.hash;
        self.castleable = undo.castleable;
        self.enpass = undo.en_pass;
        self.prev_pos.undo();
        if pos_eq(undo.m.from, undo.m.to) {
            return ;
        }
        let m = undo.m;
        let moving = undo.moving;
        let c = moving.color().to_index();
        let pt = (moving.ty().to_u8() - 1) as usize;
        let final_pt: usize = match m.promotion {
            Some(p) => (p.to_u8() - 1) as usize,
            None => pt,
        };
        proof {
            lemma_view_bits(self.board);
            lemma_square_decode(moving);
            lemma_square_of(moving.kind(), moving.side());
            lemma_square_of(kind_of_index(final_pt as int), moving.side());
        }
        self.board.remove_piece(sq(m.to), c, final_pt);
        self.board.place_piece(sq(m.from), c, pt);
        let ghost b1 = self.board@;
        match undo.capture {
            Some((cap, cap_pos)) => {
                let cpt = (cap.ty().to_u8() - 1) as usize;
                let cec = cap.color().to_index();
                proof {
                    lemma_square_decode(cap);
                }
                self.board.place_piece(sq(cap_pos), cec, cpt);
            },
            None => {},
        }
        if moving.ty() == PieceTy::King && usize_abs_diff(m.from.0, m.to.0) == 2 {
            let rank = m.from.1;
            let (rx, rfinal): (usize, usize) = if m.to.0 < m.from.0 {
                (0, 3)
            } else {
                (7, 5)
            };
            proof {
                lemma_view_bits(self.board);
                lemma_square_of(PieceTy::Rook, moving.side());
            }
            self.board.remove_piece(sq((rfinal, rank)), c, 3);
            self.board.place_piece(sq((rx, rank)), c, 3);
        }
        assert(self.board@ =~= g.board_restored(undo));
    }

    /// Passes the turn without moving, recording how to take it back.
    pub fn make_null_move(&mut self)
        requires
            old(self).wf(),
            old(self).prev_pos.prev_pos_idx < 256,
        ensures
            final(self).wf(),
            final(self).board == old(self).board,
            final(self).to_move == old(self).to_move.opposite(),
            final(self).castleable == old(self).castleable,
            final(self).enpass == None::<Pos>,
            final(self).hash == old(self).hash ^ (match old(self).enpass {
                Some(e) => enpass_key(old(self).to_move.index(), e.0 as int),
                None => 0,
            }) ^ side_key(),
            final(self).prev_pos@ == old(self).prev_pos@.push(old(self).hash),
            final(self).moves@ == old(self).moves@.push(Game::null_record(*old(self))),
            final(self).full_move_clock == old(self).full_move_clock,
    {
        let h = self.hash;
        self.prev_pos.push(h);
        self.moves.push(
            Undo {
                moving: Square::empty(),
                capture: None,
                castleable: self.castleable,
                hash: h,
                en_pass: self.enpass,
                m: Move { from: (8, 8), to: (8, 8), promotion: None },
            },
        );
        match self.enpass {
            Some(ep) => {
                self.hash = self.hash ^ zobrist_enpass(self.to_move.to_index(), ep.0);
            },
            None => {
                proof {
                    lemma_xor_algebra(h, 0, 0);
                }
            },
        }
        self.enpass = None;
        self.to_move = self.to_move.other();
        self.hash = self.hash ^ zobrist_side_to_move();
    }

    /// The record of a null move made in position `g`.
    pub open spec fn null_record(g: Game) -> Undo {
        Undo {
            moving: Square::blank(),
            capture: None,
            castleable: g.castleable,
            hash: g.hash,
            en_pass: g.enpass,
            m: Move { from: (8, 8), to: (8, 8), promotion: None },
        }
    }
}

/// After a move the move can be taken back, and taking it back restores the
/// position the move was played in: the same board, side to move, castling
/// rights, en passant square, hash and history.
pub proof fn law_undo_restores_move(g: Game, m: Move, g1: Game, g2: Game)
    requires
        g.wf(),
        g.move_ok(m),
        Game::moved(g, m, g1),
    ensures
        g1.undo_ok(),
        Game::undone(g1, g2) ==> {
            &&& g2.board == g.board
            &&& g2.to_move == g.to_move
            &&& g2.castleable == g.castleable
            &&& g2.enpass == g.enpass
            &&& g2.hash == g.hash
            &&& g2.prev_pos@ == g.prev_pos@
            &&& g2.moves@ == g.moves@
            &&& g2.full_move_clock == g.full_move_clock
        },
{
    lemma_view_bits(g.board);
    let u = g1.moves@.last();
    assert(u == g.undo_record(m));
    lemma_square_of(g.moving(m).kind(), g.moving(m).side());
    lemma_square_decode(g.moving(m));
    if Game::undone(g1, g2) {
        assert(g2.board@ =~= g.board@);
        lemma_view_determines(g2.board, g.board);
        assert(g2.prev_pos@ =~= g.prev_pos@);
        assert(g2.moves@ =~= g.moves@);
    }
}

/// Taking back a null move restores the position it was made in.
pub proof fn law_undo_restores_null_move(g: Game, g1: Game, g2: Game)
    requires
        g.wf(),
        g1.wf(),
        g1.board == g.board,
        g1.to_move == g.to_move.opposite(),
        g1.prev_pos@ == g.prev_pos@.push(g.hash),
        g1.moves@ == g.moves@.push(Game::null_record(g)),
        g1.full_move_clock == g.full_move_clock,
    ensures
        g1.undo_ok(),
        Game::undone(g1, g2) ==> {
            &&& g2.board == g.board
            &&& g2.to_move == g.to_move
            &&& g2.castleable == g.castleable
            &&& g2.enpass == g.enpass
            &&& g2.hash == g.hash
            &&& g2.prev_pos@ == g.prev_pos@
            &&& g2.moves@ == g.moves@
        },
{
    if Game::undone(g1, g2) {
        lemma_view_determines(g2.board, g.board);
        assert(g2.prev_pos@ =~= g.prev_pos@);
        assert(g2.moves@ =~= g.moves@);
    }
}

impl Game {
    /// A position with no history.
    pub fn new(board: Board, castleable: [(bool, bool); 2], enpass: Option<Pos>, to_move: Color) -> (r: Game)
        requires
            forall|k: int| 0 <= k < 64 ==> (#[trigger] board_seq(board)[k]).is_valid(),
            enpass matches Some(e) ==> e.0 < 8 && e.1 < 8,
        ensures
            r.wf(),
            r.board@ == board_seq(board),
            r.castleable == castleable,
            r.enpass == enpass,
            r.to_move == to_move,
            r.full_move_clock == 0,
            r.hash == r.full(),
            r.prev_pos@ == Seq::<u64>::empty(),
            r.moves@ == Seq::<Undo>::empty(),
    {
        let hash = gen_full_hash(&board, to_move, castleable, enpass);
        let board = BitBoards::from_board(board);
        Game {
            board,
            castleable,
            enpass,
            to_move,
            full_move_clock: 0,
            hash,
            prev_pos: PrevPos::new(),
            moves: Vec::new(),
        }
    }

    pub fn get_hash(&self) -> (r: u64)
        ensures
            r == self.hash,
    {
        self.hash
    }

    pub fn get_to_move(&self) -> (r: Color)
        ensures
            r == self.to_move,
    {
        self.to_move
    }

    /// Whether the hash of `g` occurs in this position's history.
    pub fn has_been_played(&self, g: &Game) -> (r: bool)
        requires
            self.prev_pos.wf(),
        ensures
            r == self.prev_pos@.contains(g.hash),
    {
        let n = self.prev_pos.prev_pos_idx;
        let target = g.get_hash();
        let mut i: usize = 0;
        while i < n
            invariant
                n == self.prev_pos.prev_pos_idx,
                n <= 256,
                i <= n,
                target == g.hash,
                forall|j: int| 0 <= j < i ==> self.prev_pos@[j] != target,
            decreases n - i,
        {
            if self.prev_pos.previous_positions[i] == target {
                assert(self.prev_pos@[i as int] == target);
                assert(self.prev_pos@.contains(target));
                return true;
            }
            i = i + 1;
        }
        false
    }

    /// Whether the current position occurred at least twice before.
    pub fn lose_on_repeat(&self) -> (r: bool)
        requires
            self.prev_pos.wf(),
        ensures
            r == (count_of(self.prev_pos@, self.hash) >= 2),
    {
        let n = self.prev_pos.prev_pos_idx;
        let h = self.hash;
        let mut count: usize = 0;
        let mut i: usize = 0;
        while i < n
            invariant
                n == self.prev_pos.prev_pos_idx,
                n <= 256,
                i <= n,
                h == self.hash,
                count == count_of(self.prev_pos@.take(i as int), h),
                count <= i,
            decreases n - i,
        {
            assert(self.prev_pos@.take(i as int + 1).drop_last() =~= self.prev_pos@.take(i as int));
            if self.prev_pos.previous_positions[i] == h {
                count = count + 1;
            }
            i = i + 1;
        }
        assert(self.prev_pos@.take(n as int) =~= self.prev_pos@);
        count >= 2
    }

    /// The number of pieces of the kind and side of `s`.
    pub fn piece_count(&self, s: Square) -> (r: u32)
        requires
            s.is_piece(),
        ensures
            r == bit_count(self.board.pieces[s.side().index()][s.kind().code() - 1]),
            r <= 64,
    {
        count_bits(self.board.pieces[s.color().to_index()][(s.ty().to_u8() - 1) as usize])
    }

    /// The castling rights after move `m`.
    pub open spec fn rights_after_all(&self, m: Move) -> [(bool, bool); 2] {
        [self.rights_after(m, 0), self.rights_after(m, 1)]
    }

    /// The hash move `m` leads to, as long as the position's hash is in step.
    pub open spec fn hash_after_spec(&self, m: Move) -> u64 {
        self.hash ^ self.full() ^ full_hash(
            self.board_after(m),
            self.to_move.opposite(),
            self.rights_after_all(m),
            self.enpass_after(m),
        )
    }

    /// The hash of the position after move `m` of piece `moving`, computed
    /// without playing it. For an en passant capture the captured pawn is
    /// keyed by the code one below its own.
    pub fn hash_after_move(&self, m: Move, moving: Square) -> (r: u64)
        requires
            self.wf(),
            self.move_ok(m),
            moving == self.at(m.from),
        ensures
            !self.is_ep_capture(m) ==> r == self.hash_after_spec(m),
            self.is_ep_capture(m) ==> r == self.hash_after_spec(m) ^ piece_key(
                pos_index(Game::ep_victim(m)),
                self.at(Game::ep_victim(m)).0 as int,
            ) ^ piece_key(pos_index(Game::ep_victim(m)), self.at(Game::ep_victim(m)).0 - 1),
    {
        let ghost g = *self;
        proof {
            lemma_view_bits(self.board);
        }
        let mcolor = moving.color();
        let c = mcolor.to_index();
        let ec: usize = 1 - c;
        let mty = moving.ty();
        let ep_capture = mty == PieceTy::Pawn && opt_pos_eq(Some(m.to), self.enpass);
        let capture = if ep_capture {
            let cap_pos = (m.to.0, m.from.1);
            Some((self.get(cap_pos), cap_pos))
        } else {
            let t = self.get(m.to);
            if !t.is_empty() {
                Some((t, m.to))
            } else {
                None
            }
        };
        let mut scratch = Game {
            board: self.board,
            to_move: self.to_move,
            castleable: self.castleable,
            enpass: self.enpass,
            full_move_clock: self.full_move_clock,
            hash: self.hash,
            prev_pos: self.prev_pos,
            moves: Vec::new(),
        };
        scratch.apply_pieces(m, mty, mcolor, ep_capture, capture, Ghost(g));
        match scratch.enpass {
            Some(ep) => {
                let key = zobrist_enpass(ec, ep.0);
                let ghost o = scratch;
                scratch.hash = scratch.hash ^ key;
                scratch.enpass = None;
                proof {
                    let q = squares_hash(o.board@, 64);
                    let sp = if o.to_move == Color::Black { side_key() } else { 0 };
                    let kp = castling_hash(o.castleable);
                    lemma_xor4(0, 0, 0, 0, key);
                    lemma_xor_parts(o.hash, q, sp, kp, 0, key);
                }
            },
            None => {},
        }
        scratch.apply_rights(m, mty, mcolor, ep_capture, capture, Ghost(g));
        {
            let key = zobrist_side_to_move();
            let ghost o = scratch;
            scratch.hash = scratch.hash ^ key;
            scratch.to_move = scratch.to_move.other();
            proof {
                let q = squares_hash(o.board@, 64);
                let sp = if o.to_move == Color::Black { side_key() } else { 0 };
                let kp = castling_hash(o.castleable);
                lemma_xor4(0, 0, 0, 0, key);
                lemma_xor_parts(o.hash, q, sp, kp, 0, key);
            }
        }
        if mty == PieceTy::Pawn && usize_abs_diff(m.from.1, m.to.1) == 2 {
            let mid_y = (m.from.1 + m.to.1) / 2;
            let key = zobrist_enpass(c, m.to.0);
            let ghost o = scratch;
            scratch.enpass = Some((m.to.0, mid_y));
            scratch.hash = scratch.hash ^ key;
            proof {
                let q = squares_hash(o.board@, 64);
                let sp = if o.to_move == Color::Black { side_key() } else { 0 };
                let kp = castling_hash(o.castleable);
                lemma_xor4(0, 0, 0, 0, key);
                lemma_xor_parts(o.hash, q, sp, kp, 0, key);
            }
        }
        proof {
            assert(scratch.castleable =~= g.rights_after_all(m));
            let f1 = scratch.full();
            lemma_xor_algebra(scratch.hash, f1, f1);
            lemma_xor_algebra(f1, f1, 0);
            lemma_xor_algebra(scratch.hash, 0, 0);
        }
        let mut h = scratch.hash;
        if ep_capture {
            let cap_pos = (m.to.0, m.from.1);
            let cap_sq = self.get(cap_pos);
            let code = cap_sq.to_usize();
            h = h ^ zobrist_table(cap_pos.1, cap_pos.0, code) ^ zobrist_table(cap_pos.1, cap_pos.0, code - 1);
        }
        h
    }
}

/// A hash that matches its position keeps matching it through a move: the
/// incremental hash is the hash of the whole position.
pub proof fn law_hash_tracks_position(g: Game, m: Move, g1: Game)
    requires
        g.wf(),
        g.move_ok(m),
        Game::moved(g, m, g1),
        g.hash == g.full(),
    ensures
        g1.hash == g1.full(),
{
    lemma_same_drift(g1.hash, g1.full(), g.hash, g.full());
}

/// Castling, the king going two files from its home file, puts the rook on
/// the square the king crossed and leaves the corner the rook came from and
/// the king's square empty.
pub proof fn law_castling_rook_crosses(g: Game, m: Move, g1: Game)
    requires
        g.wf(),
        g.move_ok(m),
        g.is_castling(m),
        m.from.0 == 4,
        Game::moved(g, m, g1),
    ensures
        g1.at((((m.from.0 + m.to.0) / 2) as usize, m.from.1)) == Square::of(PieceTy::Rook, g.to_move),
        g1.at((if m.to.0 < m.from.0 { 0usize } else { 7usize }, m.from.1)) == Square::blank(),
        g1.at(m.from) == Square::blank(),
{
    let mid: Pos = (((m.from.0 + m.to.0) / 2) as usize, m.from.1);
    assert(mid == Game::rook_to(m));
    assert(pos_index(Game::rook_to(m)) != pos_index(m.from));
    assert(pos_index(Game::rook_to(m)) != pos_index(m.to));
    assert(pos_index(Game::rook_from(m)) != pos_index(m.from));
    assert(pos_index(Game::rook_from(m)) != pos_index(m.to));
    assert(pos_index(Game::rook_from(m)) != pos_index(Game::rook_to(m)));
}

/// Two positions that differ only in the side to move, each with its hash
/// in step with the position, have different hashes: neither is taken for
/// a repetition of the other.
pub proof fn law_hash_separates_side(g1: Game, g2: Game)
    requires
        g1.wf(),
        g1.hash == g1.full(),
        g2.hash == g2.full(),
        g1.board@ == g2.board@,
        g1.castleable == g2.castleable,
        g1.enpass == g2.enpass,
        g1.to_move != g2.to_move,
    ensures
        g1.hash != g2.hash,
{
    law_full_hash_separates_side(g1.board@, g1.castleable, g1.enpass);
}

/// Two hashes that drift alike from their positions, one of them by
/// nothing, both drift by nothing.
proof fn lemma_same_drift(a: u64, b: u64, c: u64, d: u64)
    by (bit_vector)
    requires
        a ^ b == c ^ d,
        c == d,
    ensures
        a == b,
{
}

/// The hash `hash_after_move` computes for a move other than an en passant
/// capture is the hash the game has after playing it.
pub proof fn law_hash_after_move_predicts(g: Game, m: Move, g1: Game)
    requires
        g.wf(),
        g.move_ok(m),
        Game::moved(g, m, g1),
        !g.is_ep_capture(m),
    ensures
        g1.hash == g.hash_after_spec(m),
{
    assert(g1.castleable =~= g.rights_after_all(m));
    let f1 = g1.full();
    lemma_xor_algebra(g1.hash, f1, f1);
    lemma_xor_algebra(f1, f1, 0);
    lemma_xor_algebra(g1.hash, 0, 0);
}

} // verus!
