use vstd::prelude::*;
use crate::bits::{has_bit, bit_count, count_bits};
use crate::board::{BitBoards, lemma_view_bits, b2i, kind_of_index, side_of_index};
use crate::types::{Color, PieceTy, Square, Pos, sq_to_pos, index_pos, on_board, lemma_square_of, lemma_square_decode};
use crate::game::Game;
use crate::engine::Engine;
use crate::types::Move;
use crate::legality::legal_move;
use crate::perft::{moves_sum, numbered_sum, move_numbers, lemma_moves_sum_numbered, lemma_moves_sum_bounds, lemma_numbered_sum_bound, lemma_legal_numbered};

verus! {

/// Points per pawn of material.
pub const PIECE_MULT: i32 = 32;

/// Weight of the piece-square tables.
pub const PIECE_POS_MULT: i32 = 2;

/// Weight of mobility, which the evaluation leaves out.
pub const MOBILITY_MULT: i32 = 2;

/// Bonus for holding both bishops.
pub const BISHOP_PAIRS: i32 = 8;

/// Points per pawn doubled on a file.
pub const DOUBLED_PAWNS: i32 = -4;

/// Bonus for the side to move.
pub const TO_MOVE_BONUS: i32 = 4;

pub const PAWN_TABLE: [[i32; 8]; 8] = [
    [0, 0, 0, 0, 0, 0, 0, 0],
    [50, 50, 50, 50, 50, 50, 50, 50],
    [10, 10, 20, 30, 30, 20, 10, 10],
    [5, 5, 10, 25, 25, 10, 5, 5],
    [0, 0, 0, 20, 20, 0, 0, 0],
    [5, -5, -10, 0, 0, -10, -5, 5],
    [5, 10, 10, -20, -20, 10, 10, 5],
    [0, 0, 0, 0, 0, 0, 0, 0],
];

pub const KNIGHT_TABLE: [[i32; 8]; 8] = [
    [-50, -40, -30, -30, -30, -30, -40, -50],
    [-40, -20, 0, 0, 0, 0, -20, -40],
    [-30, 0, 10, 15, 15, 10, 0, -30],
    [-30, 5, 15, 20, 20, 15, 5, -30],
    [-30, 0, 15, 20, 20, 15, 0, -30],
    [-30, 5, 10, 15, 15, 10, 5, -30],
    [-40, -20, 0, 5, 5, 0, -20, -40],
    [-50, -40, -30, -30, -30, -30, -40, -50],
];

pub const BISHOP_TABLE: [[i32; 8]; 8] = [
    [-20, -10, -10, -10, -10, -10, -10, -20],
    [-10, 0, 0, 0, 0, 0, 0, -10],
    [-10, 0, 5, 10, 10, 5, 0, -10],
    [-10, 5, 5, 10, 10, 5, 5, -10],
    [-10, 0, 10, 10, 10, 10, 0, -10],
    [-10, 10, 10, 10, 10, 10, 10, -10],
    [-10, 5, 0, 0, 0, 0, 5, -10],
    [-20, -10, -10, -10, -10, -10, -10, -20],
];

pub const ROOK_TABLE: [[i32; 8]; 8] = [
    [0, 0, 0, 0, 0, 0, 0, 0],
    [5, 10, 10, 10, 10, 10, 10, 5],
    [-5, 0, 0, 0, 0, 0, 0, -5],
    [-5, 0, 0, 0, 0, 0, 0, -5],
    [-5, 0, 0, 0, 0, 0, 0, -5],
    [-5, 0, 0, 0, 0, 0, 0, -5],
    [-5, 0, 0, 0, 0, 0, 0, -5],
    [0, 0, 0, 5, 5, 0, 0, 0],
];

pub const QUEEN_TABLE: [[i32; 8]; 8] = [
    [-20, -10, -10, -5, -5, -10, -10, -20],
    [-10, 0, 0, 0, 0, 0, 0, -10],
    [-10, 0, 5, 5, 5, 5, 0, -10],
    [-5, 0, 5, 5, 5, 5, 0, -5],
    [0, 0, 5, 5, 5, 5, 0, -5],
    [-10, 5, 5, 5, 5, 5, 0, -10],
    [-10, 0, 5, 0, 0, 0, 0, -10],
    [-20, -10, -10, -5, -5, -10, -10, -20],
];

pub const KING_EARLY_TABLE: [[i32; 8]; 8] = [
    [-30, -40, -40, -50, -50, -40, -40, -30],
    [-30, -40, -40, -50, -50, -40, -40, -30],
    [-30, -40, -40, -50, -50, -40, -40, -30],
    [-30, -40, -40, -50, -50, -40, -40, -30],
    [-20, -30, -30, -40, -40, -30, -30, -20],
    [-10, -20, -20, -20, -20, -20, -20, -10],
    [20, 20, 0, 0, 0, 0, 20, 20],
    [20, 30, 10, 0, 0, 10, 30, 20],
];

pub const KING_END_TABLE: [[i32; 8]; 8] = [
    [-50, -40, -30, -20, -20, -30, -40, -50],
    [-30, -20, -10, 0, 0, -10, -20, -30],
    [-30, -10, 20, 30, 30, 20, -10, -30],
    [-30, -10, 30, 40, 40, 30, -10, -30],
    [-30, -10, 30, 40, 40, 30, -10, -30],
    [-30, -10, 20, 30, 30, 20, -10, -30],
    [-30, -30, 0, 0, 0, 0, -30, -30],
    [-50, -30, -30, -30, -30, -30, -30, -50],
];

/// The phase of a game, by the pieces left.
#[derive(Debug, Clone, Copy, PartialEq, Eq, Hash, Structural)]
pub enum GameStage {
    Early,
    Mid,
    End,
}

/// The worth of a piece kind in pawns.
pub open spec fn piece_value(t: PieceTy) -> int {
    match t {
        PieceTy::Pawn => 1,
        PieceTy::Knight => 3,
        PieceTy::Bishop => 3,
        PieceTy::Rook => 5,
        PieceTy::Queen => 9,
        PieceTy::King => 0,
    }
}

/// Side `c`'s material in pawns.
pub open spec fn material(bb: BitBoards, c: int) -> int {
    bit_count(bb.pieces[c][0]) as int + 3 * bit_count(bb.pieces[c][1]) + 3 * bit_count(bb.pieces[c][2])
        + 5 * bit_count(bb.pieces[c][3]) + 9 * bit_count(bb.pieces[c][4])
}

/// What a square is worth to side `c`: the worth of its piece's kind when
/// it holds a piece of `c`, nothing otherwise.
pub open spec fn square_worth(s: Square, c: Color) -> int {
    if s != Square::blank() && s.side() == c {
        piece_value(s.kind())
    } else {
        0
    }
}

/// The worth of side `c`'s pieces on the first `n` squares of `v`.
pub open spec fn pieces_worth(v: Seq<Square>, c: Color, n: int) -> int
    decreases n,
{
    if n <= 0 {
        0
    } else {
        pieces_worth(v, c, n - 1) + square_worth(v[n - 1], c)
    }
}

/// The squares below `n` that are set on `x`, counted one by one.
spec fn count_below(x: u64, n: int) -> int
    decreases n,
{
    if n <= 0 {
        0
    } else {
        count_below(x, n - 1) + b2i(has_bit(x, n - 1))
    }
}

/// Counting the set squares one by one gives the size of the set below `n`.
proof fn lemma_count_below(x: u64, n: int)
    requires
        0 <= n <= 64,
    ensures
        Set::new(|i: int| 0 <= i < n && has_bit(x, i)).finite(),
        count_below(x, n) == Set::new(|i: int| 0 <= i < n && has_bit(x, i)).len(),
    decreases n,
{
    let s = Set::new(|i: int| 0 <= i < n && has_bit(x, i));
    vstd::set_lib::lemma_int_range(0, n);
    assert(s.subset_of(vstd::set_lib::set_int_range(0, n)));
    vstd::set_lib::lemma_set_subset_finite(vstd::set_lib::set_int_range(0, n), s);
    if n == 0 {
        assert(s =~= Set::empty());
    } else {
        lemma_count_below(x, n - 1);
        let p = Set::new(|i: int| 0 <= i < n - 1 && has_bit(x, i));
        if has_bit(x, n - 1) {
            assert(s =~= p.insert(n - 1));
        } else {
            assert(s =~= p);
        }
    }
}

/// A board's square count is its set squares counted one by one.
proof fn lemma_bit_count_below(x: u64)
    ensures
        bit_count(x) == count_below(x, 64),
{
    lemma_count_below(x, 64);
    assert(Set::new(|i: int| 0 <= i < 64 && has_bit(x, i)) =~= crate::bits::bit_squares(x));
}

/// What square `i` is worth to side `c`, by the piece sets that hold it.
proof fn lemma_square_worth(bb: BitBoards, c: Color, i: int)
    requires
        bb.wf(),
        0 <= i < 64,
    ensures
        square_worth(bb@[i], c) == b2i(bb.at(c.index(), 0, i)) + 3 * b2i(bb.at(c.index(), 1, i)) + 3 * b2i(
            bb.at(c.index(), 2, i),
        ) + 5 * b2i(bb.at(c.index(), 3, i)) + 9 * b2i(bb.at(c.index(), 4, i)),
{
    let ci = c.index();
    let s = bb@[i];
    lemma_view_bits(bb);
    assert(side_of_index(ci) == c);
    assert(bb.at(ci, 0, i) == (s == Square::of(kind_of_index(0), c)));
    assert(bb.at(ci, 1, i) == (s == Square::of(kind_of_index(1), c)));
    assert(bb.at(ci, 2, i) == (s == Square::of(kind_of_index(2), c)));
    assert(bb.at(ci, 3, i) == (s == Square::of(kind_of_index(3), c)));
    assert(bb.at(ci, 4, i) == (s == Square::of(kind_of_index(4), c)));
    assert(s.is_valid());
    lemma_square_of(PieceTy::Pawn, c);
    lemma_square_of(PieceTy::Knight, c);
    lemma_square_of(PieceTy::Bishop, c);
    lemma_square_of(PieceTy::Rook, c);
    lemma_square_of(PieceTy::Queen, c);
    if s != Square::blank() {
        lemma_square_decode(s);
        lemma_square_of(s.kind(), s.side());
    }
}

/// The worth of side `c`'s pieces on the first `n` squares, by kind.
proof fn lemma_pieces_worth(bb: BitBoards, c: Color, n: int)
    requires
        bb.wf(),
        0 <= n <= 64,
    ensures
        pieces_worth(bb@, c, n) == count_below(bb.pieces[c.index()][0], n) + 3 * count_below(
            bb.pieces[c.index()][1],
            n,
        ) + 3 * count_below(bb.pieces[c.index()][2], n) + 5 * count_below(bb.pieces[c.index()][3], n) + 9
            * count_below(bb.pieces[c.index()][4], n),
    decreases n,
{
    if n > 0 {
        lemma_pieces_worth(bb, c, n - 1);
        lemma_square_worth(bb, c, n - 1);
    }
}

/// A side's material is the sum, over the squares holding its pieces, of
/// what each piece's kind is worth: a pawn one, a knight or a bishop three,
/// a rook five, a queen nine, the king nothing.
pub proof fn law_material_is_pieces_worth(bb: BitBoards, c: Color)
    requires
        bb.wf(),
    ensures
        material(bb, c.index()) == pieces_worth(bb@, c, 64),
{
    let ci = c.index();
    lemma_pieces_worth(bb, c, 64);
    lemma_bit_count_below(bb.pieces[ci][0]);
    lemma_bit_count_below(bb.pieces[ci][1]);
    lemma_bit_count_below(bb.pieces[ci][2]);
    lemma_bit_count_below(bb.pieces[ci][3]);
    lemma_bit_count_below(bb.pieces[ci][4]);
}

/// The pieces of kind number `t` on the board, both sides together.
pub open spec fn kind_total(bb: BitBoards, t: int) -> int {
    bit_count(bb.pieces[0][t]) as int + bit_count(bb.pieces[1][t]) as int
}

/// Early while 22 or more rooks, bishops and knights remain; else middle
/// while two or more queens remain; else the end.
pub open spec fn stage_of(bb: BitBoards) -> GameStage {
    let minor_major = kind_total(bb, 3) + kind_total(bb, 2) + kind_total(bb, 1);
    if minor_major >= 22 {
        GameStage::Early
    } else if kind_total(bb, 4) >= 2 {
        GameStage::Mid
    } else {
        GameStage::End
    }
}

/// The table entry of a piece kind at stage `stage`, row `y`, file `x`.
pub open spec fn table_entry(kind: PieceTy, stage: GameStage, y: int, x: int) -> i32 {
    match kind {
        PieceTy::Pawn => PAWN_TABLE[y][x],
        PieceTy::Knight => KNIGHT_TABLE[y][x],
        PieceTy::Bishop => BISHOP_TABLE[y][x],
        PieceTy::Rook => ROOK_TABLE[y][x],
        PieceTy::Queen => QUEEN_TABLE[y][x],
        PieceTy::King => if stage == GameStage::End {
            KING_END_TABLE[y][x]
        } else {
            KING_EARLY_TABLE[y][x]
        },
    }
}

/// The table score of piece `s` on position `p`: the tables are written
/// from the top rank down, so white reads them upside down.
pub open spec fn square_score(stage: GameStage, s: Square, p: Pos) -> int {
    let y = if s.side() == Color::White { 7 - p.1 } else { p.1 as int };
    table_entry(s.kind(), stage, y, p.0 as int) / 5
}

/// The table scores of side `c`'s pieces on squares `0..n`.
pub open spec fn placement(v: Seq<Square>, stage: GameStage, c: Color, n: nat) -> int
    decreases n,
{
    if n == 0 {
        0
    } else {
        let i = n - 1;
        placement(v, stage, c, (n - 1) as nat) + (if v[i] != Square::blank() && v[i].side() == c {
            square_score(stage, v[i], index_pos(i))
        } else {
            0
        })
    }
}

/// The pawns beyond the first on each of files `0..n`.
pub open spec fn doubled_pawns(pawns: u64, n: nat) -> int
    decreases n,
{
    if n == 0 {
        0
    } else {
        let k = bit_count(pawns & (0x0101010101010101u64 << ((n - 1) as u64)));
        doubled_pawns(pawns, (n - 1) as nat) + (if k > 1 { k - 1 } else { 0 })
    }
}

/// The static evaluation of side `c`'s position: weighted material, table
/// scores, the bishop pair and doubled pawns.
pub open spec fn side_eval(g: Game, c: Color) -> int {
    let bb = g.board;
    let ci = c.index();
    material(bb, ci) * 32 + placement(bb@, stage_of(bb), c, 64) * 2 + (if bit_count(bb.pieces[ci][2]) >= 2 {
        8int
    } else {
        0int
    }) + doubled_pawns(bb.pieces[ci][0], 8) * -4
}

/// A table entry between -50 and 50 that five divides.
pub open spec fn entry_ok(v: i32) -> bool {
    -50 <= v <= 50 && v % 5 == 0
}

/// Every entry of a table is a multiple of five between -50 and 50.
pub proof fn lemma_tables()
    ensures
        forall|k: PieceTy, st: GameStage, y: int, x: int|
            0 <= y < 8 && 0 <= x < 8 ==> entry_ok(#[trigger] table_entry(k, st, y, x)),
{
    assert forall|k: PieceTy, st: GameStage, y: int, x: int|
        0 <= y < 8 && 0 <= x < 8 implies entry_ok(#[trigger] table_entry(k, st, y, x)) by {
        assert(y == 0 || y == 1 || y == 2 || y == 3 || y == 4 || y == 5 || y == 6 || y == 7);
        assert(x == 0 || x == 1 || x == 2 || x == 3 || x == 4 || x == 5 || x == 6 || x == 7);
    }
}

/// How much a move of a piece of kind `k` adds to its side's mobility:
/// knights 4, bishops 3, rooks 2, queens 1, pawns and kings nothing.
pub open spec fn mobility_weight(k: PieceTy) -> int {
    match k {
        PieceTy::Knight => 4,
        PieceTy::Bishop => 3,
        PieceTy::Rook => 2,
        PieceTy::Queen => 1,
        _ => 0,
    }
}

/// Side `c`'s mobility in `g`: the weights of the moving pieces of its
/// legal moves, added up.
pub open spec fn mobility_of(g: Game, c: Color) -> int {
    numbered_sum(|m: Move| legal_move(g, c, m), |m: Move| mobility_weight(g.at(m.from).kind()), move_numbers())
}

impl Engine {
    /// Side `color`'s mobility: each legal move counts by the kind of the
    /// piece that makes it.
    pub fn mobility(&self, game: &Game, color: Color) -> (r: i32)
        requires
            game.sound(),
            color == game.to_move,
        ensures
            r == mobility_of(*game, color),
    {
        let moves = game.get_all_moves(color);
        let ghost p = |m: Move| legal_move(*game, color, m);
        let ghost f = |m: Move| mobility_weight(game.at(m.from).kind());
        proof {
            assert forall|m: Move| #[trigger] p(m) implies 0 <= crate::perft::move_number(m) < move_numbers()
                && crate::perft::numbered_move(crate::perft::move_number(m)) == m by {
                lemma_legal_numbered(*game, m);
            }
            assert forall|m: Move| #[trigger] moves@.contains(m) <==> (p(m) && crate::perft::move_number(m)
                < move_numbers()) by {
                if p(m) {
                    lemma_legal_numbered(*game, m);
                }
            }
            lemma_moves_sum_numbered(moves@, p, f, move_numbers());
            lemma_numbered_sum_bound(p, f, 4, move_numbers());
        }
        let mut total: i32 = 0;
        let mut i: usize = 0;
        while i < moves.len()
            invariant
                game.sound(),
                color == game.to_move,
                i <= moves@.len(),
                forall|m: Move| #[trigger] moves@.contains(m) <==> legal_move(*game, color, m),
                f == (|m: Move| mobility_weight(game.at(m.from).kind())),
                total == moves_sum(moves@.take(i as int), f),
                moves_sum(moves@, f) == mobility_of(*game, color),
                mobility_of(*game, color) <= 4 * 20480,
            decreases moves@.len() - i,
        {
            let m = moves[i];
            proof {
                assert(moves@.contains(m));
                crate::search::lemma_legal_move_ok(*game, m);
                lemma_view_bits(game.board);
                crate::types::lemma_pos_index_roundtrip(m.from, 0);
                assert(forall|x: Move| 0 <= #[trigger] f(x) <= 4);
                lemma_moves_sum_bounds(moves@, f, 4, i + 1);
                assert(moves@.take(i + 1).drop_last() =~= moves@.take(i as int));
            }
            let w: i32 = match game.get(m.from).ty() {
                PieceTy::Knight => 4,
                PieceTy::Bishop => 3,
                PieceTy::Rook => 2,
                PieceTy::Queen => 1,
                _ => 0,
            };
            total = total + w;
            i = i + 1;
        }
        proof {
            assert(moves@.take(moves@.len() as int) =~= moves@);
        }
        total
    }

    /// The worth of a piece kind in pawns.
    pub fn piece_value_raw(t: PieceTy) -> (r: i32)
        ensures
            r == piece_value(t),
    {
        match t {
            PieceTy::Pawn => 1,
            PieceTy::Bishop | PieceTy::Knight => 3,
            PieceTy::Rook => 5,
            PieceTy::Queen => 9,
            PieceTy::King => 0,
        }
    }

    /// Side `c`'s material in pawns.
    pub fn get_piece_score_color(game: &Game, c: Color) -> (r: i32)
        ensures
            r == material(game.board, c.index()),
            game.board.wf() ==> r == pieces_worth(game.board@, c, 64),
            0 <= r <= 1344,
    {
        proof {
            if game.board.wf() {
                law_material_is_pieces_worth(game.board, c);
            }
        }
        let ci = c.to_index();
        let pawns = count_bits(game.board.pieces[ci][0]) as i32;
        let knights = count_bits(game.board.pieces[ci][1]) as i32;
        let bishops = count_bits(game.board.pieces[ci][2]) as i32;
        let rooks = count_bits(game.board.pieces[ci][3]) as i32;
        let queens = count_bits(game.board.pieces[ci][4]) as i32;
        let kings = count_bits(game.board.pieces[ci][5]) as i32;
        pawns * Self::piece_value_raw(PieceTy::Pawn) + knights * Self::piece_value_raw(PieceTy::Knight)
            + bishops * Self::piece_value_raw(PieceTy::Bishop) + rooks * Self::piece_value_raw(PieceTy::Rook)
            + queens * Self::piece_value_raw(PieceTy::Queen) + kings * Self::piece_value_raw(PieceTy::King)
    }

    /// The stage of the game: early while 22 or more rooks, bishops and
    /// knights remain, in the middle while two or more queens remain, else
    /// at the end.
    pub fn get_game_stage(game: &Game) -> (r: GameStage)
        ensures
            r == stage_of(game.board),
    {
        let queens = game.piece_count(Square::piece(PieceTy::Queen, Color::White)) + game.piece_count(
            Square::piece(PieceTy::Queen, Color::Black),
        );
        let rooks = game.piece_count(Square::piece(PieceTy::Rook, Color::White)) + game.piece_count(
            Square::piece(PieceTy::Rook, Color::Black),
        );
        let bishops = game.piece_count(Square::piece(PieceTy::Bishop, Color::White)) + game.piece_count(
            Square::piece(PieceTy::Bishop, Color::Black),
        );
        let knights = game.piece_count(Square::piece(PieceTy::Knight, Color::White)) + game.piece_count(
            Square::piece(PieceTy::Knight, Color::Black),
        );
        let major_minor = rooks + bishops + knights;
        if major_minor >= 22 {
            GameStage::Early
        } else if queens >= 2 {
            GameStage::Mid
        } else {
            GameStage::End
        }
    }

    /// The table entry of a piece kind at a stage, row `y` and file `x`.
    pub fn table_value(kind: PieceTy, stage: GameStage, y: usize, x: usize) -> (r: i32)
        requires
            y < 8,
            x < 8,
        ensures
            r == table_entry(kind, stage, y as int, x as int),
    {
        match kind {
            PieceTy::Pawn => PAWN_TABLE[y][x],
            PieceTy::Knight => KNIGHT_TABLE[y][x],
            PieceTy::Bishop => BISHOP_TABLE[y][x],
            PieceTy::Rook => ROOK_TABLE[y][x],
            PieceTy::Queen => QUEEN_TABLE[y][x],
            PieceTy::King => match stage {
                GameStage::Early | GameStage::Mid => KING_EARLY_TABLE[y][x],
                GameStage::End => KING_END_TABLE[y][x],
            },
        }
    }

    /// The table score of `piece` on `pos` at `stage`.
    pub fn piece_pos(&self, stage: GameStage, piece: Square, pos: Pos) -> (r: i32)
        requires
            piece.is_piece(),
            on_board(pos),
        ensures
            r == square_score(stage, piece, pos),
            -10 <= r <= 10,
    {
        let y = if piece.color() == Color::White {
            7 - pos.1
        } else {
            pos.1
        };
        let v = Self::table_value(piece.ty(), stage, y, pos.0);
        proof {
            lemma_tables();
            assert(entry_ok(table_entry(piece.kind(), stage, y as int, pos.0 as int)));
        }
        v / 5
    }

    /// The static evaluation of side `c`'s position.
    pub fn eval_base_color(&self, game: &Game, c: Color) -> (r: i32)
        requires
            game.board.wf(),
        ensures
            r == side_eval(*game, c),
            -4000 <= r <= 45000,
    {
        let ci = c.to_index();
        let basic_piece_score = Self::get_piece_score_color(game, c) * PIECE_MULT;
        let stage = Self::get_game_stage(game);
        let mut pos_total: i32 = 0;
        let mut i: u32 = 0;
        while i < 64
            invariant
                i <= 64,
                game.board.wf(),
                stage == stage_of(game.board),
                pos_total == placement(game.board@, stage, c, i as nat),
                -10 * i <= pos_total <= 10 * i,
            decreases 64 - i,
        {
            let p = sq_to_pos(i);
            let s = game.get(p);
            if !s.is_empty() && s.color() == c {
                pos_total = pos_total + self.piece_pos(stage, s, p);
            }
            i = i + 1;
        }
        let piece_pos_values = pos_total * PIECE_POS_MULT;
        let mobility: i32 = 0;
        let bishop_count = count_bits(game.board.pieces[ci][2]);
        let bishop_pairs = (if bishop_count >= 2 { 1i32 } else { 0i32 }) * BISHOP_PAIRS;
        let doubled_pawns = game.doubled_pawns_check(c) * DOUBLED_PAWNS;
        basic_piece_score + piece_pos_values + mobility + bishop_pairs + doubled_pawns
    }
}

impl Game {
    /// The pawns of side `color` beyond the first on each file.
    pub fn doubled_pawns_check(&self, color: Color) -> (r: i32)
        ensures
            r == doubled_pawns(self.board.pieces[color.index()][0], 8),
            0 <= r <= 512,
    {
        let board = self.board.pieces[color.to_index()][0];
        let mut total: i32 = 0;
        let mut f: u64 = 0;
        while f < 8
            invariant
                f <= 8,
                board == self.board.pieces[color.index()][0],
                total == doubled_pawns(board, f as nat),
                0 <= total <= 64 * f,
            decreases 8 - f,
        {
            let file: u64 = 0x0101010101010101u64 << f;
            let pawns = count_bits(board & file);
            if pawns > 1 {
                total = total + (pawns as i32 - 1);
            }
            f = f + 1;
        }
        total
    }
}

/// Every piece on the board is a pawn or a king.
pub open spec fn only_pawns_and_kings(v: Seq<Square>) -> bool {
    forall|i: int|
        0 <= i < 64 ==> #[trigger] v[i] == Square::blank() || v[i].kind() == PieceTy::Pawn || v[i].kind()
            == PieceTy::King
}

impl Game {
    /// Whether only pawns and kings are left.
    pub fn pawn_endgame(&self) -> (r: bool)
        requires
            self.board.wf(),
        ensures
            r == only_pawns_and_kings(self.board@),
    {
        let x = self.board.pieces[0][0] | self.board.pieces[1][0] | self.board.pieces[0][5]
            | self.board.pieces[1][5];
        let r = x == self.board.all;
        proof {
            let bb = self.board;
            let v = bb@;
            lemma_view_bits(bb);
            crate::bits::lemma_or(bb.pieces[0][0], bb.pieces[1][0]);
            crate::bits::lemma_or(bb.pieces[0][0] | bb.pieces[1][0], bb.pieces[0][5]);
            crate::bits::lemma_or(bb.pieces[0][0] | bb.pieces[1][0] | bb.pieces[0][5], bb.pieces[1][5]);
            lemma_square_of(PieceTy::Pawn, Color::White);
            lemma_square_of(PieceTy::Pawn, Color::Black);
            lemma_square_of(PieceTy::King, Color::White);
            lemma_square_of(PieceTy::King, Color::Black);
            assert(bb.at(0, 0, 0) == has_bit(bb.pieces[0][0], 0));
            if r {
                assert forall|i: int| 0 <= i < 64 implies #[trigger] v[i] == Square::blank() || v[i].kind()
                    == PieceTy::Pawn || v[i].kind() == PieceTy::King by {
                    assert(has_bit(bb.all, i) == has_bit(x, i));
                    assert(bb.at(0, 0, i) == has_bit(bb.pieces[0][0], i));
                    assert(bb.at(1, 0, i) == has_bit(bb.pieces[1][0], i));
                    assert(bb.at(0, 5, i) == has_bit(bb.pieces[0][5], i));
                    assert(bb.at(1, 5, i) == has_bit(bb.pieces[1][5], i));
                }
            } else {
                if only_pawns_and_kings(v) {
                    assert forall|i: int| 0 <= i < 64 implies #[trigger] has_bit(x, i) == has_bit(bb.all, i) by {
                        assert(bb.at(0, 0, i) == has_bit(bb.pieces[0][0], i));
                        assert(bb.at(1, 0, i) == has_bit(bb.pieces[1][0], i));
                        assert(bb.at(0, 5, i) == has_bit(bb.pieces[0][5], i));
                        assert(bb.at(1, 5, i) == has_bit(bb.pieces[1][5], i));
                        if v[i] != Square::blank() {
                            crate::types::lemma_square_decode(v[i]);
                        }
                    }
                    crate::bits::lemma_ext(x, bb.all);
                }
            }
        }
        r
    }
}

} // verus!
