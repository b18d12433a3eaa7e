use vstd::prelude::*;

verus! {

/// The kind of a chess piece.
#[derive(Debug, Clone, Copy, PartialEq, Eq, Hash, Structural)]
pub enum PieceTy {
    Pawn,
    Knight,
    Bishop,
    Rook,
    Queen,
    King,
}

/// A side.
#[derive(Debug, Clone, Copy, PartialEq, Eq, Hash, Structural)]
pub enum Color {
    White,
    Black,
}

impl PieceTy {
    /// The numeric code of a piece kind (pawn = 1 .. king = 6).
    pub open spec fn code(self) -> u8 {
        match self {
            PieceTy::Pawn => 1,
            PieceTy::Knight => 2,
            PieceTy::Bishop => 3,
            PieceTy::Rook => 4,
            PieceTy::Queen => 5,
            PieceTy::King => 6,
        }
    }

    /// The piece kind with code `n`, for `1 <= n <= 6`.
    pub open spec fn from_code(n: u8) -> PieceTy {
        if n == 1 {
            PieceTy::Pawn
        } else if n == 2 {
            PieceTy::Knight
        } else if n == 3 {
            PieceTy::Bishop
        } else if n == 4 {
            PieceTy::Rook
        } else if n == 5 {
            PieceTy::Queen
        } else {
            PieceTy::King
        }
    }

    pub fn from_u8(n: u8) -> (r: Self)
        requires
            1 <= n <= 6,
        ensures
            r == Self::from_code(n),
            r.code() == n,
    {
        match n {
            1 => PieceTy::Pawn,
            2 => PieceTy::Knight,
            3 => PieceTy::Bishop,
            4 => PieceTy::Rook,
            5 => PieceTy::Queen,
            _ => PieceTy::King,
        }
    }

    pub fn to_u8(self) -> (r: u8)
        ensures
            r == self.code(),
            1 <= r <= 6,
    {
        match self {
            PieceTy::Pawn => 1,
            PieceTy::Knight => 2,
            PieceTy::Bishop => 3,
            PieceTy::Rook => 4,
            PieceTy::Queen => 5,
            PieceTy::King => 6,
        }
    }
}

impl Color {
    /// The numeric code of a side (white = 0, black = 1).
    pub open spec fn code(self) -> u8 {
        match self {
            Color::White => 0,
            Color::Black => 1,
        }
    }

    pub open spec fn index(self) -> int {
        self.code() as int
    }

    pub open spec fn opposite(self) -> Color {
        match self {
            Color::White => Color::Black,
            Color::Black => Color::White,
        }
    }

    /// The back rank of a side.
    pub open spec fn back_rank(self) -> usize {
        match self {
            Color::White => 0,
            Color::Black => 7,
        }
    }

    pub open spec fn from_code(n: u8) -> Color {
        if n == 0 {
            Color::White
        } else {
            Color::Black
        }
    }

    pub fn from_u8(n: u8) -> (r: Self)
        requires
            n <= 1,
        ensures
            r == Self::from_code(n),
            r.code() == n,
    {
        match n {
            0 => Color::White,
            _ => Color::Black,
        }
    }

    pub fn to_int(self) -> (r: i32)
        ensures
            r == (if self == Color::White { 1i32 } else { -1i32 }),
    {
        match self {
            Color::White => 1,
            Color::Black => -1,
        }
    }

    pub fn to_index(&self) -> (r: usize)
        ensures
            r == self.index(),
            r < 2,
    {
        match self {
            Color::White => 0,
            Color::Black => 1,
        }
    }

    pub fn other(self) -> (r: Self)
        ensures
            r == self.opposite(),
            r != self,
    {
        match self {
            Color::White => Color::Black,
            Color::Black => Color::White,
        }
    }

    pub fn start(self) -> (r: usize)
        ensures
            r == self.back_rank(),
    {
        match self {
            Color::White => 0,
            Color::Black => 7,
        }
    }
}

/// Taking the other side twice gives back the side one started from.
pub proof fn law_other_involutive(c: Color)
    ensures
        c.opposite().opposite() == c,
        c.opposite() != c,
        c.opposite().index() == 1 - c.index(),
{
}

/// Decoding the code of a piece kind gives back the piece kind.
pub proof fn law_piece_code_roundtrip(t: PieceTy)
    ensures
        PieceTy::from_code(t.code()) == t,
        1 <= t.code() <= 6,
{
}

} // verus!

verus! {

/// The contents of a square: 0 for empty, otherwise a piece kind code in
/// the low three bits and the side in the fourth.
#[derive(Debug, Clone, Copy, PartialEq, Eq, Hash, Structural)]
pub struct Square(pub u8);

/// A board position (file, rank), both counted from zero.
pub type Pos = (usize, usize);

impl Square {
    /// The empty square.
    pub fn empty() -> (r: Square)
        ensures
            r == Square::blank(),
    {
        Square(0)
    }

    /// The square holding a piece of kind `ty` and side `c`.
    pub open spec fn of(ty: PieceTy, c: Color) -> Square {
        Square((ty.code() + 8 * c.code()) as u8)
    }

    pub open spec fn blank() -> Square {
        Square(0)
    }

    /// Whether the square holds a well-formed piece code.
    pub open spec fn is_piece(self) -> bool {
        self.0 < 16 && 1 <= self.0 % 8 <= 6
    }

    /// Whether the square is empty or holds a well-formed piece code.
    pub open spec fn is_valid(self) -> bool {
        self.0 == 0 || self.is_piece()
    }

    pub open spec fn side(self) -> Color {
        Color::from_code(self.0 / 8)
    }

    pub open spec fn kind(self) -> PieceTy {
        PieceTy::from_code(self.0 % 8)
    }

    pub fn piece(ty: PieceTy, color: Color) -> (r: Square)
        ensures
            r == Square::of(ty, color),
            r.is_piece(),
            r.side() == color,
            r.kind() == ty,
            r != Square::blank(),
    {
        let c: u8 = match color {
            Color::White => 0,
            Color::Black => 1,
        };
        Square(ty.to_u8() + 8 * c)
    }

    pub fn is_empty(self) -> (r: bool)
        ensures
            r == (self == Square::blank()),
    {
        self.0 == 0
    }

    pub fn color(self) -> (r: Color)
        requires
            self.0 < 16,
        ensures
            r == self.side(),
    {
        Color::from_u8(self.0 / 8)
    }

    pub fn ty(self) -> (r: PieceTy)
        requires
            self.is_piece(),
        ensures
            r == self.kind(),
    {
        PieceTy::from_u8(self.0 % 8)
    }

    pub fn to_usize(self) -> (r: usize)
        ensures
            r == self.0 as usize,
    {
        self.0 as usize
    }
}

/// A piece square decodes back to its kind and side, and distinct pieces
/// have distinct squares.
pub proof fn lemma_square_of(ty: PieceTy, c: Color)
    ensures
        Square::of(ty, c).is_piece(),
        Square::of(ty, c).side() == c,
        Square::of(ty, c).kind() == ty,
        Square::of(ty, c) != Square::blank(),
        forall|t2: PieceTy, c2: Color| #[trigger] Square::of(t2, c2) == Square::of(ty, c) ==> t2 == ty && c2 == c,
{
}

/// A well-formed piece square is the square of its kind and side.
pub proof fn lemma_square_decode(s: Square)
    requires
        s.is_piece(),
    ensures
        s == Square::of(s.kind(), s.side()),
{
}

/// A move from one position to another, with an optional promotion.
#[derive(Debug, Clone, Copy, Hash)]
pub struct Move {
    pub from: Pos,
    pub to: Pos,
    pub promotion: Option<PieceTy>,
}

/// Equality of optional promotions.
pub fn same_promotion(a: Option<PieceTy>, b: Option<PieceTy>) -> (r: bool)
    ensures
        r == (a == b),
{
    match (a, b) {
        (None, None) => true,
        (Some(x), Some(y)) => x == y,
        _ => false,
    }
}

impl PartialEq for Move {
    fn eq(&self, other: &Move) -> (r: bool) {
        self.from.0 == other.from.0 && self.from.1 == other.from.1 && self.to.0 == other.to.0
            && self.to.1 == other.to.1 && same_promotion(self.promotion, other.promotion)
    }
}

impl vstd::std_specs::cmp::PartialEqSpecImpl for Move {
    open spec fn obeys_eq_spec() -> bool {
        true
    }

    open spec fn eq_spec(&self, other: &Move) -> bool {
        *self == *other
    }
}

impl Eq for Move {

}

/// The index of an on-board position: rank times eight plus file.
pub open spec fn pos_index(p: Pos) -> int {
    p.1 * 8 + p.0
}

pub open spec fn on_board(p: Pos) -> bool {
    p.0 < 8 && p.1 < 8
}

pub open spec fn index_pos(s: int) -> Pos {
    ((s % 8) as usize, (s / 8) as usize)
}

/// The square number of a position.
pub fn sq(pos: Pos) -> (r: u32)
    requires
        pos.1 * 8 + pos.0 <= u32::MAX,
    ensures
        r == pos_index(pos),
{
    (pos.1 * 8 + pos.0) as u32
}

/// The position of a square number.
pub fn sq_to_pos(sq: u32) -> (r: Pos)
    ensures
        r == index_pos(sq as int),
        sq < 64 ==> on_board(r) && pos_index(r) == sq,
{
    ((sq % 8) as usize, (sq / 8) as usize)
}

/// Square numbers and on-board positions are inverse to each other.
pub proof fn lemma_pos_index_roundtrip(p: Pos, s: int)
    ensures
        on_board(p) ==> index_pos(pos_index(p)) == p && 0 <= pos_index(p) < 64,
        0 <= s < 64 ==> pos_index(index_pos(s)) == s && on_board(index_pos(s)),
{
}

} // verus!
