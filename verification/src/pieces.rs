use vstd::prelude::*;
use crate::bits::{has_bit, test_bit};
use crate::types::{Color, PieceTy, Square, Pos, index_pos, sq_to_pos, lemma_square_of};
use crate::game::Game;

verus! {

/// The pieces `s` on the squares of `b` below `n`, lowest square first.
pub open spec fn listed(b: u64, s: Square, n: nat) -> Seq<(Square, Pos)>
    decreases n,
{
    if n == 0 {
        Seq::empty()
    } else {
        let rest = listed(b, s, (n - 1) as nat);
        if has_bit(b, n - 1) {
            rest.push((s, index_pos(n - 1)))
        } else {
            rest
        }
    }
}

/// Side `c`'s pieces of kind `ty`, lowest square first.
pub open spec fn kind_list(g: Game, ty: PieceTy, c: Color) -> Seq<(Square, Pos)> {
    listed(g.board.pieces[c.index()][ty.code() - 1], Square::of(ty, c), 64)
}

/// Both sides' pieces of kind `ty`, white first.
pub open spec fn kind_list_both(g: Game, ty: PieceTy) -> Seq<(Square, Pos)> {
    kind_list(g, ty, Color::White) + kind_list(g, ty, Color::Black)
}

/// Side `c`'s pieces: pawns, bishops, knights, rooks, queens, then kings.
pub open spec fn side_list(g: Game, c: Color) -> Seq<(Square, Pos)> {
    kind_list(g, PieceTy::Pawn, c) + kind_list(g, PieceTy::Bishop, c) + kind_list(g, PieceTy::Knight, c)
        + kind_list(g, PieceTy::Rook, c) + kind_list(g, PieceTy::Queen, c) + kind_list(g, PieceTy::King, c)
}

/// All pieces: pawns, bishops, knights, rooks, queens, then kings, white
/// before black within each kind.
pub open spec fn all_list(g: Game) -> Seq<(Square, Pos)> {
    kind_list_both(g, PieceTy::Pawn) + kind_list_both(g, PieceTy::Bishop) + kind_list_both(
        g,
        PieceTy::Knight,
    ) + kind_list_both(g, PieceTy::Rook) + kind_list_both(g, PieceTy::Queen) + kind_list_both(
        g,
        PieceTy::King,
    )
}

/// Every entry of a listing is the listed piece.
pub proof fn lemma_listed(b: u64, s: Square, n: nat)
    ensures
        forall|j: int| 0 <= j < listed(b, s, n).len() ==> (#[trigger] listed(b, s, n)[j]).0 == s,
    decreases n,
{
    if n > 0 {
        let rest = listed(b, s, (n - 1) as nat);
        lemma_listed(b, s, (n - 1) as nat);
        assert forall|j: int| 0 <= j < listed(b, s, n).len() implies (#[trigger] listed(b, s, n)[j]).0 == s by {
            if has_bit(b, n - 1) {
                if j < rest.len() {
                    assert(listed(b, s, n)[j] == rest[j]);
                }
            } else {
                assert(listed(b, s, n)[j] == rest[j]);
            }
        }
    }
}

/// Every entry of a kind's listing is a piece.
pub proof fn lemma_kind_list(g: Game, ty: PieceTy, c: Color)
    ensures
        forall|j: int| 0 <= j < kind_list(g, ty, c).len() ==> (#[trigger] kind_list(g, ty, c)[j]).0.is_piece(),
{
    lemma_listed(g.board.pieces[c.index()][ty.code() - 1], Square::of(ty, c), 64);
    lemma_square_of(ty, c);
}

/// Every entry of the listing of all pieces is a piece.
pub proof fn lemma_all_list(g: Game)
    ensures
        forall|j: int| 0 <= j < all_list(g).len() ==> (#[trigger] all_list(g)[j]).0.is_piece(),
{
    let kinds = seq![PieceTy::Pawn, PieceTy::Bishop, PieceTy::Knight, PieceTy::Rook, PieceTy::Queen, PieceTy::King];
    assert forall|ty: PieceTy| forall|j: int| 0 <= j < #[trigger] kind_list_both(g, ty).len() ==> kind_list_both(g, ty)[j].0.is_piece() by {
        lemma_kind_list(g, ty, Color::White);
        lemma_kind_list(g, ty, Color::Black);
        assert forall|j: int| 0 <= j < kind_list_both(g, ty).len() implies kind_list_both(g, ty)[j].0.is_piece() by {
            if j < kind_list(g, ty, Color::White).len() {
                assert(kind_list_both(g, ty)[j] == kind_list(g, ty, Color::White)[j]);
            } else {
                assert(kind_list_both(g, ty)[j] == kind_list(g, ty, Color::Black)[j - kind_list(g, ty, Color::White).len()]);
            }
        }
    }
    let l1 = kind_list_both(g, PieceTy::Pawn);
    let l2 = kind_list_both(g, PieceTy::Bishop);
    let l3 = kind_list_both(g, PieceTy::Knight);
    let l4 = kind_list_both(g, PieceTy::Rook);
    let l5 = kind_list_both(g, PieceTy::Queen);
    let l6 = kind_list_both(g, PieceTy::King);
    assert forall|j: int| 0 <= j < all_list(g).len() implies (#[trigger] all_list(g)[j]).0.is_piece() by {
        let a = all_list(g);
        if j < l1.len() {
            assert(a[j] == l1[j]);
        } else if j < l1.len() + l2.len() {
            assert(a[j] == l2[j - l1.len()]);
        } else if j < l1.len() + l2.len() + l3.len() {
            assert(a[j] == l3[j - l1.len() - l2.len()]);
        } else if j < l1.len() + l2.len() + l3.len() + l4.len() {
            assert(a[j] == l4[j - l1.len() - l2.len() - l3.len()]);
        } else if j < l1.len() + l2.len() + l3.len() + l4.len() + l5.len() {
            assert(a[j] == l5[j - l1.len() - l2.len() - l3.len() - l4.len()]);
        } else {
            assert(a[j] == l6[j - l1.len() - l2.len() - l3.len() - l4.len() - l5.len()]);
        }
    }
}

impl Game {
    /// Side `c`'s pieces of kind `ty` with their positions, lowest square
    /// first.
    pub fn get_all_pieces_ty_color(&self, ty: PieceTy, c: Color) -> (r: Vec<(Square, Pos)>)
        ensures
            r@ == kind_list(*self, ty, c),
    {
        let pieces = self.board.pieces[c.to_index()][(ty.to_u8() - 1) as usize];
        let s = Square::piece(ty, c);
        let mut out: Vec<(Square, Pos)> = Vec::new();
        let mut i: u32 = 0;
        while i < 64
            invariant
                i <= 64,
                pieces == self.board.pieces[c.index()][ty.code() - 1],
                s == Square::of(ty, c),
                out@ == listed(pieces, s, i as nat),
            decreases 64 - i,
        {
            if test_bit(pieces, i) {
                out.push((s, sq_to_pos(i)));
            }
            i = i + 1;
        }
        out
    }

    /// Both sides' pieces of kind `ty`, white first.
    pub fn get_all_pieces_ty(&self, ty: PieceTy) -> (r: Vec<(Square, Pos)>)
        ensures
            r@ == kind_list_both(*self, ty),
    {
        let mut r = self.get_all_pieces_ty_color(ty, Color::White);
        let mut b = self.get_all_pieces_ty_color(ty, Color::Black);
        r.append(&mut b);
        r
    }

    /// Side `c`'s pieces: pawns, bishops, knights, rooks, queens, then kings.
    pub fn get_all_pieces_color(&self, c: Color) -> (r: Vec<(Square, Pos)>)
        ensures
            r@ == side_list(*self, c),
    {
        let mut r = self.get_all_pieces_ty_color(PieceTy::Pawn, c);
        let mut b = self.get_all_pieces_ty_color(PieceTy::Bishop, c);
        r.append(&mut b);
        let mut n = self.get_all_pieces_ty_color(PieceTy::Knight, c);
        r.append(&mut n);
        let mut k = self.get_all_pieces_ty_color(PieceTy::Rook, c);
        r.append(&mut k);
        let mut q = self.get_all_pieces_ty_color(PieceTy::Queen, c);
        r.append(&mut q);
        let mut g = self.get_all_pieces_ty_color(PieceTy::King, c);
        r.append(&mut g);
        r
    }

    /// All pieces: pawns, bishops, knights, rooks, queens, then kings, white
    /// before black within each kind.
    pub fn get_all_pieces(&self) -> (r: Vec<(Square, Pos)>)
        ensures
            r@ == all_list(*self),
    {
        let mut r = self.get_all_pieces_ty(PieceTy::Pawn);
        let mut b = self.get_all_pieces_ty(PieceTy::Bishop);
        r.append(&mut b);
        let mut n = self.get_all_pieces_ty(PieceTy::Knight);
        r.append(&mut n);
        let mut k = self.get_all_pieces_ty(PieceTy::Rook);
        r.append(&mut k);
        let mut q = self.get_all_pieces_ty(PieceTy::Queen);
        r.append(&mut q);
        let mut g = self.get_all_pieces_ty(PieceTy::King);
        r.append(&mut g);
        r
    }

    /// All pieces of side `c`, in the order `get_all_pieces` lists them.
    pub fn get_pieces_color(&self, c: Color) -> (r: Vec<(Square, Pos)>)
        ensures
            r@ == all_list(*self).filter(|x: (Square, Pos)| x.0.side() == c),
    {
        let all = self.get_all_pieces();
        proof {
            lemma_all_list(*self);
        }
        let ghost pred = |x: (Square, Pos)| x.0.side() == c;
        let mut out: Vec<(Square, Pos)> = Vec::new();
        let mut i: usize = 0;
        while i < all.len()
            invariant
                i <= all@.len(),
                all@ == all_list(*self),
                pred == (|x: (Square, Pos)| x.0.side() == c),
                out@ == all@.take(i as int).filter(pred),
                forall|j: int| 0 <= j < all@.len() ==> (#[trigger] all@[j]).0.is_piece(),
            decreases all@.len() - i,
        {
            let x = all[i];
            assert(x.0.is_piece());
            proof {
                assert(all@.take(i as int + 1) =~= all@.take(i as int).push(x));
                all@.take(i as int).lemma_filter_push(x, pred);
            }
            if x.0.color() == c {
                out.push(x);
            }
            i = i + 1;
        }
        proof {
            assert(all@.take(all@.len() as int) =~= all@);
        }
        out
    }
}

} // verus!
