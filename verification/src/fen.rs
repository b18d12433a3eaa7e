use vstd::prelude::*;
use vstd::string::StrSliceExecFns;
use crate::types::{Color, PieceTy, Square, Pos, lemma_square_of};
use crate::board::{Board, board_seq};
use crate::game::{Game, Undo};

verus! {

/// The index of the first space of `s` at or after `i`, or the length.
pub open spec fn next_space(s: Seq<char>, i: int) -> int
    decreases s.len() - i,
{
    if i >= s.len() {
        s.len() as int
    } else if s[i] == ' ' {
        i
    } else {
        next_space(s, i + 1)
    }
}

/// Where field `k` of `s`, split at spaces, starts; -1 when there are
/// fewer fields.
pub open spec fn field_start(s: Seq<char>, k: nat) -> int
    decreases k,
{
    if k == 0 {
        0
    } else {
        let p = field_start(s, (k - 1) as nat);
        if p < 0 {
            -1
        } else {
            let e = next_space(s, p);
            if e < s.len() {
                e + 1
            } else {
                -1
            }
        }
    }
}

/// Field `k` of `s`, split at spaces.
pub open spec fn field(s: Seq<char>, k: nat) -> Option<Seq<char>> {
    let p = field_start(s, k);
    if p < 0 {
        None
    } else {
        Some(s.subrange(p, next_space(s, p)))
    }
}

pub open spec fn is_digit_char(c: char) -> bool {
    48 <= c as int <= 57
}

/// A piece letter: upper case for white, lower case for black.
pub open spec fn is_piece_char(c: char) -> bool {
    c == 'K' || c == 'Q' || c == 'R' || c == 'B' || c == 'N' || c == 'P' || c == 'k' || c == 'q' || c
        == 'r' || c == 'b' || c == 'n' || c == 'p'
}

/// The piece a letter stands for.
pub open spec fn piece_of_char(c: char) -> Square {
    let color = if 65 <= c as int <= 90 { Color::White } else { Color::Black };
    let kind = if c == 'K' || c == 'k' {
        PieceTy::King
    } else if c == 'Q' || c == 'q' {
        PieceTy::Queen
    } else if c == 'R' || c == 'r' {
        PieceTy::Rook
    } else if c == 'B' || c == 'b' {
        PieceTy::Bishop
    } else if c == 'N' || c == 'n' {
        PieceTy::Knight
    } else {
        PieceTy::Pawn
    };
    Square::of(kind, color)
}

/// The squares and the file and rank reached after reading the first `n`
/// letters of a piece placement, from the top rank down: a slash starts the
/// next rank down, a digit skips that many files, a letter places a piece.
pub open spec fn placement_fold(s: Seq<char>, n: nat) -> (Seq<Square>, int, int)
    decreases n,
{
    if n == 0 {
        (Seq::new(64, |k: int| Square::blank()), 0, 7)
    } else {
        let st = placement_fold(s, (n - 1) as nat);
        let c = s[n - 1];
        if c == '/' {
            (st.0, 0, st.2 - 1)
        } else if is_digit_char(c) {
            (st.0, st.1 + (c as int - 48), st.2)
        } else {
            (st.0.update(st.2 * 8 + st.1, piece_of_char(c)), st.1 + 1, st.2)
        }
    }
}

/// The first `n` letters of a piece placement can be read: a slash never
/// goes below the bottom rank, skips stay in range, and each other letter
/// is a piece placed on the board.
pub open spec fn placement_ok(s: Seq<char>, n: nat) -> bool
    decreases n,
{
    n == 0 || (placement_ok(s, (n - 1) as nat) && {
        let st = placement_fold(s, (n - 1) as nat);
        let c = s[n - 1];
        if c == '/' {
            st.2 >= 1
        } else if is_digit_char(c) {
            st.1 + (c as int - 48) <= usize::MAX
        } else {
            is_piece_char(c) && 0 <= st.1 < 8
        }
    })
}

/// The en passant field, when present and not `-`, names a square: a file
/// letter and a rank digit from one to eight.
pub open spec fn enpass_field_ok(e: Option<Seq<char>>) -> bool {
    match e {
        Some(t) => t == seq!['-'] || (t.len() == 2 && 97 <= t[0] as int <= 104 && 49 <= t[1] as int <= 56),
        None => true,
    }
}

/// A position text that can be read: its piece placement reads, and its en
/// passant field names a square.
pub open spec fn fen_ok(s: Seq<char>) -> bool {
    &&& s.len() < usize::MAX
    &&& placement_ok(field(s, 0).unwrap(), field(s, 0).unwrap().len())
    &&& enpass_field_ok(field(s, 3))
}

/// The squares a position text places its pieces on.
pub open spec fn fen_squares(s: Seq<char>) -> Seq<Square> {
    placement_fold(field(s, 0).unwrap(), field(s, 0).unwrap().len()).0
}

/// White moves when the second field is `w`, else black.
pub open spec fn fen_to_move(s: Seq<char>) -> Color {
    if field(s, 1) == Some(seq!['w']) {
        Color::White
    } else {
        Color::Black
    }
}

/// The castling rights of the third field: `Q` and `K` for white's queen
/// and king side, `q` and `k` for black's; none for `-` or no field.
pub open spec fn fen_castling(s: Seq<char>) -> [(bool, bool); 2] {
    match field(s, 2) {
        Some(c) => if c == seq!['-'] {
            [(false, false), (false, false)]
        } else {
            [(c.contains('Q'), c.contains('K')), (c.contains('q'), c.contains('k'))]
        },
        None => [(false, false), (false, false)],
    }
}

/// The en passant square of the fourth field, if any.
pub open spec fn fen_enpass(s: Seq<char>) -> Option<Pos> {
    match field(s, 3) {
        Some(e) => if e == seq!['-'] {
            None
        } else {
            Some(((e[0] as int - 97) as usize, (e[1] as int - 49) as usize))
        },
        None => None,
    }
}

/// The index of the first space of `f` at or after `i`, or its length.
pub fn find_space(f: &str, n: usize, i: usize) -> (r: usize)
    requires
        n == f@.len(),
        i <= n,
    ensures
        r == next_space(f@, i as int),
        i <= r <= n,
        forall|q: int| i <= q < r ==> f@[q] != ' ',
        r < n ==> f@[r as int] == ' ',
{
    let mut j = i;
    while j < n && f.get_char(j) != ' '
        invariant
            n == f@.len(),
            i <= j <= n,
            next_space(f@, j as int) == next_space(f@, i as int),
            forall|q: int| i <= q < j ==> f@[q] != ' ',
        decreases n - j,
    {
        j = j + 1;
    }
    j
}

/// Where field `k` of `f` starts and ends, if it has one.
fn field_range(f: &str, n: usize, k: usize) -> (r: Option<(usize, usize)>)
    requires
        n == f@.len(),
        n < usize::MAX,
    ensures
        match r {
            Some((a, b)) => field_start(f@, k as nat) == a && b == next_space(f@, a as int) && a <= b <= n,
            None => field_start(f@, k as nat) < 0,
        },
{
    let mut start: usize = 0;
    let mut j: usize = 0;
    while j < k
        invariant
            n == f@.len(),
            n < usize::MAX,
            j <= k,
            field_start(f@, j as nat) == start,
            start <= n,
        decreases k - j,
    {
        let e = find_space(f, n, start);
        if e >= n {
            proof {
                assert(field_start(f@, (j + 1) as nat) < 0);
                lemma_field_gone(f@, (j + 1) as nat, k as nat);
            }
            return None;
        }
        start = e + 1;
        j = j + 1;
    }
    let end = find_space(f, n, start);
    Some((start, end))
}

/// Once a field is missing, so are all later ones.
proof fn lemma_field_gone(s: Seq<char>, j: nat, k: nat)
    requires
        field_start(s, j) < 0,
        j <= k,
    ensures
        field_start(s, k) < 0,
    decreases k - j,
{
    if j < k {
        lemma_field_gone(s, j + 1, k);
    }
}

/// Whether the text of `f` from `a` to `b` is the single character `c`.
fn range_is(f: &str, a: usize, b: usize, c: char) -> (r: bool)
    requires
        a <= b <= f@.len(),
    ensures
        r == (f@.subrange(a as int, b as int) == seq![c]),
{
    if b > a && b - a == 1 {
        let d = f.get_char(a);
        proof {
            if d == c {
                assert(f@.subrange(a as int, b as int) =~= seq![c]);
            } else {
                assert(f@.subrange(a as int, b as int)[0] == d);
            }
        }
        d == c
    } else {
        proof {
            if f@.subrange(a as int, b as int) == seq![c] {
                assert(f@.subrange(a as int, b as int).len() == 1);
            }
        }
        false
    }
}

/// Whether the text of `f` from `a` to `b` holds `c`.
fn range_contains(f: &str, a: usize, b: usize, c: char) -> (r: bool)
    requires
        a <= b <= f@.len(),
    ensures
        r == f@.subrange(a as int, b as int).contains(c),
{
    let ghost t = f@.subrange(a as int, b as int);
    let mut i = a;
    while i < b
        invariant
            a <= i <= b <= f@.len(),
            t == f@.subrange(a as int, b as int),
            forall|j: int| a <= j < i ==> f@[j] != c,
        decreases b - i,
    {
        if f.get_char(i) == c {
            assert(t[i - a] == c);
            return true;
        }
        i = i + 1;
    }
    proof {
        assert forall|j: int| 0 <= j < t.len() implies t[j] != c by {
            assert(t[j] == f@[a + j]);
        }
    }
    false
}

/// The piece a letter stands for.
fn char_piece(c: char) -> (r: Square)
    requires
        is_piece_char(c),
    ensures
        r == piece_of_char(c),
        r.is_piece(),
{
    let color = if (c as u32) >= 65 && (c as u32) <= 90 {
        Color::White
    } else {
        Color::Black
    };
    let kind = if c == 'K' || c == 'k' {
        PieceTy::King
    } else if c == 'Q' || c == 'q' {
        PieceTy::Queen
    } else if c == 'R' || c == 'r' {
        PieceTy::Rook
    } else if c == 'B' || c == 'b' {
        PieceTy::Bishop
    } else if c == 'N' || c == 'n' {
        PieceTy::Knight
    } else {
        PieceTy::Pawn
    };
    Square::piece(kind, color)
}

/// Reads the piece placement between `0` and `end` of `f`.
fn read_placement(f: &str, end: usize) -> (b: Board)
    requires
        end <= f@.len(),
        placement_ok(f@.subrange(0, end as int), end as nat),
    ensures
        board_seq(b) == placement_fold(f@.subrange(0, end as int), end as nat).0,
        forall|k: int| 0 <= k < 64 ==> (#[trigger] board_seq(b)[k]).is_valid(),
{
    let ghost s = f@.subrange(0, end as int);
    let mut board: Board = [[Square(0); 8]; 8];
    let mut x: usize = 0;
    let mut y: usize = 7;
    let mut i: usize = 0;
    proof {
        assert(board_seq(board) =~= Seq::new(64, |k: int| Square::blank()));
    }
    while i < end
        invariant
            end <= f@.len(),
            s == f@.subrange(0, end as int),
            placement_ok(s, end as nat),
            i <= end,
            placement_fold(s, i as nat) == (board_seq(board), x as int, y as int),
            y <= 7,
            forall|k: int| 0 <= k < 64 ==> (#[trigger] board_seq(board)[k]).is_valid(),
        decreases end - i,
    {
        proof {
            lemma_placement_prefix(s, (i + 1) as nat, end as nat);
        }
        let c = f.get_char(i);
        assert(c == s[i as int]);
        let code = c as u32;
        if c == '/' {
            x = 0;
            y = y - 1;
        } else if code >= 48 && code <= 57 {
            x = x + (code - 48) as usize;
        } else {
            let p = char_piece(c);
            let ghost before = board_seq(board);
            board[y][x] = p;
            proof {
                assert(board_seq(board) =~= before.update(y * 8 + x, p));
                lemma_square_of(p.kind(), p.side());
            }
            x = x + 1;
        }
        i = i + 1;
    }
    board
}

/// A readable placement has readable prefixes.
proof fn lemma_placement_prefix(s: Seq<char>, n: nat, m: nat)
    requires
        n <= m,
        placement_ok(s, m),
    ensures
        placement_ok(s, n),
    decreases m - n,
{
    if n < m {
        lemma_placement_prefix(s, n, (m - 1) as nat);
    }
}

impl Game {
    /// Reads a position from its text: the piece placement, the side to
    /// move, the castling rights and the en passant square, space apart;
    /// fields beyond are ignored.
    pub fn from_fen(f: &str) -> (r: Game)
        requires
            fen_ok(f@),
        ensures
            r.wf(),
            r.board@ == fen_squares(f@),
            r.to_move == fen_to_move(f@),
            r.castleable == fen_castling(f@),
            r.enpass == fen_enpass(f@),
            r.hash == r.full(),
            r.full_move_clock == 0,
            r.prev_pos@ == Seq::<u64>::empty(),
            r.moves@ == Seq::<Undo>::empty(),
    {
        let n = f.unicode_len();
        let e0 = find_space(f, n, 0);
        proof {
            assert(field(f@, 0) == Some(f@.subrange(0, e0 as int)));
        }
        let board = read_placement(f, e0);
        let to_move = match field_range(f, n, 1) {
            Some((a, b)) => if range_is(f, a, b, 'w') {
                Color::White
            } else {
                Color::Black
            },
            None => Color::Black,
        };
        let castleable = match field_range(f, n, 2) {
            Some((a, b)) => if range_is(f, a, b, '-') {
                [(false, false), (false, false)]
            } else {
                let wq = range_contains(f, a, b, 'Q');
                let wk = range_contains(f, a, b, 'K');
                let bq = range_contains(f, a, b, 'q');
                let bk = range_contains(f, a, b, 'k');
                [(wq, wk), (bq, bk)]
            },
            None => [(false, false), (false, false)],
        };
        let enpass = match field_range(f, n, 3) {
            Some((a, b)) => if range_is(f, a, b, '-') {
                None
            } else {
                proof {
                    assert(f@.subrange(a as int, b as int)[0] == f@[a as int]);
                    assert(f@.subrange(a as int, b as int)[1] == f@[a + 1]);
                }
                let x = (f.get_char(a) as u32 - 97) as usize;
                let y = (f.get_char(a + 1) as u32 - 49) as usize;
                Some((x, y))
            },
            None => None,
        };
        let r = Game::new(board, castleable, enpass, to_move);
        proof {
            assert(r.castleable =~= fen_castling(f@));
        }
        r
    }
}

/// The kind on file `f` of a back rank at the start.
pub open spec fn back_rank_kind(f: int) -> PieceTy {
    if f == 0 || f == 7 {
        PieceTy::Rook
    } else if f == 1 || f == 6 {
        PieceTy::Knight
    } else if f == 2 || f == 5 {
        PieceTy::Bishop
    } else if f == 3 {
        PieceTy::Queen
    } else {
        PieceTy::King
    }
}

/// What stands on square `k` at the start of a game.
pub open spec fn start_square(k: int) -> Square {
    let r = k / 8;
    let f = k % 8;
    if r == 0 {
        Square::of(back_rank_kind(f), Color::White)
    } else if r == 1 {
        Square::of(PieceTy::Pawn, Color::White)
    } else if r == 6 {
        Square::of(PieceTy::Pawn, Color::Black)
    } else if r == 7 {
        Square::of(back_rank_kind(f), Color::Black)
    } else {
        Square::blank()
    }
}

/// The board at the start of a game.
pub fn start_board() -> (b: Board)
    ensures
        board_seq(b) == Seq::new(64, |k: int| start_square(k)),
        forall|k: int| 0 <= k < 64 ==> (#[trigger] board_seq(b)[k]).is_valid(),
{
    let e = Square::empty();
    let wp = Square::piece(PieceTy::Pawn, Color::White);
    let bp = Square::piece(PieceTy::Pawn, Color::Black);
    let white = [
        Square::piece(PieceTy::Rook, Color::White),
        Square::piece(PieceTy::Knight, Color::White),
        Square::piece(PieceTy::Bishop, Color::White),
        Square::piece(PieceTy::Queen, Color::White),
        Square::piece(PieceTy::King, Color::White),
        Square::piece(PieceTy::Bishop, Color::White),
        Square::piece(PieceTy::Knight, Color::White),
        Square::piece(PieceTy::Rook, Color::White),
    ];
    let black = [
        Square::piece(PieceTy::Rook, Color::Black),
        Square::piece(PieceTy::Knight, Color::Black),
        Square::piece(PieceTy::Bishop, Color::Black),
        Square::piece(PieceTy::Queen, Color::Black),
        Square::piece(PieceTy::King, Color::Black),
        Square::piece(PieceTy::Bishop, Color::Black),
        Square::piece(PieceTy::Knight, Color::Black),
        Square::piece(PieceTy::Rook, Color::Black),
    ];
    let b: Board = [white, [wp; 8], [e; 8], [e; 8], [e; 8], [e; 8], [bp; 8], black];
    proof {
        assert forall|k: int| 0 <= k < 64 implies #[trigger] board_seq(b)[k] == start_square(k) by {
            let r = k / 8;
            let f = k % 8;
            assert(r == 0 || r == 1 || r == 2 || r == 3 || r == 4 || r == 5 || r == 6 || r == 7);
            assert(f == 0 || f == 1 || f == 2 || f == 3 || f == 4 || f == 5 || f == 6 || f == 7);
        }
        assert(board_seq(b) =~= Seq::new(64, |k: int| start_square(k)));
        assert forall|k: int| 0 <= k < 64 implies (#[trigger] board_seq(b)[k]).is_valid() by {
            lemma_square_of(back_rank_kind(k % 8), Color::White);
            lemma_square_of(back_rank_kind(k % 8), Color::Black);
            lemma_square_of(PieceTy::Pawn, Color::White);
            lemma_square_of(PieceTy::Pawn, Color::Black);
        }
    }
    b
}

impl Default for Game {
    /// The position at the start of a game, white to move with all
    /// castling rights.
    fn default() -> (r: Self)
        ensures
            r.wf(),
            r.board@ == Seq::new(64, |k: int| start_square(k)),
            r.to_move == Color::White,
            r.castleable == [(true, true), (true, true)],
            r.enpass == None::<Pos>,
            r.hash == r.full(),
            r.full_move_clock == 0,
            r.prev_pos@ == Seq::<u64>::empty(),
            r.moves@ == Seq::<Undo>::empty(),
    {
        Game::new(start_board(), [(true, true), (true, true)], None, Color::White)
    }
}

/// Whether a position text can be read.
pub fn fen_is_readable(f: &str) -> (r: bool)
    ensures
        r == fen_ok(f@),
{
    let n = f.unicode_len();
    if n == usize::MAX {
        return false;
    }
    let e0 = find_space(f, n, 0);
    let ghost s = f@.subrange(0, e0 as int);
    proof {
        assert(field(f@, 0) == Some(s));
    }
    let mut x: usize = 0;
    let mut y: usize = 7;
    let mut i: usize = 0;
    while i < e0
        invariant
            e0 <= n,
            n == f@.len(),
            s == f@.subrange(0, e0 as int),
            field(f@, 0) == Some(s),
            s.len() == e0,
            i <= e0,
            placement_ok(s, i as nat),
            placement_fold(s, i as nat).1 == x as int,
            placement_fold(s, i as nat).2 == y as int,
            y <= 7,
        decreases e0 - i,
    {
        let c = f.get_char(i);
        assert(c == s[i as int]);
        let code = c as u32;
        if c == '/' {
            if y == 0 {
                proof {
                    lemma_not_ok_after(s, (i + 1) as nat, e0 as nat);
                }
                return false;
            }
            x = 0;
            y = y - 1;
        } else if code >= 48 && code <= 57 {
            let d = (code - 48) as usize;
            if x > usize::MAX - d {
                proof {
                    lemma_not_ok_after(s, (i + 1) as nat, e0 as nat);
                }
                return false;
            }
            x = x + d;
        } else {
            let is_piece = c == 'K' || c == 'Q' || c == 'R' || c == 'B' || c == 'N' || c == 'P' || c == 'k'
                || c == 'q' || c == 'r' || c == 'b' || c == 'n' || c == 'p';
            if !is_piece || x >= 8 {
                proof {
                    lemma_not_ok_after(s, (i + 1) as nat, e0 as nat);
                }
                return false;
            }
            x = x + 1;
        }
        i = i + 1;
    }
    match field_range(f, n, 3) {
        Some((a, b)) => {
            if range_is(f, a, b, '-') {
                return true;
            }
            let ghost t = f@.subrange(a as int, b as int);
            if b - a != 2 {
                return false;
            }
            let c0 = f.get_char(a) as u32;
            let c1 = f.get_char(a + 1) as u32;
            proof {
                assert(t[0] == f@[a as int]);
                assert(t[1] == f@[a + 1]);
            }
            97 <= c0 && c0 <= 104 && 49 <= c1 && c1 <= 56
        },
        None => true,
    }
}

/// A placement with an unreadable prefix cannot be read.
proof fn lemma_not_ok_after(s: Seq<char>, n: nat, m: nat)
    requires
        n <= m,
        !placement_ok(s, n),
    ensures
        !placement_ok(s, m),
{
    if placement_ok(s, m) {
        lemma_placement_prefix(s, n, m);
    }
}

} // verus!
