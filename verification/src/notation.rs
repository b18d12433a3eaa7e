use vstd::prelude::*;
use vstd::string::{StrSliceExecFns, StringExecFns};
use crate::types::{Move, Pos, PieceTy, on_board};

verus! {

/// The letter of file `x`.
pub open spec fn file_char(x: int) -> char {
    (x + 97) as char
}

/// The character of digit `d`.
pub open spec fn digit_char(d: int) -> char {
    (d + 48) as char
}

/// The decimal digits of `n`, most significant first.
pub open spec fn decimal(n: nat) -> Seq<char>
    decreases n,
{
    if n < 10 {
        seq![digit_char(n as int)]
    } else {
        decimal(n / 10).push(digit_char((n % 10) as int))
    }
}

/// A position as a file letter and the rank counted from one.
pub open spec fn square_text(p: Pos) -> Seq<char> {
    seq![file_char(p.0 as int)] + decimal((p.1 + 1) as nat)
}

/// The letter of a promotion, if any.
pub open spec fn promo_text(p: Option<PieceTy>) -> Seq<char> {
    match p {
        Some(PieceTy::Queen) => seq!['q'],
        Some(PieceTy::Rook) => seq!['r'],
        Some(PieceTy::Bishop) => seq!['b'],
        Some(PieceTy::Knight) => seq!['n'],
        _ => Seq::empty(),
    }
}

/// A move in coordinate notation, such as `e2e4` or `e7e8q`.
pub open spec fn move_text(m: Move) -> Seq<char> {
    square_text(m.from) + square_text(m.to) + promo_text(m.promotion)
}

/// A promotion that can be written: to a queen, rook, bishop or knight.
pub open spec fn writable_promotion(p: Option<PieceTy>) -> bool {
    match p {
        Some(PieceTy::Pawn) | Some(PieceTy::King) => false,
        _ => true,
    }
}

pub open spec fn is_file_char(c: char) -> bool {
    97 <= c as int <= 104
}

/// A rank digit from one to nine.
pub open spec fn is_rank_char(c: char) -> bool {
    49 <= c as int <= 57
}

pub open spec fn is_promo_char(c: char) -> bool {
    c == 'q' || c == 'r' || c == 'n' || c == 'b'
}

/// Text that reads as a move: two squares, each a file letter and a
/// single rank digit from one to nine, and an optional promotion letter.
pub open spec fn uci_text(s: Seq<char>) -> bool {
    &&& (s.len() == 4 || s.len() == 5)
    &&& is_file_char(s[0])
    &&& is_rank_char(s[1])
    &&& is_file_char(s[2])
    &&& is_rank_char(s[3])
    &&& (s.len() == 5 ==> is_promo_char(s[4]))
}

pub open spec fn promo_of(c: char) -> PieceTy {
    if c == 'q' {
        PieceTy::Queen
    } else if c == 'r' {
        PieceTy::Rook
    } else if c == 'n' {
        PieceTy::Knight
    } else {
        PieceTy::Bishop
    }
}

/// The move that text in coordinate notation names.
pub open spec fn parse_move(s: Seq<char>) -> Move {
    Move {
        from: ((s[0] as int - 97) as usize, (s[1] as int - 49) as usize),
        to: ((s[2] as int - 97) as usize, (s[3] as int - 49) as usize),
        promotion: if s.len() == 5 {
            Some(promo_of(s[4]))
        } else {
            None
        },
    }
}

/// The letter of file `x`, for `x < 8`.
fn file_str(x: usize) -> (r: &'static str)
    requires
        x < 8,
    ensures
        r@ == seq![file_char(x as int)],
{
    proof {
        reveal_strlit("a");
        reveal_strlit("b");
        reveal_strlit("c");
        reveal_strlit("d");
        reveal_strlit("e");
        reveal_strlit("f");
        reveal_strlit("g");
        reveal_strlit("h");
    }
    match x {
        0 => "a",
        1 => "b",
        2 => "c",
        3 => "d",
        4 => "e",
        5 => "f",
        6 => "g",
        _ => "h",
    }
}

/// The character of digit `d`, for `d < 10`.
fn digit_str(d: usize) -> (r: &'static str)
    requires
        d < 10,
    ensures
        r@ == seq![digit_char(d as int)],
{
    proof {
        reveal_strlit("0");
        reveal_strlit("1");
        reveal_strlit("2");
        reveal_strlit("3");
        reveal_strlit("4");
        reveal_strlit("5");
        reveal_strlit("6");
        reveal_strlit("7");
        reveal_strlit("8");
        reveal_strlit("9");
    }
    match d {
        0 => "0",
        1 => "1",
        2 => "2",
        3 => "3",
        4 => "4",
        5 => "5",
        6 => "6",
        7 => "7",
        8 => "8",
        _ => "9",
    }
}

/// Appends the decimal digits of `n`.
fn push_decimal(s: &mut String, n: usize)
    ensures
        final(s)@ == old(s)@ + decimal(n as nat),
    decreases n,
{
    if n >= 10 {
        push_decimal(s, n / 10);
        s.append(digit_str(n % 10));
        assert(decimal(n as nat) == decimal((n / 10) as nat).push(digit_char((n % 10) as int)));
        assert(s@ =~= old(s)@ + decimal(n as nat));
    } else {
        s.append(digit_str(n));
    }
}

/// Appends a position in coordinate notation.
fn push_square(s: &mut String, p: Pos)
    requires
        p.0 < 8,
        p.1 < usize::MAX,
    ensures
        final(s)@ == old(s)@ + square_text(p),
{
    s.append(file_str(p.0));
    push_decimal(s, p.1 + 1);
    assert(s@ =~= old(s)@ + square_text(p));
}

impl Move {
    /// Reads a move in coordinate notation, such as `e2e4` or `e7e8q`.
    pub fn from_str(m: &str) -> (r: Move)
        requires
            uci_text(m@),
        ensures
            r == parse_move(m@),
    {
        let parse_file = |c: char| -> (x: usize)
            requires
                is_file_char(c),
            ensures
                x == c as int - 97,
            { (c as u32 - 97) as usize };
        let parse_rank = |c: char| -> (y: usize)
            requires
                is_rank_char(c),
            ensures
                y == c as int - 49,
            { (c as u32 - 49) as usize };
        let from = (parse_file(m.get_char(0)), parse_rank(m.get_char(1)));
        let to = (parse_file(m.get_char(2)), parse_rank(m.get_char(3)));
        let promotion = if m.unicode_len() == 5 {
            let c = m.get_char(4);
            Some(
                if c == 'q' {
                    PieceTy::Queen
                } else if c == 'r' {
                    PieceTy::Rook
                } else if c == 'n' {
                    PieceTy::Knight
                } else {
                    PieceTy::Bishop
                },
            )
        } else {
            None
        };
        Move { from, to, promotion }
    }

    /// Writes the move in coordinate notation.
    pub fn to_string(self) -> (r: String)
        requires
            self.from.0 < 8,
            self.to.0 < 8,
            self.from.1 < usize::MAX,
            self.to.1 < usize::MAX,
            writable_promotion(self.promotion),
        ensures
            r@ == move_text(self),
    {
        let mut s = String::new();
        push_square(&mut s, self.from);
        push_square(&mut s, self.to);
        proof {
            reveal_strlit("q");
            reveal_strlit("r");
            reveal_strlit("b");
            reveal_strlit("n");
            reveal_strlit("");
        }
        let promo: &str = match self.promotion {
            Some(PieceTy::Queen) => "q",
            Some(PieceTy::Rook) => "r",
            Some(PieceTy::Bishop) => "b",
            Some(PieceTy::Knight) => "n",
            _ => "",
        };
        s.append(promo);
        assert(s@ =~= move_text(self));
        s
    }
}

/// Writing an on-board move with a writable promotion and reading it back
/// gives the move again.
pub proof fn law_move_text_roundtrip(m: Move)
    requires
        on_board(m.from),
        on_board(m.to),
        writable_promotion(m.promotion),
    ensures
        uci_text(move_text(m)),
        parse_move(move_text(m)) == m,
{
    let t = move_text(m);
    assert(decimal((m.from.1 + 1) as nat) == seq![digit_char((m.from.1 + 1) as int)]);
    assert(decimal((m.to.1 + 1) as nat) == seq![digit_char((m.to.1 + 1) as int)]);
    assert(t[0] == file_char(m.from.0 as int));
    assert(t[1] == digit_char((m.from.1 + 1) as int));
    assert(t[2] == file_char(m.to.0 as int));
    assert(t[3] == digit_char((m.to.1 + 1) as int));
    match m.promotion {
        Some(p) => {
            assert(t.len() == 5);
            assert(t[4] == promo_text(m.promotion)[0]);
        },
        None => {
            assert(t.len() == 4);
        },
    }
}

/// Reading text in coordinate notation and writing the move back gives the
/// text again.
pub proof fn law_parse_text_roundtrip(s: Seq<char>)
    requires
        uci_text(s),
    ensures
        parse_move(s).from.0 < 8,
        parse_move(s).to.0 < 8,
        writable_promotion(parse_move(s).promotion),
        move_text(parse_move(s)) == s,
{
    let m = parse_move(s);
    assert(decimal((m.from.1 + 1) as nat) == seq![digit_char((m.from.1 + 1) as int)]);
    assert(decimal((m.to.1 + 1) as nat) == seq![digit_char((m.to.1 + 1) as int)]);
    assert(move_text(m) =~= s);
}

/// The promotion letter of a five-letter move names the piece by the
/// lower-case initial of its name, `n` for the knight: `q` a queen, `r` a
/// rook, `b` a bishop, `n` a knight.
pub proof fn law_promotion_letter_read(s: Seq<char>)
    requires
        uci_text(s),
        s.len() == 5,
    ensures
        s[4] == 'q' <==> parse_move(s).promotion == Some(PieceTy::Queen),
        s[4] == 'r' <==> parse_move(s).promotion == Some(PieceTy::Rook),
        s[4] == 'b' <==> parse_move(s).promotion == Some(PieceTy::Bishop),
        s[4] == 'n' <==> parse_move(s).promotion == Some(PieceTy::Knight),
{
}

/// Writing a move with a promotion ends it in the letter of the piece: `q`
/// for a queen, `r` for a rook, `b` for a bishop, `n` for a knight; a move
/// without one is written in four letters.
pub proof fn law_promotion_letter_write(m: Move)
    requires
        on_board(m.from),
        on_board(m.to),
        writable_promotion(m.promotion),
    ensures
        m.promotion == Some(PieceTy::Queen) ==> move_text(m).len() == 5 && move_text(m)[4] == 'q',
        m.promotion == Some(PieceTy::Rook) ==> move_text(m).len() == 5 && move_text(m)[4] == 'r',
        m.promotion == Some(PieceTy::Bishop) ==> move_text(m).len() == 5 && move_text(m)[4] == 'b',
        m.promotion == Some(PieceTy::Knight) ==> move_text(m).len() == 5 && move_text(m)[4] == 'n',
        m.promotion is None ==> move_text(m).len() == 4,
{
    assert(decimal((m.from.1 + 1) as nat) == seq![digit_char((m.from.1 + 1) as int)]);
    assert(decimal((m.to.1 + 1) as nat) == seq![digit_char((m.to.1 + 1) as int)]);
}

/// Whether text reads as a move in coordinate notation.
pub fn uci_is_readable(m: &str) -> (r: bool)
    ensures
        r == uci_text(m@),
{
    let n = m.unicode_len();
    if n != 4 && n != 5 {
        return false;
    }
    let a = m.get_char(0) as u32;
    let b = m.get_char(1) as u32;
    let c = m.get_char(2) as u32;
    let d = m.get_char(3) as u32;
    if !(97 <= a && a <= 104 && 49 <= b && b <= 57 && 97 <= c && c <= 104 && 49 <= d && d <= 57) {
        return false;
    }
    if n == 5 {
        let p = m.get_char(4);
        return p == 'q' || p == 'r' || p == 'n' || p == 'b';
    }
    true
}

} // verus!
