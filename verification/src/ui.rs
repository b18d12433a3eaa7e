use vstd::prelude::*;
use crate::types::{Color, Move, Square, Pos, on_board};
use crate::game::Game;
use crate::legality::legal_move;
use crate::validity::castle_safe;

verus! {

/// A key the player pressed on the board view.
#[derive(Debug, Clone, Copy, PartialEq, Eq, Structural)]
pub enum Key {
    Quit,
    Enter,
    Up,
    Down,
    Left,
    Right,
    Other,
}

/// The board view's cursor and the square selected to move from.
#[derive(Debug, Clone, Copy, PartialEq)]
pub struct BoardCursor {
    pub pos: (isize, isize),
    pub selected: Option<(isize, isize)>,
}

/// A coordinate that left the board brought back: -1 to 1, 8 to 0.
pub open spec fn wrap_spec(n: int) -> int {
    if n < 0 {
        -n
    } else if n > 7 {
        n - 8
    } else {
        n
    }
}

/// Brings a coordinate that left the board back onto it.
pub fn wrap(n: isize) -> (r: isize)
    requires
        n > isize::MIN,
    ensures
        r == wrap_spec(n as int),
{
    if n < 0 {
        -n
    } else if n > 7 {
        n - 8
    } else {
        n
    }
}

/// The move from the selected square to the cursor.
pub open spec fn cursor_move(s: (isize, isize), p: (isize, isize)) -> Move {
    Move { from: (s.0 as usize, s.1 as usize), to: (p.0 as usize, p.1 as usize), promotion: None }
}

/// The player may move in `g`: the game goes on and it is not the bot's
/// turn.
pub open spec fn player_turn(g: Game, bot_color: Color) -> bool {
    &&& !crate::engine::mated(g)
    &&& !crate::engine::drawn(g)
    &&& g.to_move != bot_color
}

/// A move the player may make: from one of the side to move's pieces, valid
/// as `Game::is_valid` checks, with room in the history.
pub open spec fn player_move_ok(g: Game, m: Move) -> bool {
    &&& on_board(m.from)
    &&& g.at(m.from) != Square::blank()
    &&& g.at(m.from).side() == g.to_move
    &&& legal_move(g, g.to_move, m)
    &&& castle_safe(g, m)
    &&& g.prev_pos.prev_pos_idx < 256
}

/// Answers a key on the board view and reports whether to quit: arrows
/// move the cursor, wrapping at the edges; the first enter selects the
/// square, the second plays the move from it to the cursor when the player
/// may make it. Keys other than quitting are ignored while the game is over
/// or the bot is to move.
pub fn on_key(game: &mut Game, cur: &mut BoardCursor, key: Key, bot_color: Color) -> (quit: bool)
    requires
        old(game).sound(),
        -100 <= old(cur).pos.0 <= 100,
        -100 <= old(cur).pos.1 <= 100,
    ensures
        quit == (key == Key::Quit),
        final(game).sound(),
        (key == Key::Quit || !player_turn(*old(game), bot_color)) ==> *final(game) == *old(game) && *final(cur)
            == *old(cur),
        key != Key::Quit && player_turn(*old(game), bot_color) ==> match key {
            Key::Up => final(cur).pos == (old(cur).pos.0, wrap_spec(old(cur).pos.1 + 1) as isize),
            Key::Down => final(cur).pos == (old(cur).pos.0, wrap_spec(old(cur).pos.1 - 1) as isize),
            Key::Left => final(cur).pos == (wrap_spec(old(cur).pos.0 - 1) as isize, old(cur).pos.1),
            Key::Right => final(cur).pos == (wrap_spec(old(cur).pos.0 + 1) as isize, old(cur).pos.1),
            Key::Enter => match old(cur).selected {
                None => final(cur).selected == Some(old(cur).pos) && *final(game) == *old(game),
                Some(s) => {
                    let m = cursor_move(s, old(cur).pos);
                    &&& final(cur).selected == None::<(isize, isize)>
                    &&& (s != old(cur).pos && player_move_ok(*old(game), m)) ==> Game::moved(*old(game), m, *final(game))
                    &&& !(s != old(cur).pos && player_move_ok(*old(game), m)) ==> *final(game) == *old(game)
                },
            },
            _ => *final(game) == *old(game) && *final(cur) == *old(cur),
        },
{
    if key == Key::Quit {
        return true;
    }
    let tm = game.get_to_move();
    if game.checkmate(tm) || game.stalemate(tm) || tm == bot_color {
        return false;
    }
    let p = cur.pos;
    match key {
        Key::Up => {
            cur.pos = (p.0, wrap(p.1 + 1));
        },
        Key::Down => {
            cur.pos = (p.0, wrap(p.1 - 1));
        },
        Key::Left => {
            cur.pos = (wrap(p.0 - 1), p.1);
        },
        Key::Right => {
            cur.pos = (wrap(p.0 + 1), p.1);
        },
        Key::Enter => {
            match cur.selected {
                None => {
                    cur.selected = Some(p);
                },
                Some(s) => {
                    cur.selected = None;
                    if s.0 != p.0 || s.1 != p.1 {
                        let m = Move { from: (s.0 as usize, s.1 as usize), to: (p.0 as usize, p.1 as usize), promotion: None };
                        if m.from.0 < 8 && m.from.1 < 8 {
                            let piece = game.get(m.from);
                            if !piece.is_empty() && piece.color() == tm && game.is_valid(m)
                                && game.prev_pos.prev_pos_idx < 256 {
                                proof {
                                    crate::search::lemma_legal_move_ok(*game, m);
                                }
                                let ghost g0 = *game;
                                game.move_piece(m);
                                proof {
                                    crate::search::lemma_after_move(g0, m, *game);
                                }
                            }
                        }
                    }
                },
            }
        },
        _ => {},
    }
    false
}

} // verus!
