use vstd::prelude::*;
use vstd::string::StrSliceExecFns;
use std::time::Duration;
use crate::types::{Color, Move};
use crate::game::Game;
use crate::legality::legal_move;
use crate::notation::{uci_text, parse_move, uci_is_readable};
use crate::fen::{fen_ok, fen_is_readable, fen_squares, fen_to_move, fen_castling, fen_enpass, start_square};
use crate::types::{Square, Pos};
use crate::game::Undo;
use crate::board::lemma_view_determines;
use crate::engine::{duration_nanos, max_duration_nanos};
use crate::engine::{Engine, CalcConstraint, base_move_spec};
use crate::search::lemma_same_position;
use crate::perft::{PositionKey, position_key, key_game, key_after, lemma_key_game, lemma_key_after};

verus! {

/// The space-separated words of the first `n` characters of `s`.
pub open spec fn words(s: Seq<char>, n: nat) -> Seq<Seq<char>>
    decreases n,
{
    if n == 0 {
        Seq::empty()
    } else {
        let prev = words(s, (n - 1) as nat);
        let c = s[n - 1];
        if c == ' ' {
            prev
        } else if n == 1 || s[n - 2] == ' ' {
            prev.push(seq![c])
        } else {
            prev.update(prev.len() - 1, prev.last().push(c))
        }
    }
}

/// The words of `s`.
pub open spec fn all_words(s: Seq<char>) -> Seq<Seq<char>> {
    words(s, s.len())
}

/// The moves a game recorded after the first `base` of its history are
/// those the first `k` words name, in order.
pub open spec fn records_words(g: Game, base: nat, ws: Seq<Seq<char>>, k: nat) -> bool {
    &&& g.moves@.len() == base + k
    &&& k <= ws.len()
    &&& forall|j: int| 0 <= j < k ==> #[trigger] g.moves@[base + j].m == parse_move(ws[j])
}

/// The words of `ws` from number `i` on can be played one after another
/// from the game with key `k`: each reads as a move that is legal in its
/// turn, with room in the history for it.
pub open spec fn words_playable(k: PositionKey, ws: Seq<Seq<char>>, i: nat) -> bool
    decreases ws.len() - i,
{
    if i >= ws.len() {
        true
    } else {
        let g = key_game(k);
        let m = parse_move(ws[i as int]);
        &&& uci_text(ws[i as int])
        &&& g.prev_pos.prev_pos_idx < 256
        &&& legal_move(g, g.to_move, m)
        &&& words_playable(key_after(k, m), ws, i + 1)
    }
}

/// Playing the words stopped after the first `k` of them: the position is
/// not sound, or word `k` does not read as a move, the history is full, or
/// the move is not legal.
pub open spec fn stuck_at(g: Game, base: nat, ws: Seq<Seq<char>>, k: nat) -> bool {
    &&& records_words(g, base, ws, k)
    &&& (!g.sound() || (k < ws.len() && (!uci_text(ws[k as int]) || g.prev_pos.prev_pos_idx >= 256
        || !legal_move(g, g.to_move, parse_move(ws[k as int])))))
}

/// The text after the last space of `s`.
pub open spec fn last_word(s: Seq<char>) -> Seq<char> {
    s.subrange(last_space_before(s, s.len() as int) + 1, s.len() as int)
}

/// The index of the last space of `s` before `i`, or -1.
pub open spec fn last_space_before(s: Seq<char>, i: int) -> int
    decreases i,
{
    if i <= 0 {
        -1
    } else if s[i - 1] == ' ' {
        i - 1
    } else {
        last_space_before(s, i - 1)
    }
}

/// A word that runs from `a` to `b` adds itself to the words before it.
proof fn lemma_word_run(s: Seq<char>, a: int, b: int)
    requires
        0 <= a < b <= s.len(),
        a == 0 || s[a - 1] == ' ',
        forall|j: int| a <= j < b ==> s[j] != ' ',
    ensures
        words(s, b as nat) == words(s, a as nat).push(s.subrange(a, b)),
    decreases b - a,
{
    if b == a + 1 {
        assert(s.subrange(a, b) =~= seq![s[a]]);
    } else {
        lemma_word_run(s, a, b - 1);
        assert(s.subrange(a, b) =~= s.subrange(a, b - 1).push(s[b - 1]));
        let w = words(s, (b - 1) as nat);
        assert(w.last() == s.subrange(a, b - 1));
        assert(w.update(w.len() - 1, w.last().push(s[b - 1])) =~= words(s, a as nat).push(s.subrange(a, b)));
    }
}

impl Game {
    /// Plays the moves that the space-separated words of `moves` name, in
    /// order, as long as each can be read and is legal in its turn; reports
    /// whether all were played.
    pub fn play_words(&mut self, moves: &str) -> (r: bool)
        ensures
            r ==> final(self).sound(),
            r ==> records_words(*final(self), old(self).moves@.len(), all_words(moves@), all_words(moves@).len()),
            !r ==> exists|k: nat| stuck_at(*final(self), old(self).moves@.len(), all_words(moves@), k),
            final(self).moves@.subrange(0, old(self).moves@.len() as int) == old(self).moves@,
            r == (old(self).sound() && words_playable(position_key(*old(self)), all_words(moves@), 0)),
    {
        let ghost s = moves@;
        let ghost base = self.moves@.len();
        let ghost start = self.moves@;
        let ghost g0 = *self;
        let ghost key0 = position_key(g0);
        let n = moves.unicode_len();
        let mut i: usize = 0;
        let mut k: usize = 0;
        while i < n
            invariant
                s == moves@,
                n == s.len(),
                i <= n,
                i == 0 || i == n || s[i - 1] == ' ' || s[i as int] == ' ',
                k == words(s, i as nat).len(),
                records_words(*self, base, words(s, i as nat), k as nat),
                self.moves@.subrange(0, base as int) == start,
                self.moves@.len() >= base,
                base == start.len(),
                start == old(self).moves@,
                g0 == *old(self),
                key0 == position_key(g0),
                !g0.sound() ==> k == 0 && *self == g0,
                g0.sound() ==> self.sound() && (words_playable(key0, all_words(s), 0) == words_playable(
                    position_key(*self),
                    all_words(s),
                    k as nat,
                )),
            decreases n - i,
        {
            if moves.get_char(i) == ' ' {
                i = i + 1;
                continue;
            }
            let j = crate::fen::find_space(moves, n, i);
            proof {
                lemma_word_run(s, i as int, j as int);
                if j < n {
                    lemma_words_prefix(s, j as nat, n as nat);
                }
            }
            let w = moves.substring_char(i, j);
            let ghost ws = words(s, j as nat);
            assert(ws[k as int] == w@);
            proof {
                assert(all_words(s)[k as int] == w@);
                lemma_key_game(*self);
                lemma_same_position(*self, key_game(position_key(*self)));
            }
            if !self.is_sound() || !uci_is_readable(w) || self.prev_pos.prev_pos_idx >= 256 {
                proof {
                    assert(all_words(s)[k as int] == w@);
                    assert(records_words(*self, base, all_words(s), k as nat));
                    assert(stuck_at(*self, base, all_words(s), k as nat));
                }
                return false;
            }
            let m = Move::from_str(w);
            let legal = self.get_all_moves(self.get_to_move());
            if !crate::search::contains_move(&legal, m) {
                proof {
                    assert(all_words(s)[k as int] == w@);
                    assert(records_words(*self, base, all_words(s), k as nat));
                    assert(stuck_at(*self, base, all_words(s), k as nat));
                }
                return false;
            }
            proof {
                crate::search::lemma_legal_move_ok(*self, m);
            }
            let ghost before = self.moves@;
            let ghost cur = *self;
            self.move_piece(m);
            proof {
                lemma_key_after(cur, cur, m, *self);
                crate::search::lemma_after_move(cur, m, *self);
                assert(self.moves@ == before.push(self.moves@.last()));
                assert forall|q: int| 0 <= q < k + 1 implies #[trigger] self.moves@[base + q].m == parse_move(ws[q]) by {
                    if q < k {
                        assert(self.moves@[base + q] == before[base + q]);
                    }
                }
                assert(self.moves@.subrange(0, base as int) =~= before.subrange(0, base as int));
            }
            k = k + 1;
            i = j;
        }
        proof {
            assert(records_words(*self, base, all_words(s), k as nat));
        }
        if !self.is_sound() {
            assert(stuck_at(*self, base, all_words(s), k as nat));
            return false;
        }
        true
    }
}

/// The words before a space stay the first words of every longer prefix.
proof fn lemma_words_prefix(s: Seq<char>, a: nat, b: nat)
    requires
        a < b <= s.len(),
        s[a as int] == ' ',
    ensures
        words(s, a).len() <= words(s, b).len(),
        forall|j: int| 0 <= j < words(s, a).len() ==> #[trigger] words(s, b)[j] == words(s, a)[j],
        words(s, b).len() == words(s, a).len() ==> s[b - 1] == ' ',
    decreases b - a,
{
    if b > a + 1 {
        lemma_words_prefix(s, a, (b - 1) as nat);
    }
}

/// Whether `s` reads exactly as `lit`.
pub fn text_is(s: &str, lit: &str) -> (r: bool)
    ensures
        r == (s@ == lit@),
{
    let n = s.unicode_len();
    if n != lit.unicode_len() {
        return false;
    }
    let mut i: usize = 0;
    while i < n
        invariant
            n == s@.len(),
            n == lit@.len(),
            i <= n,
            forall|j: int| 0 <= j < i ==> s@[j] == lit@[j],
        decreases n - i,
    {
        if s.get_char(i) != lit.get_char(i) {
            return false;
        }
        i = i + 1;
    }
    assert(s@ =~= lit@);
    true
}

/// Where the last word of `s` starts: just after its last space.
fn last_word_start(s: &str, n: usize) -> (r: usize)
    requires
        n == s@.len(),
    ensures
        r == last_space_before(s@, n as int) + 1,
        r <= n,
{
    let mut i = n;
    while i > 0 && s.get_char(i - 1) != ' '
        invariant
            n == s@.len(),
            i <= n,
            last_space_before(s@, i as int) == last_space_before(s@, n as int),
        decreases i,
    {
        i = i - 1;
    }
    i
}

/// The game a full game description starts from: the starting position
/// for `startpos`, else the position the text describes, if it reads.
pub open spec fn start_spec(fen: Seq<char>) -> bool {
    fen == "startpos"@ || fen_ok(fen)
}

/// `g` is a game with the given squares, side to move, castling rights and
/// en passant square, its hash in step and no history.
pub open spec fn starts_as(g: Game, sq: Seq<Square>, c: Color, rights: [(bool, bool); 2], ep: Option<Pos>) -> bool {
    &&& g.wf()
    &&& g.board@ == sq
    &&& g.to_move == c
    &&& g.castleable == rights
    &&& g.enpass == ep
    &&& g.hash == g.full()
    &&& g.full_move_clock == 0
    &&& g.prev_pos@ == Seq::<u64>::empty()
    &&& g.moves@ == Seq::<Undo>::empty()
}

/// `g` is the game a full game description starting from `fen` begins
/// with: the starting position for `startpos`, else the position the text
/// describes.
pub open spec fn starts_from(fen: Seq<char>, g: Game) -> bool {
    if fen == "startpos"@ {
        starts_as(g, Seq::new(64, |k: int| start_square(k)), Color::White, [(true, true), (true, true)], None)
    } else {
        starts_as(g, fen_squares(fen), fen_to_move(fen), fen_castling(fen), fen_enpass(fen))
    }
}

/// The key of the game a full game description starting from `fen` begins with.
pub open spec fn start_key(fen: Seq<char>) -> PositionKey {
    position_key(choose|g: Game| starts_from(fen, g))
}

/// All games a description starts from share one key.
pub proof fn lemma_start_key(fen: Seq<char>, g: Game)
    requires
        starts_from(fen, g),
    ensures
        position_key(g) == start_key(fen),
{
    let h = choose|h: Game| starts_from(fen, h);
    assert(starts_from(fen, h));
    lemma_view_determines(g.board, h.board);
    assert(g.prev_pos@.len() == g.prev_pos.prev_pos_idx);
    assert(h.prev_pos@.len() == h.prev_pos.prev_pos_idx);
}

/// The game a full game description starts from: the starting position
/// for `startpos`, else the position the text describes; `None` when the
/// text does not read.
pub fn start_game(initial_fen: &str) -> (r: Option<Game>)
    ensures
        r is Some <==> start_spec(initial_fen@),
        r matches Some(g) ==> starts_from(initial_fen@, g),
{
    if text_is(initial_fen, "startpos") {
        Some(Game::default())
    } else if fen_is_readable(initial_fen) {
        Some(Game::from_fen(initial_fen))
    } else {
        None
    }
}

/// What the bot does after an update of its game.
#[derive(Debug, Clone, Copy, PartialEq)]
pub enum BotAction {
    /// The game is over.
    Finish,
    /// Nothing to do until the next update.
    Wait,
    /// Send this move.
    Play(Move),
}

/// The clock increment a full game description gives the bot, in
/// nanoseconds: ten seconds without a clock.
pub open spec fn clock_inc_nanos(clock: Option<(Duration, Duration)>) -> int {
    match clock {
        Some(c) => duration_nanos(c.0) as int,
        None => 10000000000,
    }
}

/// The initial clock time a full game description gives the bot, in
/// nanoseconds: none without a clock.
pub open spec fn clock_init_nanos(clock: Option<(Duration, Duration)>) -> int {
    match clock {
        Some(c) => duration_nanos(c.1) as int,
        None => 0,
    }
}

/// The think time the clock gives, a sixtieth of the initial time plus the
/// increment less 300 ms, is neither negative nor too long to hold.
pub open spec fn clock_ok(clock: Option<(Duration, Duration)>) -> bool {
    let per = clock_init_nanos(clock) / 60 + clock_inc_nanos(clock);
    &&& per >= 300000000
    &&& per <= max_duration_nanos()
}

/// Sets up the bot's game from a full game description: the think time
/// from the clock's increment and initial time (ten seconds and none
/// without a clock), the starting position, and the moves so far. `None`
/// when the think time would be negative or too long, the position does
/// not read or is not sound, or a move cannot be played.
pub fn on_game_full(
    engine: &mut Engine,
    clock: Option<(Duration, Duration)>,
    initial_fen: &str,
    moves: &str,
) -> (r: Option<Game>)
    ensures
        final(engine).cached() == old(engine).cached(),
        final(engine).wf() == old(engine).wf(),
        clock_ok(clock) ==> (final(engine).limit() matches CalcConstraint::Time(t) && duration_nanos(t)
            == clock_init_nanos(clock) / 60 + clock_inc_nanos(clock) - 300000000),
        !clock_ok(clock) ==> final(engine).limit() == old(engine).limit(),
        r is Some <==> (clock_ok(clock) && start_spec(initial_fen@) && key_game(start_key(initial_fen@)).sound()
            && words_playable(start_key(initial_fen@), all_words(moves@), 0)),
        r matches Some(g) ==> g.sound() && records_words(g, 0, all_words(moves@), all_words(moves@).len()),
{
    let (inc, init) = match clock {
        Some(c) => c,
        None => (crate::engine::seconds(10), crate::engine::seconds(0)),
    };
    if !engine.try_set_think_time(inc, init) {
        return None;
    }
    let mut game = match start_game(initial_fen) {
        Some(g) => g,
        None => {
            return None;
        },
    };
    proof {
        lemma_start_key(initial_fen@, game);
        lemma_key_game(game);
        lemma_same_position(game, key_game(position_key(game)));
    }
    if !game.play_words(moves) {
        return None;
    }
    Some(game)
}

/// Answers an update of the game: finishes when the game is no longer
/// going on; otherwise plays the last move of the list and, when the bot
/// is to move, searches and answers with its best move. `None` when the
/// last move cannot be played, or the search finds no move.
#[verifier::rlimit(40)]
pub fn on_game_state(
    engine: &mut Engine,
    game: &mut Game,
    bot_color: Color,
    started: bool,
    moves: &str,
) -> (r: Option<BotAction>)
    requires
        old(engine).wf(),
    ensures
        final(engine).wf(),
        !started ==> r == Some(BotAction::Finish) && *final(game) == *old(game),
        started && r is Some ==> {
            let m = parse_move(last_word(moves@));
            &&& old(game).sound()
            &&& uci_text(last_word(moves@))
            &&& legal_move(*old(game), old(game).to_move, m)
            &&& final(game).moves@ == old(game).moves@.push(old(game).undo_record(m))
            &&& final(game).to_move == old(game).to_move.opposite()
            &&& final(game).sound()
        },
        started && r is Some && old(game).to_move.opposite() != bot_color ==> r == Some(BotAction::Wait),
        started && r is Some && old(game).to_move.opposite() == bot_color ==> (r matches Some(BotAction::Play(b))
            && legal_move(*final(game), final(game).to_move, b)),
        started && (!old(game).sound() || !uci_text(last_word(moves@)) || old(game).prev_pos.prev_pos_idx >= 256
            || !legal_move(*old(game), old(game).to_move, parse_move(last_word(moves@)))) ==> r is None
            && *final(game) == *old(game),
        started && old(game).sound() && uci_text(last_word(moves@)) && old(game).prev_pos.prev_pos_idx < 256
            && legal_move(*old(game), old(game).to_move, parse_move(last_word(moves@))) ==> {
            &&& old(game).to_move.opposite() != bot_color ==> r == Some(BotAction::Wait)
            &&& old(game).to_move.opposite() == bot_color && !(exists|b: Move| legal_move(
                *final(game),
                final(game).to_move,
                b,
            )) ==> r is None
            &&& old(game).to_move.opposite() == bot_color && (old(engine).limit() matches CalcConstraint::Depth(
                d,
            ) && d >= 1) && final(game).prev_pos.prev_pos_idx < 256 && (exists|b: Move| legal_move(
                *final(game),
                final(game).to_move,
                b,
            )) ==> r matches Some(BotAction::Play(_))
        },
        (old(engine).limit() is Depth && started && old(game).sound() && uci_text(
            last_word(moves@),
        ) && old(game).prev_pos.prev_pos_idx < 256 && legal_move(
            *old(game),
            old(game).to_move,
            parse_move(last_word(moves@)),
        ) && old(game).to_move.opposite() == bot_color) ==> r == (if crate::engine::best_move_spec(
            old(engine).cached(),
            position_key(*final(game)),
            old(engine).depth_limit(),
        ).0.1 == base_move_spec() {
            None
        } else {
            Some(BotAction::Play(crate::engine::best_move_spec(old(engine).cached(), position_key(*final(game)), old(engine).depth_limit()).0.1))
        }),
{
    if !started {
        return Some(BotAction::Finish);
    }
    let n = moves.unicode_len();
    let a = last_word_start(moves, n);
    let w = moves.substring_char(a, n);
    if !game.is_sound() || !uci_is_readable(w) || game.prev_pos.prev_pos_idx >= 256 {
        return None;
    }
    let m = Move::from_str(w);
    let legal = game.get_all_moves(game.get_to_move());
    if !crate::search::contains_move(&legal, m) {
        return None;
    }
    let ghost g0 = *game;
    proof {
        crate::search::lemma_legal_move_ok(*game, m);
    }
    game.move_piece(m);
    let ghost g1 = *game;
    proof {
        crate::search::lemma_after_move(g0, m, g1);
    }
    if game.get_to_move() != bot_color {
        return Some(BotAction::Wait);
    }
    let best = engine.best_move(game);
    proof {
        crate::search::lemma_same_position(g1, *game);
        assert(!legal_move(g1, g1.to_move, base_move_spec()));
        assert(best.1 == base_move_spec() || legal_move(*game, game.to_move, best.1));
        if exists|b: Move| legal_move(*game, game.to_move, b) {
            let b = choose|b: Move| legal_move(*game, game.to_move, b);
            assert(legal_move(g1, g1.to_move, b));
        }
    }
    if best.1 == crate::engine::base_move() {
        return None;
    }
    Some(BotAction::Play(best.1))
}

} // verus!
