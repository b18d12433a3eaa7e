use vstd::prelude::*;
use std::time::{Duration, Instant};
use crate::cache::{DashCache, Item, CacheBound, CacheTrait, no_items};
use crate::types::{PieceTy, Square, Move, pos_index, on_board};
use crate::game::Game;
use crate::zobrist::{piece_key, enpass_key, side_key};
use crate::types::Pos;
use crate::eval::only_pawns_and_kings;
use crate::eval::{piece_value, side_eval, PIECE_MULT, TO_MOVE_BONUS};
use crate::game::count_of;
use crate::legality::{legal_move, legal_fast};
use crate::perft::{PositionKey, position_key, key_game, key_after, lemma_key_game, lemma_key_after};
use crate::movegen::pseudo_seq;
use crate::search::select_sorted;
use crate::search::{same_position, sort_scored, capture_victim, lemma_same_position, lemma_same_position_trans, lemma_capture_victim, lemma_after_move, lemma_after_null_move, lemma_legal_move_ok};

verus! {

#[verifier::external_type_specification]
#[verifier::external_body]
pub struct ExInstant(Instant);

/// The number of whole nanoseconds in the longest duration.
pub const MAX_DURATION_NANOS: u128 = 18446744073709551615999999999;

pub open spec fn max_duration_nanos() -> int {
    MAX_DURATION_NANOS as int
}

/// What `Duration::as_nanos` returns for a duration: its length in whole
/// nanoseconds.
pub uninterp spec fn duration_nanos(d: Duration) -> u128;

/// Calls `Duration::as_nanos`.
#[verifier::external_body]
fn as_nanos(d: &Duration) -> (r: u128)
    ensures
        r == duration_nanos(*d),
{
    d.as_nanos()
}

/// Calls `Duration::from_millis`: a duration of `ms` milliseconds.
#[verifier::external_body]
fn duration_from_millis(ms: u64) -> (r: Duration)
    ensures
        duration_nanos(r) == ms * 1000000,
{
    Duration::from_millis(ms)
}

/// A duration of `secs` seconds.
pub fn seconds(secs: u64) -> (r: Duration)
    requires
        secs <= 1000000,
    ensures
        duration_nanos(r) == secs * 1000000000,
{
    duration_from_millis(secs * 1000)
}

/// Calls the division of a `Duration` by a `u32`: the duration divided by
/// `n`, rounded down to whole nanoseconds. It panics when `n` is zero.
#[verifier::external_body]
fn duration_div(d: Duration, n: u32) -> (r: Duration)
    requires
        n != 0,
    ensures
        duration_nanos(r) == duration_nanos(d) / (n as u128),
{
    d / n
}

/// Calls the addition of two `Duration`s, which panics when the sum does not
/// fit.
#[verifier::external_body]
fn duration_add(a: Duration, b: Duration) -> (r: Duration)
    requires
        duration_nanos(a) + duration_nanos(b) <= max_duration_nanos(),
    ensures
        duration_nanos(r) == duration_nanos(a) + duration_nanos(b),
{
    a + b
}

/// Calls the subtraction of two `Duration`s, which panics when the result
/// would be negative.
#[verifier::external_body]
fn duration_sub(a: Duration, b: Duration) -> (r: Duration)
    requires
        duration_nanos(a) >= duration_nanos(b),
    ensures
        duration_nanos(r) == duration_nanos(a) - duration_nanos(b),
{
    a - b
}

/// Calls `Instant::now`; what it returns depends on the clock.
#[verifier::external_body]
fn instant_now() -> (r: Instant) {
    Instant::now()
}

/// Calls `Instant::elapsed`; what it returns depends on the clock.
#[verifier::external_body]
fn instant_elapsed(start: &Instant) -> (r: Duration) {
    start.elapsed()
}

/// When the engine stops deepening its search: after a time, or beyond a
/// depth.
#[derive(Debug, Clone, Copy, PartialEq)]
pub enum CalcConstraint {
    Time(Duration),
    Depth(u16),
}

/// A searching engine with its cache of results.
#[derive(Debug)]
pub struct Engine {
    cache: DashCache,
    start_time: Instant,
    constraint: CalcConstraint,
}

/// The thinking time for a move: a sixtieth of the initial time plus the
/// increment, less three tenths of a second, in nanoseconds.
pub open spec fn think_nanos(inc: Duration, init: Duration) -> int {
    duration_nanos(init) / 60 + duration_nanos(inc) - 300000000
}

impl Engine {
    /// What the cache holds.
    pub closed spec fn cached(&self) -> Map<u64, Item> {
        self.cache@
    }

    /// The engine's constraint.
    pub closed spec fn limit(&self) -> CalcConstraint {
        self.constraint
    }

    /// The engine's depth limit; zero under a time limit.
    pub open spec fn depth_limit(&self) -> u16 {
        match self.limit() {
            CalcConstraint::Depth(d) => d,
            _ => 0,
        }
    }

    /// When the engine's current search started.
    pub closed spec fn started(&self) -> Instant {
        self.start_time
    }

    /// An engine with an empty cache.
    pub fn new(constraint: CalcConstraint) -> (r: Self)
        ensures
            r.cached() == no_items(),
            r.limit() == constraint,
            r.wf(),
    {
        Engine { cache: DashCache::with_default_capacity(), start_time: instant_now(), constraint }
    }

    /// Sets the constraint to thinking for a sixtieth of the initial time
    /// plus the increment, less three tenths of a second.
    pub fn set_think_time(&mut self, inc: Duration, init: Duration)
        requires
            think_nanos(inc, init) >= 0,
            duration_nanos(init) / 60 + duration_nanos(inc) <= max_duration_nanos(),
        ensures
            final(self).limit() matches CalcConstraint::Time(t) && duration_nanos(t) == think_nanos(inc, init),
            final(self).cached() == old(self).cached(),
            final(self).wf() == old(self).wf(),
    {
        let maybe_moves: u32 = 60;
        let per = duration_div(init, maybe_moves);
        let with_inc = duration_add(per, inc);
        let time_per = duration_sub(with_inc, duration_from_millis(300));
        self.constraint = CalcConstraint::Time(time_per);
    }

    /// Sets the thinking time as `set_think_time` does when that time is
    /// neither negative nor too long to hold, and reports whether it did.
    pub fn try_set_think_time(&mut self, inc: Duration, init: Duration) -> (r: bool)
        ensures
            r == (think_nanos(inc, init) >= 0 && duration_nanos(init) / 60 + duration_nanos(inc)
                <= max_duration_nanos()),
            r ==> (final(self).limit() matches CalcConstraint::Time(t) && duration_nanos(t) == think_nanos(inc, init)),
            !r ==> final(self).limit() == old(self).limit(),
            final(self).cached() == old(self).cached(),
            final(self).wf() == old(self).wf(),
    {
        let init_n = as_nanos(&init);
        let inc_n = as_nanos(&inc);
        let per = init_n / 60;
        if per as u128 > u128::MAX - inc_n {
            return false;
        }
        let total = per + inc_n;
        if total < 300000000 || total > MAX_DURATION_NANOS {
            return false;
        }
        self.set_think_time(inc, init);
        true
    }

    /// The time since the search started.
    pub fn elapsed(&self) -> Duration {
        instant_elapsed(&self.start_time)
    }

    /// Whether a search at `depth` should stop: by the clock, or when the
    /// depth is beyond the limit.
    pub fn timed_out(&self, depth: u16) -> (r: bool)
        ensures
            self.limit() matches CalcConstraint::Depth(d) ==> r == (depth > d),
    {
        match &self.constraint {
            CalcConstraint::Time(max) => {
                let e = instant_elapsed(&self.start_time);
                as_nanos(&e) >= as_nanos(max)
            },
            CalcConstraint::Depth(d) => depth > *d,
        }
    }
}

/// The score of being checkmated, negated.
pub const CHECKMATE: i32 = i32::MAX;

/// The score of a draw, for the side to move.
pub const DRAW: i32 = -200;

/// The most plies one line of search may be extended by.
pub const MAX_EXTENSIONS: u16 = 16;

/// The depth a null move search gives up.
pub const NULL_MOVE_REDUX: u16 = 3;

/// The most material one capture can win, in points.
pub const DELTA_MARGIN: i32 = 9 * PIECE_MULT;

/// The placeholder move, off the board.
pub open spec fn base_move_spec() -> Move {
    Move { from: (8, 8), to: (8, 8), promotion: None }
}

/// The placeholder move, off the board, returned when there is no move.
pub fn base_move() -> (r: Move)
    ensures
        r == base_move_spec(),
{
    Move { from: (8, 8), to: (8, 8), promotion: None }
}

/// `x` held between -999 and 999.
pub open spec fn clamp_score(x: i32) -> int {
    if x < -999 {
        -999
    } else if x > 999 {
        999
    } else {
        x as int
    }
}

/// The hash `Game::hash_after_move` gives for move `m`.
pub open spec fn probe_hash(g: Game, m: Move) -> u64 {
    if g.is_ep_capture(m) {
        g.hash_after_spec(m) ^ piece_key(pos_index(Game::ep_victim(m)), g.at(Game::ep_victim(m)).0 as int)
            ^ piece_key(pos_index(Game::ep_victim(m)), g.at(Game::ep_victim(m)).0 - 1)
    } else {
        g.hash_after_spec(m)
    }
}

/// How early move `m` is searched: captures first, the most valuable
/// victim by the least valuable attacker; then promotions; then moves by
/// how poorly the cache scores the position they lead to for the opponent.
pub open spec fn order_score(cache: Map<u64, Item>, g: Game, m: Move) -> int {
    let moving = g.at(m.from);
    let target = g.at(m.to);
    if target != Square::blank() {
        10000 + piece_value(target.kind()) * 10 - piece_value(moving.kind())
    } else if moving.kind() == PieceTy::Pawn && m.from.0 != m.to.0 {
        10000 + piece_value(PieceTy::Pawn) * 10 - piece_value(moving.kind())
    } else if m.promotion is Some {
        9000
    } else if cache.dom().contains(probe_hash(g, m)) {
        1000 - clamp_score(cache[probe_hash(g, m)].0)
    } else {
        0
    }
}

/// What a cache probe decides: stop with a score, or search on within a
/// (possibly narrowed) window.
#[derive(Debug, Clone, Copy, PartialEq, Eq, Structural)]
pub enum Probe {
    Cut(i32),
    Window(i32, i32),
}

/// The decision of a probe of `cache` for position `g` searched to `depth`
/// within `(alpha, beta)`: a result stored for a position not seen before in
/// the game, searched at least as deep, ends the search when exact or when
/// it closes the window; a bound narrows the window.
pub open spec fn cache_probe(cache: Map<u64, Item>, g: Game, depth: u16, alpha: i32, beta: i32) -> Probe {
    if !g.prev_pos@.contains(g.hash) && cache.dom().contains(g.hash) && cache[g.hash].1 >= depth {
        let e = cache[g.hash];
        match e.2 {
            CacheBound::Exact => Probe::Cut(e.0),
            CacheBound::Lower => {
                let a = if alpha >= e.0 { alpha } else { e.0 };
                if a >= beta { Probe::Cut(e.0) } else { Probe::Window(a, beta) }
            },
            CacheBound::Upper => {
                let b = if beta <= e.0 { beta } else { e.0 };
                if alpha >= b { Probe::Cut(e.0) } else { Probe::Window(alpha, b) }
            },
        }
    } else {
        Probe::Window(alpha, beta)
    }
}

/// The bound a searched score gives: an upper bound when it did not rise
/// above alpha, a lower bound when it reached beta, else exact.
pub open spec fn bound_of(best: i32, original_alpha: i32, beta: i32) -> CacheBound {
    if best <= original_alpha {
        CacheBound::Upper
    } else if best >= beta {
        CacheBound::Lower
    } else {
        CacheBound::Exact
    }
}

impl Engine {
    /// Every cached score can be negated.
    pub closed spec fn wf(&self) -> bool {
        forall|k: u64| #[trigger] self.cache@.dom().contains(k) ==> self.cache@[k].0 > i32::MIN
    }

    /// The extension a move earns: one ply, at depth three or less while
    /// extensions are left, when it gives check or promotes.
    pub fn extension_depth(game: &Game, depth: u16, m: Move, extensions_left: u16) -> (r: u16)
        requires
            game.board.wf(),
            game.has_king(game.to_move),
        ensures
            r == (if depth <= 3 && extensions_left > 0 && (game.in_check(game.to_move) || m.promotion is Some) {
                1u16
            } else {
                0u16
            }),
    {
        if depth <= 3 && extensions_left > 0 && (game.check(game.get_to_move()) || m.promotion.is_some()) {
            1
        } else {
            0
        }
    }

    /// What a capture takes: the piece on the destination, or else the pawn
    /// beside the origin that en passant takes.
    pub fn captured_square(game: &Game, m: Move) -> (r: Square)
        requires
            game.board.wf(),
            on_board(m.to),
            m.from.1 < 8,
        ensures
            r == (if game.at(m.to) != Square::blank() {
                game.at(m.to)
            } else {
                game.at((m.to.0, m.from.1))
            }),
            r.is_valid(),
    {
        let target = game.get(m.to);
        if !target.is_empty() {
            return target;
        }
        game.get((m.to.0, m.from.1))
    }

    /// The order score of move `m`, higher first.
    pub fn move_order_score(&self, game: &Game, m: Move) -> (r: i32)
        requires
            game.wf(),
            game.move_ok(m),
        ensures
            r == order_score(self.cached(), *game, m),
    {
        let moving = game.get(m.from);
        match game.is_capture_known_move(m, moving) {
            Some(en_pass) => {
                let captured = game.get(m.to);
                let victim = if en_pass {
                    Self::piece_value_raw(PieceTy::Pawn)
                } else {
                    Self::piece_value_raw(captured.ty())
                };
                let attacker = Self::piece_value_raw(moving.ty());
                return 10000 + victim * 10 - attacker;
            },
            None => {},
        }
        if m.promotion.is_some() {
            return 9000;
        }
        let hash = game.hash_after_move(m, moving);
        match self.cache.cache_get(hash) {
            Some(entry) => {
                let s = entry.0;
                let clamped = if s < -999 {
                    -999
                } else if s > 999 {
                    999
                } else {
                    s
                };
                1000 - clamped
            },
            None => 0,
        }
    }

    /// Probes the cache for position `game` searched to `depth` within
    /// `(alpha, beta)`.
    pub fn probe_cache(&self, game: &Game, depth: u16, alpha: i32, beta: i32) -> (r: Probe)
        requires
            game.prev_pos.wf(),
        ensures
            r == cache_probe(self.cached(), *game, depth, alpha, beta),
    {
        if !game.has_been_played(game) {
            match self.cache.cache_get(game.get_hash()) {
                Some(entry) => {
                    if entry.1 >= depth {
                        match entry.2 {
                            CacheBound::Exact => {
                                return Probe::Cut(entry.0);
                            },
                            CacheBound::Lower => {
                                let a = if alpha >= entry.0 {
                                    alpha
                                } else {
                                    entry.0
                                };
                                if a >= beta {
                                    return Probe::Cut(entry.0);
                                }
                                return Probe::Window(a, beta);
                            },
                            CacheBound::Upper => {
                                let b = if beta <= entry.0 {
                                    beta
                                } else {
                                    entry.0
                                };
                                if alpha >= b {
                                    return Probe::Cut(entry.0);
                                }
                                return Probe::Window(alpha, b);
                            },
                        }
                    }
                },
                None => {},
            }
        }
        Probe::Window(alpha, beta)
    }

    /// The bound a searched score gives for the cache.
    pub fn bound_for(best: i32, original_alpha: i32, beta: i32) -> (r: CacheBound)
        ensures
            r == bound_of(best, original_alpha, beta),
    {
        if best <= original_alpha {
            CacheBound::Upper
        } else if best >= beta {
            CacheBound::Lower
        } else {
            CacheBound::Exact
        }
    }
}

/// The side to move is checkmated: in check with no legal move, and the
/// position has not occurred twice before.
pub open spec fn mated(g: Game) -> bool {
    &&& g.in_check(g.to_move)
    &&& !(exists|m: Move| legal_move(g, g.to_move, m))
    &&& !(count_of(g.prev_pos@, g.hash) >= 2)
}

/// The static score of `g` for the side to move, `moves` plies into the
/// search: an exact cached score for a position not seen before in the
/// game; for a checkmate, the worst score less the plies it took; else the
/// difference of the two sides' evaluations, with a bonus for the mover.
pub open spec fn base_score(cache: Map<u64, Item>, g: Game, moves: usize) -> int {
    if !g.prev_pos@.contains(g.hash) && cache.dom().contains(g.hash) && cache[g.hash].2 == CacheBound::Exact {
        cache[g.hash].0 as int
    } else if mated(g) {
        moves - 0x7fff_ffff
    } else {
        side_eval(g, g.to_move) + 4 - side_eval(g, g.to_move.opposite())
    }
}

impl Engine {
    /// The static score of `game` for the side to move.
    pub fn eval_base(&mut self, game: &Game, moves: usize) -> (r: i32)
        requires
            game.sound(),
            moves < 0x8000_0000,
        ensures
            *final(self) == *old(self),
            r == base_score(old(self).cached(), *game, moves),
    {
        if !game.has_been_played(game) {
            match self.cache.cache_get(game.get_hash()) {
                Some(entry) => {
                    if entry.2 == CacheBound::Exact {
                        return entry.0;
                    }
                },
                None => {},
            }
        }
        if game.checkmate(game.get_to_move()) {
            return -CHECKMATE + moves as i32;
        }
        let player = self.eval_base_color(game, game.get_to_move()) + TO_MOVE_BONUS;
        let enemy = self.eval_base_color(game, game.get_to_move().other());
        player - enemy
    }
}

/// A capture the quiet search considers: a legal capture of the position
/// whose victim is worth at least its attacker less one pawn.
pub open spec fn quiet_candidate(g: Game, m: Move) -> bool {
    &&& legal_move(g, g.to_move, m)
    &&& (g.at(m.to) != Square::blank() || (g.at(m.from) != Square::blank() && g.at(m.from).kind()
        == PieceTy::Pawn && m.from.0 != m.to.0))
    &&& piece_value(capture_victim(g, m).kind()) >= piece_value(g.at(m.from).kind()) - 1
}

/// Games in the same position have the same static score.
pub proof fn lemma_base_score_same(cache: Map<u64, Item>, a: Game, b: Game, moves: usize)
    requires
        same_position(a, b),
    ensures
        base_score(cache, a, moves) == base_score(cache, b, moves),
        mated(a) == mated(b),
{
    lemma_same_position(a, b);
    if exists|m: Move| legal_move(a, a.to_move, m) {
        let m = choose|m: Move| legal_move(a, a.to_move, m);
        assert(legal_move(b, b.to_move, m));
    }
    if exists|m: Move| legal_move(b, b.to_move, m) {
        let m = choose|m: Move| legal_move(b, b.to_move, m);
        assert(legal_move(a, a.to_move, m));
    }
}

/// The entry the quiet search makes for move `m`: a capture whose victim
/// is worth at least the attacker less one pawn, scored ten times the
/// victim less the attacker.
pub open spec fn quiet_entry(g: Game, m: Move) -> Option<(i32, Move)> {
    let moving = g.at(m.from);
    if g.at(m.to) != Square::blank() || (moving != Square::blank() && moving.kind() == PieceTy::Pawn && m.from.0
        != m.to.0) {
        let victim = piece_value(capture_victim(g, m).kind());
        let attacker = piece_value(moving.kind());
        if victim >= attacker - 1 {
            Some(((victim * 10 - attacker) as i32, m))
        } else {
            None
        }
    } else {
        None
    }
}

/// The captures the quiet search tries in `g`, in the order it tries them:
/// the entries of the legal moves, in the order they are generated, sorted
/// from the highest score down.
pub open spec fn quiet_list(g: Game) -> Seq<(i32, Move)> {
    select_sorted(
        pseudo_seq(g, g.to_move).filter(|m: Move| legal_fast(g, m, g.in_check(g.to_move))).filter_map(
            |m: Move| quiet_entry(g, m),
        ),
    )
}

/// The value of the quiet search of the game with key `k` in `(alpha,
/// beta)`, `moves` plies into the search, with the cache holding `cache`.
pub open spec fn quiet_value(cache: Map<u64, Item>, k: PositionKey, alpha: i32, beta: i32, moves: usize) -> i32 {
    quiet_search(cache, k, alpha, beta, moves, (256 - k.6) as nat)
}

/// The quiet search: stand pat, the delta test, then the captures.
pub open spec fn quiet_search(
    cache: Map<u64, Item>,
    k: PositionKey,
    alpha: i32,
    beta: i32,
    moves: usize,
    fuel: nat,
) -> i32
    decreases fuel, 1nat, 0nat,
{
    let g = key_game(k);
    let sp = base_score(cache, g, moves);
    if sp >= beta {
        beta
    } else if (sp as i32).wrapping_add(DELTA_MARGIN) < alpha {
        alpha
    } else {
        quiet_loop(
            cache,
            k,
            beta,
            moves,
            quiet_list(g),
            0,
            if alpha >= sp { alpha } else { sp as i32 },
            sp as i32,
            fuel,
        )
    }
}

/// The quiet search's loop over `list` from entry `j`, with the best score
/// so far `a` and the stand-pat score `sp`: captures that cannot raise the
/// score to `a` even with the margin are skipped; with the game's history
/// full it stops at `a`; else a capture scoring `beta` or more ends the
/// search at `beta`, and a higher score raises `a`.
pub open spec fn quiet_loop(
    cache: Map<u64, Item>,
    k: PositionKey,
    beta: i32,
    moves: usize,
    list: Seq<(i32, Move)>,
    j: nat,
    a: i32,
    sp: i32,
    fuel: nat,
) -> i32
    decreases fuel, 0nat, list.len() - j,
{
    if j >= list.len() {
        a
    } else {
        let g = key_game(k);
        let m = list[j as int].1;
        let gain = (piece_value(capture_victim(g, m).kind()) * PIECE_MULT) as i32;
        if sp.wrapping_add(gain).wrapping_add(DELTA_MARGIN) < a {
            quiet_loop(cache, k, beta, moves, list, j + 1, a, sp, fuel)
        } else if k.6 >= 256 || fuel == 0 {
            a
        } else {
            let score = -quiet_search(cache, key_after(k, m), (-beta) as i32, (-a) as i32, (moves + 1) as usize, (fuel - 1) as nat);
            if score >= beta {
                beta
            } else {
                quiet_loop(cache, k, beta, moves, list, j + 1, if score > a { score as i32 } else { a }, sp, fuel)
            }
        }
    }
}

impl Engine {
    /// The quiet search: from the static score, tries the captures that
    /// cannot lose much material, best first, within `(alpha, beta)`, failing
    /// hard at both ends. It stops going deeper when the game's history is
    /// full.
    #[verifier::rlimit(60)]
    pub fn quiescence(&mut self, game: &mut Game, alpha: i32, beta: i32, moves: usize) -> (r: i32)
        requires
            old(game).sound(),
            old(self).wf(),
            -CHECKMATE <= alpha <= beta <= CHECKMATE,
            moves + 256 <= 0x7fff_ffff + old(game).prev_pos.prev_pos_idx,
        ensures
            *final(self) == *old(self),
            same_position(*old(game), *final(game)),
            alpha <= r <= beta,
            base_score(old(self).cached(), *old(game), moves) >= beta ==> r == beta,
            base_score(old(self).cached(), *old(game), moves) < beta && (base_score(
                old(self).cached(),
                *old(game),
                moves,
            ) as i32).wrapping_add(DELTA_MARGIN) < alpha ==> r == alpha,
            base_score(old(self).cached(), *old(game), moves) < beta && !((base_score(
                old(self).cached(),
                *old(game),
                moves,
            ) as i32).wrapping_add(DELTA_MARGIN) < alpha) ==> r >= base_score(
                old(self).cached(),
                *old(game),
                moves,
            ),
            r == quiet_value(old(self).cached(), position_key(*old(game)), alpha, beta, moves),
        decreases 256 - old(game).prev_pos.prev_pos_idx,
    {
        let ghost g0 = *game;
        let ghost e0 = *self;
        let ghost k0 = position_key(g0);
        let ghost gk = key_game(k0);
        let ghost fuel0: nat = (256 - g0.prev_pos.prev_pos_idx) as nat;
        proof {
            lemma_same_position_trans(g0, g0, g0);
            lemma_key_game(g0);
            lemma_base_score_same(e0.cached(), g0, gk, moves);
        }
        let stand_pat = self.eval_base(game, moves);
        if stand_pat >= beta {
            return beta;
        }
        if stand_pat.wrapping_add(DELTA_MARGIN) < alpha {
            return alpha;
        }
        let mut a = if alpha >= stand_pat {
            alpha
        } else {
            stand_pat
        };
        let c = game.get_to_move();
        let all = game.get_all_moves(c);
        let ghost qe = |m: Move| quiet_entry(g0, m);
        let mut scored: Vec<(i32, Move)> = Vec::new();
        let mut i: usize = 0;
        while i < all.len()
            invariant
                *game == g0,
                g0.sound(),
                c == g0.to_move,
                i <= all@.len(),
                forall|m: Move| #[trigger] all@.contains(m) <==> legal_move(g0, c, m),
                forall|x: (i32, Move)| #[trigger] scored@.contains(x) ==> quiet_candidate(g0, x.1),
                qe == (|m: Move| quiet_entry(g0, m)),
                scored@ == all@.take(i as int).filter_map(qe),
            decreases all@.len() - i,
        {
            let m = all[i];
            assert(all@.contains(m));
            proof {
                assert(all@.take(i + 1).drop_last() =~= all@.take(i as int));
                assert(all@.take(i + 1).last() == m);
                lemma_legal_move_ok(g0, m);
                crate::types::lemma_pos_index_roundtrip(m.from, 0);
                crate::types::lemma_pos_index_roundtrip(m.to, 0);
            }
            if game.is_capture(m) {
                proof {
                    lemma_capture_victim(g0, m);
                }
                let victim = Self::piece_value_raw(Self::captured_square(game, m).ty());
                let attacker = Self::piece_value_raw(game.get(m.from).ty());
                if victim >= attacker - 1 {
                    let ghost before = scored@;
                    let entry: (i32, Move) = (victim * 10 - attacker, m);
                    scored.push(entry);
                    proof {
                        assert forall|x: (i32, Move)| #[trigger] scored@.contains(x) implies quiet_candidate(g0, x.1) by {
                            if x != entry {
                                vstd::seq_lib::lemma_seq_contains_after_push(before, entry, x);
                            }
                        }
                    }
                }
            }
            i = i + 1;
        }
        let sorted = sort_scored(scored);
        let ghost alpha0 = a;
        proof {
            assert(all@.take(all@.len() as int) =~= all@);
            lemma_same_position(g0, gk);
            assert(pseudo_seq(gk, gk.to_move) == pseudo_seq(g0, c));
            assert((|m: Move| legal_fast(gk, m, gk.in_check(gk.to_move))) =~= (|m: Move| legal_fast(g0, m, g0.in_check(c))));
            assert((|m: Move| quiet_entry(gk, m)) =~= qe);
            assert(quiet_list(gk) == sorted@);
            assert(quiet_search(e0.cached(), k0, alpha, beta, moves, fuel0) == quiet_loop(
                e0.cached(), k0, beta, moves, sorted@, 0, alpha0, stand_pat, fuel0));
        }
        let mut j: usize = 0;
        while j < sorted.len()
            invariant
                same_position(g0, *game),
                g0 == *old(game),
                e0 == *old(self),
                g0.sound(),
                e0.wf(),
                *self == e0,
                c == g0.to_move,
                j <= sorted@.len(),
                forall|x: (i32, Move)| #[trigger] sorted@.contains(x) ==> quiet_candidate(g0, x.1),
                -CHECKMATE <= a <= beta <= CHECKMATE,
                a >= alpha0,
                alpha0 >= alpha,
                alpha0 >= stand_pat,
                -CHECKMATE <= alpha,
                stand_pat == base_score(e0.cached(), g0, moves),
                stand_pat < beta,
                !(stand_pat.wrapping_add(DELTA_MARGIN) < alpha),
                moves + 256 <= 0x7fff_ffff + g0.prev_pos.prev_pos_idx,
                k0 == position_key(g0),
                gk == key_game(k0),
                same_position(g0, gk),
                fuel0 == 256 - g0.prev_pos.prev_pos_idx,
                quiet_search(e0.cached(), k0, alpha, beta, moves, fuel0) == quiet_loop(
                    e0.cached(), k0, beta, moves, sorted@, j as nat, a, stand_pat, fuel0),
            decreases sorted@.len() - j,
        {
            let m = sorted[j].1;
            proof {
                assert(sorted@.contains(sorted@[j as int]));
                lemma_same_position(g0, *game);
                lemma_capture_victim(g0, m);
            }
            let gain = Self::piece_value_raw(Self::captured_square(game, m).ty()) * PIECE_MULT;
            let ghost cache0 = e0.cached();
            proof {
                assert(capture_victim(gk, m) == capture_victim(g0, m));
                assert(gain == (piece_value(capture_victim(gk, m).kind()) * PIECE_MULT) as i32);
            }
            if stand_pat.wrapping_add(gain).wrapping_add(DELTA_MARGIN) < a {
                proof {
                    assert(quiet_loop(cache0, k0, beta, moves, sorted@, j as nat, a, stand_pat, fuel0) == quiet_loop(
                        cache0, k0, beta, moves, sorted@, (j + 1) as nat, a, stand_pat, fuel0));
                }
                j = j + 1;
                continue;
            }
            if game.prev_pos.prev_pos_idx >= 256 {
                proof {
                    assert(quiet_loop(cache0, k0, beta, moves, sorted@, j as nat, a, stand_pat, fuel0) == a);
                }
                return a;
            }
            let ghost gm = *game;
            game.move_piece(m);
            let ghost g1 = *game;
            proof {
                lemma_after_move(gm, m, g1);
            }
            let child = self.quiescence(game, -beta, -a, moves + 1);
            proof {
                lemma_same_position(g1, *game);
            }
            let ghost g1b = *game;
            game.undo_move();
            proof {
                assert(Game::undone(g1, *game));
                lemma_same_position_trans(g0, gm, *game);
            }
            let score = -child;
            proof {
                lemma_key_after(g0, gm, m, g1);
                assert(child == quiet_search(cache0, key_after(k0, m), (-beta) as i32, (-a) as i32, (moves + 1) as usize,
                    (fuel0 - 1) as nat));
                assert(quiet_loop(cache0, k0, beta, moves, sorted@, j as nat, a, stand_pat, fuel0) == (if score >= beta {
                    beta
                } else {
                    quiet_loop(cache0, k0, beta, moves, sorted@, (j + 1) as nat, if score > a { score } else { a }, stand_pat, fuel0)
                }));
            }
            if score >= beta {
                return beta;
            }
            if score > a {
                a = score;
            }
            j = j + 1;
        }
        a
    }
}

/// The side to move has no legal move and is not in check, or the position
/// has occurred twice before.
pub open spec fn drawn(g: Game) -> bool {
    (!g.in_check(g.to_move) && !(exists|m: Move| legal_move(g, g.to_move, m))) || count_of(g.prev_pos@, g.hash)
        >= 2
}

/// Games in the same position agree on whether the game is drawn.
pub proof fn lemma_drawn_same(a: Game, b: Game)
    requires
        same_position(a, b),
    ensures
        drawn(a) == drawn(b),
        mated(a) == mated(b),
{
    lemma_base_score_same(Map::empty(), a, b, 0);
    lemma_same_position(a, b);
    if exists|m: Move| legal_move(a, a.to_move, m) {
        let m = choose|m: Move| legal_move(a, a.to_move, m);
        assert(legal_move(b, b.to_move, m));
    }
    if exists|m: Move| legal_move(b, b.to_move, m) {
        let m = choose|m: Move| legal_move(b, b.to_move, m);
        assert(legal_move(a, a.to_move, m));
    }
}

/// `g1` is `g` after a null move: the same board and castling rights, the
/// other side to move, no en passant square, the hash updated, and the
/// history one longer.
pub open spec fn null_moved(g: Game, g1: Game) -> bool {
    &&& g1.wf()
    &&& g1.board == g.board
    &&& g1.to_move == g.to_move.opposite()
    &&& g1.castleable == g.castleable
    &&& g1.enpass == None::<Pos>
    &&& g1.hash == g.hash ^ (match g.enpass {
        Some(e) => enpass_key(g.to_move.index(), e.0 as int),
        None => 0,
    }) ^ side_key()
    &&& g1.prev_pos@ == g.prev_pos@.push(g.hash)
    &&& g1.moves@ == g.moves@.push(Game::null_record(g))
    &&& g1.full_move_clock == g.full_move_clock
}

/// The key of the game a null move leads to from the game with key `k`.
pub open spec fn null_key(k: PositionKey) -> PositionKey {
    position_key(choose|g1: Game| null_moved(key_game(k), g1))
}

/// The key a null move leads to from `g`'s key is that of the game a null
/// move leads to from any game in `g`'s position.
pub proof fn lemma_null_key(g: Game, h: Game, g1: Game)
    requires
        same_position(g, h),
        null_moved(h, g1),
    ensures
        null_key(position_key(g)) == position_key(g1),
{
    lemma_key_game(g);
    let gk = key_game(position_key(g));
    assert(null_moved(gk, g1));
    let x = choose|x: Game| null_moved(gk, x);
    assert(x.prev_pos@.len() == x.prev_pos.prev_pos_idx);
    assert(g1.prev_pos@.len() == g1.prev_pos.prev_pos_idx);
}

/// Games in the same position order moves alike.
pub proof fn lemma_order_score_same(cache: Map<u64, Item>, a: Game, b: Game, m: Move)
    requires
        same_position(a, b),
    ensures
        order_score(cache, a, m) == order_score(cache, b, m),
{
    assert(a.full() == b.full());
    assert(probe_hash(a, m) == probe_hash(b, m));
}

/// The legal moves of the side to move in `g`, in the order generated.
pub open spec fn search_moves(g: Game) -> Seq<Move> {
    pseudo_seq(g, g.to_move).filter(|m: Move| legal_fast(g, m, g.in_check(g.to_move)))
}

/// The moves the search tries in `g`, each with its order score, in the
/// order it tries them: from the highest score down.
pub open spec fn ordered_moves(cache: Map<u64, Item>, g: Game) -> Seq<(i32, Move)> {
    select_sorted(search_moves(g).map_values(|m: Move| (order_score(cache, g, m) as i32, m)))
}

/// The extension the search gives move `m` into game `g1`: one more ply
/// near the leaves, while extensions are left, for a check or a promotion.
pub open spec fn extension_of(g1: Game, depth: u16, m: Move, ext: u16) -> u16 {
    if depth <= 3 && ext > 0 && (g1.in_check(g1.to_move) || m.promotion is Some) {
        1
    } else {
        0
    }
}

/// The reduction the search gives the `i`th move `m` into game `g1`: one ply
/// less for a late quiet move that gives no check, at depth three or more.
pub open spec fn reduction_of(g1: Game, depth: u16, m: Move, i: int) -> u16 {
    let capture = g1.at(m.to) != Square::blank() || (g1.at(m.from) != Square::blank() && g1.at(m.from).kind()
        == PieceTy::Pawn && m.from.0 != m.to.0);
    if i >= 3 && depth >= 3 && !capture && m.promotion is None && !g1.in_check(g1.to_move) {
        1
    } else {
        0
    }
}

/// The value of the search of the game with key `k` to `depth` plies in
/// `(alpha, beta)`, `moves` plies in, with `ext` extensions left and the
/// cache holding `cache`, and what the cache holds after it: a cache cut,
/// checkmate, draw, the quiet search at depth zero or with a full history,
/// the null-move cut, else the loop over the ordered moves.
pub open spec fn search(
    cache: Map<u64, Item>,
    k: PositionKey,
    depth: u16,
    alpha: i32,
    beta: i32,
    moves: usize,
    ext: u16,
) -> (i32, Map<u64, Item>)
    decreases depth, ext, 2nat, 0nat,
{
    let g = key_game(k);
    match cache_probe(cache, g, depth, alpha, beta) {
        Probe::Cut(v) => (v, cache),
        Probe::Window(a, b) => {
            if mated(g) {
                ((-CHECKMATE) as i32, cache)
            } else if drawn(g) {
                (DRAW, cache)
            } else if depth == 0 || k.6 >= 256 {
                (quiet_value(cache, k, a, b, moves), cache)
            } else {
                let null_ok = depth >= NULL_MOVE_REDUX && !only_pawns_and_kings(g.board@) && !g.in_check(
                    g.to_move,
                );
                let nr = if null_ok {
                    search(cache, null_key(k), (depth - NULL_MOVE_REDUX) as u16, (-b) as i32, (-(b - 1)) as i32, moves, 0)
                } else {
                    (0i32, cache)
                };
                if null_ok && -nr.0 >= b {
                    ((-nr.0) as i32, nr.1)
                } else {
                    search_loop(nr.1, k, depth, b, moves, ext, ordered_moves(nr.1, g), 0, a, (-CHECKMATE) as i32, a)
                }
            }
        },
    }
}

/// The search's loop over `list` from entry `i`, with the window's lower
/// end `a`, the best score so far `best` and the window's first lower end
/// `orig_a`: a child scoring `b` or more ends the search at `b`; after the
/// last move the best score is stored with its depth and bound.
pub open spec fn search_loop(
    cache: Map<u64, Item>,
    k: PositionKey,
    depth: u16,
    b: i32,
    moves: usize,
    ext: u16,
    list: Seq<(i32, Move)>,
    i: nat,
    a: i32,
    best: i32,
    orig_a: i32,
) -> (i32, Map<u64, Item>)
    decreases depth, ext, 1nat, list.len() - i,
{
    if i >= list.len() || depth == 0 {
        (best, cache.insert(key_game(k).hash, (best, depth, bound_of(best, orig_a, b))))
    } else {
        let m = list[i as int].1;
        let k1 = key_after(k, m);
        let g1 = key_game(k1);
        let e = extension_of(g1, depth, m, ext);
        let red = reduction_of(g1, depth, m, i as int);
        let cr = search(cache, k1, (depth - 1 + e - red) as u16, (-b) as i32, (-a) as i32, (moves + 1) as usize, (ext - e) as u16);
        let score = -cr.0;
        if score >= b {
            (b, cr.1)
        } else {
            search_loop(
                cr.1,
                k,
                depth,
                b,
                moves,
                ext,
                list,
                i + 1,
                if score > a { score as i32 } else { a },
                if score > best { score as i32 } else { best },
                orig_a,
            )
        }
    }
}

impl Engine {
    /// The alpha-beta search of `game` to `depth` plies within `(alpha,
    /// beta)`: probes the cache, scores checkmates and draws, hands depth
    /// zero to the quiet search, tries a null move, then searches the moves
    /// best first, extending checks and promotions near the leaves, and
    /// stores the result. It returns zero when time runs out, and treats a
    /// full game history as depth zero.
    #[verifier::rlimit(100)]
    #[verifier::spinoff_prover]
    pub fn eval_rec(
        &mut self,
        game: &mut Game,
        depth: u16,
        alpha: i32,
        beta: i32,
        moves: usize,
        extensions_left: u16,
    ) -> (r: i32)
        requires
            old(game).sound(),
            old(self).wf(),
            -CHECKMATE <= alpha <= beta <= CHECKMATE,
            -CHECKMATE < beta,
            alpha < CHECKMATE,
            moves + 256 <= 0x7fff_ffff + old(game).prev_pos.prev_pos_idx,
        ensures
            final(self).wf(),
            final(self).limit() == old(self).limit(),
            final(self).started() == old(self).started(),
            same_position(*old(game), *final(game)),
            -CHECKMATE <= r <= CHECKMATE,
            (old(self).limit() matches CalcConstraint::Depth(d) && depth <= d) ==> match cache_probe(
                old(self).cached(),
                *old(game),
                depth,
                alpha,
                beta,
            ) {
                Probe::Cut(v) => r == v,
                Probe::Window(a, b) => {
                    &&& mated(*old(game)) ==> r == -CHECKMATE
                    &&& (!mated(*old(game)) && drawn(*old(game))) ==> r == DRAW
                    &&& (!mated(*old(game)) && !drawn(*old(game)) && depth == 0) ==> a <= r <= b
                },
            },
            (old(self).limit() matches CalcConstraint::Depth(d) && depth <= d) ==> r == search(
                old(self).cached(),
                position_key(*old(game)),
                depth,
                alpha,
                beta,
                moves,
                extensions_left,
            ).0 && final(self).cached() == search(
                old(self).cached(),
                position_key(*old(game)),
                depth,
                alpha,
                beta,
                moves,
                extensions_left,
            ).1,
        decreases depth, extensions_left,
    {
        let ghost g0 = *game;
        let ghost e0 = *self;
        let ghost det = e0.limit() matches CalcConstraint::Depth(d) && depth <= d;
        let ghost k0 = position_key(g0);
        let ghost gk = key_game(k0);
        let ghost total = search(e0.cached(), k0, depth, alpha, beta, moves, extensions_left);
        proof {
            lemma_same_position_trans(g0, g0, g0);
            lemma_key_game(g0);
            lemma_drawn_same(g0, gk);
            assert(cache_probe(e0.cached(), gk, depth, alpha, beta) == cache_probe(e0.cached(), g0, depth, alpha, beta));
        }
        if self.timed_out(depth) {
            return 0;
        }
        let (mut a, b) = match self.probe_cache(game, depth, alpha, beta) {
            Probe::Cut(v) => {
                proof {
                    if !g0.prev_pos@.contains(g0.hash) && e0.cache@.dom().contains(g0.hash) {
                        assert(e0.cache@.dom().contains(g0.hash));
                    }
                }
                return v;
            },
            Probe::Window(a, b) => (a, b),
        };
        let c = game.get_to_move();
        if game.checkmate(c) {
            return -CHECKMATE;
        }
        if game.stalemate(c) || game.lose_on_repeat() {
            return DRAW;
        }
        if depth == 0 || game.prev_pos.prev_pos_idx >= 256 {
            return self.quiescence(game, a, b, moves);
        }
        let ghost c0 = e0.cached();
        proof {
            lemma_same_position(g0, gk);
        }
        if depth >= NULL_MOVE_REDUX && !game.pawn_endgame() && !game.check(c) {
            game.make_null_move();
            let ghost g1 = *game;
            proof {
                lemma_after_null_move(g0, g1);
                assert(null_moved(g0, g1));
                lemma_null_key(g0, g0, g1);
            }
            let child = self.eval_rec(game, depth - NULL_MOVE_REDUX, -b, -(b - 1), moves, 0);
            proof {
                lemma_same_position(g1, *game);
            }
            game.undo_move();
            proof {
                assert(Game::undone(g1, *game));
            }
            let score = -child;
            if score >= b {
                return score;
            }
        }
        let ghost c1 = self.cached();
        proof {
            if det {
                assert(total == search_loop(c1, k0, depth, b, moves, extensions_left, ordered_moves(c1, gk), 0, a,
                    (-CHECKMATE) as i32, a));
            }
        }
        let original_alpha = a;
        let mut best: i32 = -CHECKMATE;
        let p_moves = game.get_all_moves(c);
        let ghost gs = *game;
        let ghost es = *self;
        let mut scored: Vec<(i32, Move)> = Vec::new();
        let mut k: usize = 0;
        while k < p_moves.len()
            invariant
                *game == gs,
                *self == es,
                same_position(g0, gs),
                g0.sound(),
                c == g0.to_move,
                k <= p_moves@.len(),
                forall|m: Move| #[trigger] p_moves@.contains(m) <==> legal_move(gs, c, m),
                forall|m: Move| #[trigger] p_moves@.contains(m) ==> gs.move_ok(m),
                forall|x: (i32, Move)| #[trigger] scored@.contains(x) ==> legal_move(g0, c, x.1),
                scored@ == p_moves@.take(k as int).map_values(|x: Move| (order_score(es.cached(), gs, x) as i32, x)),
            decreases p_moves@.len() - k,
        {
            let m = p_moves[k];
            assert(p_moves@.contains(m));
            proof {
                lemma_same_position(g0, gs);
            }
            let ghost before = scored@;
            let entry: (i32, Move) = (self.move_order_score(game, m), m);
            scored.push(entry);
            proof {
                assert forall|x: (i32, Move)| #[trigger] scored@.contains(x) implies legal_move(g0, c, x.1) by {
                    if x != entry {
                        vstd::seq_lib::lemma_seq_contains_after_push(before, entry, x);
                    }
                }
                assert(scored@ =~= p_moves@.take(k + 1).map_values(|x: Move| (order_score(es.cached(), gs, x) as i32, x)));
            }
            k = k + 1;
        }
        let sorted = sort_scored(scored);
        proof {
            assert(p_moves@.take(p_moves@.len() as int) =~= p_moves@);
            lemma_same_position(gs, gk);
            lemma_same_position_trans(g0, gs, gk);
            assert(pseudo_seq(gk, gk.to_move) == pseudo_seq(gs, c));
            assert((|m: Move| legal_fast(gk, m, gk.in_check(gk.to_move))) =~= (|m: Move| legal_fast(gs, m, gs.in_check(c))));
            assert(search_moves(gk) == p_moves@);
            assert forall|x: Move| #[trigger] order_score(c1, gk, x) == order_score(c1, gs, x) by {
                lemma_order_score_same(c1, gs, gk, x);
            }
            assert((|x: Move| (order_score(c1, gk, x) as i32, x)) =~= (|x: Move| (order_score(es.cached(), gs, x) as i32, x)));
            assert(ordered_moves(c1, gk) == sorted@);
        }
        let mut i: usize = 0;
        while i < sorted.len()
            invariant
                same_position(g0, *game),
                g0 == *old(game),
                e0 == *old(self),
                g0.sound(),
                self.wf(),
                self.limit() == e0.limit(),
                self.started() == e0.started(),
                c == g0.to_move,
                i <= sorted@.len(),
                forall|x: (i32, Move)| #[trigger] sorted@.contains(x) ==> legal_move(g0, c, x.1),
                -CHECKMATE <= a <= b <= CHECKMATE,
                a < CHECKMATE,
                -CHECKMATE < b,
                -CHECKMATE <= best <= CHECKMATE,
                moves + 256 <= 0x7fff_ffff + g0.prev_pos.prev_pos_idx,
                g0.prev_pos.prev_pos_idx < 256,
                1 <= depth,
                !mated(g0),
                !drawn(g0),
                cache_probe(e0.cached(), g0, depth, alpha, beta) is Window,
                det == (e0.limit() matches CalcConstraint::Depth(d) && depth <= d),
                k0 == position_key(g0),
                gk == key_game(k0),
                total == search(e0.cached(), k0, depth, alpha, beta, moves, extensions_left),
                det ==> total == search_loop(self.cached(), k0, depth, b, moves, extensions_left, sorted@, i as nat, a, best,
                    original_alpha),
            decreases sorted@.len() - i,
        {
            let ghost ci = self.cached();
            let m = sorted[i].1;
            proof {
                assert(sorted@.contains(sorted@[i as int]));
                lemma_same_position(g0, *game);
                lemma_legal_move_ok(*game, m);
            }
            let ghost gm = *game;
            game.move_piece(m);
            let ghost g1 = *game;
            proof {
                lemma_after_move(gm, m, g1);
            }
            let extension = Self::extension_depth(game, depth, m, extensions_left);
            let reduction: u16 = if i >= 3 && depth >= 3 && !game.is_capture(m) && m.promotion.is_none()
                && !game.check(game.get_to_move()) {
                1
            } else {
                0
            };
            let child = self.eval_rec(
                game,
                depth - 1 + extension - reduction,
                -b,
                -a,
                moves + 1,
                extensions_left - extension,
            );
            proof {
                lemma_same_position(g1, *game);
            }
            game.undo_move();
            proof {
                assert(Game::undone(g1, *game));
                lemma_same_position_trans(g0, gm, *game);
            }
            if self.timed_out(depth) {
                return 0;
            }
            let score = -child;
            proof {
                if det {
                    lemma_key_after(g0, gm, m, g1);
                    lemma_key_game(g1);
                    lemma_same_position(g1, key_game(position_key(g1)));
                    let g1s = key_game(key_after(k0, m));
                    assert(extension == extension_of(g1s, depth, m, extensions_left));
                    assert(reduction == reduction_of(g1s, depth, m, i as int));
                    let cr = search(ci, key_after(k0, m), (depth - 1 + extension - reduction) as u16, (-b) as i32,
                        (-a) as i32, (moves + 1) as usize, (extensions_left - extension) as u16);
                    assert(child == cr.0 && self.cached() == cr.1);
                    assert(score >= b ==> total == (b, self.cached()));
                }
                assert(det ==> (score >= b ==> total == (b, self.cached())));
            }
            if score >= b {
                return b;
            }
            if score > a {
                a = score;
            }
            if score > best {
                best = score;
            }
            i = i + 1;
        }
        let bound = Self::bound_for(best, original_alpha, b);
        self.cache.cache_insert(game.get_hash(), (best, depth, bound));
        best
    }
}

/// The top-level search's loop over `list` from entry `i` with the best
/// score and move so far `best`: with the game's history full it stops;
/// otherwise each move is searched to `depth - 1` plies in the full window,
/// and a higher negated score than the best so far, with its move, becomes
/// the best. It gives the best and what the cache holds after.
pub open spec fn base_loop(
    cache: Map<u64, Item>,
    k: PositionKey,
    depth: u16,
    list: Seq<(i32, Move)>,
    i: nat,
    best: (i32, Move),
) -> ((i32, Move), Map<u64, Item>)
    decreases list.len() - i,
{
    if i >= list.len() || k.6 >= 256 {
        (best, cache)
    } else {
        let m = list[i as int].1;
        let cr = search(cache, key_after(k, m), (depth - 1) as u16, (-CHECKMATE) as i32, CHECKMATE, 0, MAX_EXTENSIONS);
        let score = -cr.0;
        base_loop(cr.1, k, depth, list, i + 1, if best.0 >= score { best } else { (score as i32, m) })
    }
}

/// The top-level search of the game with key `k` to `depth` plies with the
/// cache holding `cache`: the best score and the first move in search order
/// that reaches it (the lowest score and the placeholder move without a
/// move), and what the cache holds after.
#[verifier::opaque]
pub open spec fn base_search(cache: Map<u64, Item>, k: PositionKey, depth: u16) -> ((i32, Move), Map<u64, Item>) {
    base_loop(cache, k, depth, ordered_moves(cache, key_game(k)), 0, (i32::MIN, base_move_spec()))
}

/// Iterative deepening under a depth limit `d`, from a completed search to
/// `depth` that gave `best`: it stops at a mate score, at the limit or the
/// largest depth, or when a deeper search finds no move; otherwise the
/// search one ply deeper gives the new best. It gives the best score, move
/// and depth of the last search kept, and what the cache holds after.
pub open spec fn deepen(cache: Map<u64, Item>, k: PositionKey, depth: u16, best: (i32, Move), d: u16) -> (
    (i32, Move, u16),
    Map<u64, Item>,
)
    decreases d - depth,
{
    if best.0 >= CHECKMATE - 50 || depth >= d || depth == u16::MAX {
        ((best.0, best.1, depth), cache)
    } else {
        let s = base_search(cache, k, (depth + 1) as u16);
        if s.0.1 == base_move_spec() {
            ((best.0, best.1, depth), s.1)
        } else {
            deepen(s.1, k, (depth + 1) as u16, s.0, d)
        }
    }
}

/// What `best_move` gives under a depth limit `d`, with the cache holding
/// `cache`: the search to depth one (nothing when `d` is zero), then
/// iterative deepening.
pub open spec fn best_move_spec(cache: Map<u64, Item>, k: PositionKey, d: u16) -> ((i32, Move, u16), Map<u64, Item>) {
    let first = if 1 <= d { base_search(cache, k, 1) } else { ((0i32, base_move_spec()), cache) };
    deepen(first.1, k, 1, first.0, d)
}

/// Deepening from the result of a complete search to `depth` gives the
/// score and move of one complete search to the depth it reports.
proof fn lemma_deepen_one_search(cache: Map<u64, Item>, k: PositionKey, depth: u16, best: (i32, Move), d: u16)
    requires
        exists|c: Map<u64, Item>| #[trigger] base_search(c, k, depth).0 == best,
    ensures
        exists|c: Map<u64, Item>|
            #[trigger] base_search(c, k, deepen(cache, k, depth, best, d).0.2).0 == (
                deepen(cache, k, depth, best, d).0.0,
                deepen(cache, k, depth, best, d).0.1,
            ),
    decreases d - depth,
{
    let r = deepen(cache, k, depth, best, d);
    let c0 = choose|c: Map<u64, Item>| #[trigger] base_search(c, k, depth).0 == best;
    if best.0 >= CHECKMATE - 50 || depth >= d || depth == u16::MAX {
        assert(base_search(c0, k, r.0.2).0 == (r.0.0, r.0.1));
    } else {
        let s = base_search(cache, k, (depth + 1) as u16);
        if s.0.1 != base_move_spec() {
            assert(base_search(cache, k, (depth + 1) as u16).0 == s.0);
            lemma_deepen_one_search(s.1, k, (depth + 1) as u16, s.0, d);
            assert(r == deepen(s.1, k, (depth + 1) as u16, s.0, d));
            let c1 = choose|c: Map<u64, Item>| #[trigger] base_search(c, k, r.0.2).0 == (r.0.0, r.0.1);
            assert(base_search(c1, k, r.0.2).0 == (r.0.0, r.0.1));
        } else {
            assert(base_search(c0, k, r.0.2).0 == (r.0.0, r.0.1));
        }
    }
}

/// What `best_move` gives under a depth limit of at least one ply is the
/// score and move of one complete search to the depth it reports: a deeper
/// search's result replaces a shallower one whole, never its score alone.
pub proof fn law_best_move_from_one_search(cache: Map<u64, Item>, k: PositionKey, d: u16)
    requires
        d >= 1,
    ensures
        exists|c: Map<u64, Item>|
            #[trigger] base_search(c, k, best_move_spec(cache, k, d).0.2).0 == (
                best_move_spec(cache, k, d).0.0,
                best_move_spec(cache, k, d).0.1,
            ),
{
    let first = base_search(cache, k, 1);
    assert(base_search(cache, k, 1).0 == first.0);
    lemma_deepen_one_search(first.1, k, 1, first.0, d);
    let r = deepen(first.1, k, 1, first.0, d);
    assert(best_move_spec(cache, k, d) == r);
    let c = choose|c: Map<u64, Item>| #[trigger] base_search(c, k, r.0.2).0 == (r.0.0, r.0.1);
    assert(base_search(c, k, r.0.2).0 == (r.0.0, r.0.1));
}

impl Engine {
    /// Searches each legal move of the side to move to `depth` plies, best
    /// ordered first, and returns the best score with its move; the
    /// placeholder move when there is none, when time runs out before the
    /// first move is searched, or when the game's history is full.
    #[verifier::rlimit(100)]
    #[verifier::spinoff_prover]
    pub fn eval_rec_base(&mut self, game: &mut Game, depth: u16) -> (r: (i32, Move))
        requires
            old(game).sound(),
            old(self).wf(),
            depth >= 1,
        ensures
            final(self).wf(),
            final(self).limit() == old(self).limit(),
            final(self).started() == old(self).started(),
            same_position(*old(game), *final(game)),
            r.1 == base_move_spec() || (legal_move(*old(game), old(game).to_move, r.1) && -CHECKMATE <= r.0
                <= CHECKMATE),
            (old(self).limit() matches CalcConstraint::Depth(d) && depth <= d) && old(game).prev_pos.prev_pos_idx
                < 256 && (exists|m: Move| legal_move(*old(game), old(game).to_move, m)) ==> legal_move(
                *old(game),
                old(game).to_move,
                r.1,
            ),
            (old(self).limit() matches CalcConstraint::Depth(d) && depth <= d) ==> r == base_search(
                old(self).cached(),
                position_key(*old(game)),
                depth,
            ).0 && final(self).cached() == base_search(old(self).cached(), position_key(*old(game)), depth).1,
            (old(self).limit() matches CalcConstraint::Depth(d) && depth > d) ==> r == (0i32, base_move_spec())
                && final(self).cached() == old(self).cached(),
    {
        let ghost g0 = *game;
        let ghost e0 = *self;
        let ghost det = e0.limit() matches CalcConstraint::Depth(d) && depth <= d;
        let ghost k0 = position_key(g0);
        let ghost gk = key_game(k0);
        let ghost total = base_search(e0.cached(), k0, depth);
        proof {
            reveal(base_search);
            lemma_same_position_trans(g0, g0, g0);
            lemma_key_game(g0);
        }
        let mut best: (i32, Move) = (i32::MIN, base_move());
        let c = game.get_to_move();
        let p_moves = game.get_all_moves(c);
        if self.timed_out(depth) {
            return (0, base_move());
        }
        let mut scored: Vec<(i32, Move)> = Vec::new();
        let mut k: usize = 0;
        while k < p_moves.len()
            invariant
                *game == g0,
                *self == e0,
                g0.sound(),
                c == g0.to_move,
                k <= p_moves@.len(),
                scored@.len() == k,
                forall|m: Move| #[trigger] p_moves@.contains(m) <==> legal_move(g0, c, m),
                forall|m: Move| #[trigger] p_moves@.contains(m) ==> g0.move_ok(m),
                forall|x: (i32, Move)| #[trigger] scored@.contains(x) ==> legal_move(g0, c, x.1),
                scored@ == p_moves@.take(k as int).map_values(|x: Move| (order_score(e0.cached(), g0, x) as i32, x)),
            decreases p_moves@.len() - k,
        {
            let m = p_moves[k];
            assert(p_moves@.contains(m));
            let ghost before = scored@;
            let entry: (i32, Move) = (self.move_order_score(game, m), m);
            scored.push(entry);
            proof {
                assert forall|x: (i32, Move)| #[trigger] scored@.contains(x) implies legal_move(g0, c, x.1) by {
                    if x != entry {
                        vstd::seq_lib::lemma_seq_contains_after_push(before, entry, x);
                    }
                }
                assert(scored@ =~= p_moves@.take(k + 1).map_values(|x: Move| (order_score(e0.cached(), g0, x) as i32, x)));
            }
            k = k + 1;
        }
        proof {
            if exists|m: Move| legal_move(g0, c, m) {
                let m = choose|m: Move| legal_move(g0, c, m);
                assert(p_moves@.contains(m));
            }
        }
        let sorted = sort_scored(scored);
        proof {
            assert(p_moves@.take(p_moves@.len() as int) =~= p_moves@);
            lemma_same_position(g0, gk);
            assert(pseudo_seq(gk, gk.to_move) == pseudo_seq(g0, c));
            assert((|m: Move| legal_fast(gk, m, gk.in_check(gk.to_move))) =~= (|m: Move| legal_fast(g0, m, g0.in_check(c))));
            assert(search_moves(gk) == p_moves@);
            assert forall|x: Move| #[trigger] order_score(e0.cached(), gk, x) == order_score(e0.cached(), g0, x) by {
                lemma_order_score_same(e0.cached(), g0, gk, x);
            }
            assert((|x: Move| (order_score(e0.cached(), gk, x) as i32, x)) =~= (|x: Move| (order_score(e0.cached(), g0, x) as i32, x)));
            assert(ordered_moves(e0.cached(), gk) == sorted@);
        }
        let mut i: usize = 0;
        while i < sorted.len()
            invariant
                same_position(g0, *game),
                g0 == *old(game),
                e0 == *old(self),
                g0.sound(),
                self.wf(),
                self.limit() == e0.limit(),
                self.started() == e0.started(),
                c == g0.to_move,
                i <= sorted@.len(),
                forall|x: (i32, Move)| #[trigger] sorted@.contains(x) ==> legal_move(g0, c, x.1),
                best.1 == base_move_spec() || (legal_move(g0, c, best.1) && -CHECKMATE <= best.0 <= CHECKMATE),
                (best.1 == base_move_spec()) ==> best.0 == i32::MIN,
                (e0.limit() matches CalcConstraint::Depth(d) && depth <= d) && g0.prev_pos.prev_pos_idx < 256
                    && i > 0 ==> legal_move(g0, c, best.1),
                1 <= depth,
                det == (e0.limit() matches CalcConstraint::Depth(d) && depth <= d),
                k0 == position_key(g0),
                total == base_search(e0.cached(), k0, depth),
                det ==> total == base_loop(self.cached(), k0, depth, sorted@, i as nat, best),
                !(e0.limit() matches CalcConstraint::Depth(d) && depth > d),
            decreases sorted@.len() - i,
        {
            let ghost ci = self.cached();
            let m = sorted[i].1;
            proof {
                assert(sorted@.contains(sorted@[i as int]));
                lemma_same_position(g0, *game);
                lemma_legal_move_ok(*game, m);
            }
            if game.prev_pos.prev_pos_idx >= 256 {
                return best;
            }
            let ghost gm = *game;
            game.move_piece(m);
            let ghost g1 = *game;
            proof {
                lemma_after_move(gm, m, g1);
            }
            let child = self.eval_rec(game, depth - 1, -CHECKMATE, CHECKMATE, 0, MAX_EXTENSIONS);
            proof {
                lemma_same_position(g1, *game);
            }
            game.undo_move();
            proof {
                assert(Game::undone(g1, *game));
                lemma_same_position_trans(g0, gm, *game);
            }
            if self.timed_out(depth) {
                return best;
            }
            let score = -child;
            proof {
                if det {
                    lemma_key_after(g0, gm, m, g1);
                    let cr = search(ci, key_after(k0, m), (depth - 1) as u16, (-CHECKMATE) as i32, CHECKMATE, 0,
                        MAX_EXTENSIONS);
                    assert(child == cr.0 && self.cached() == cr.1);
                }
            }
            best = if best.0 >= score {
                best
            } else {
                (score, m)
            };
            i = i + 1;
        }
        best
    }

    /// Deepens the search one ply at a time, from depth one, until a mate
    /// is found, the limit is reached, or a deeper search is cut short, and
    /// returns the best score and move of the last complete search with its
    /// depth. The clock starts after the first search.
    pub fn best_move(&mut self, game: &mut Game) -> (r: (i32, Move, u16))
        requires
            old(game).sound(),
            old(self).wf(),
        ensures
            final(self).wf(),
            final(self).limit() == old(self).limit(),
            same_position(*old(game), *final(game)),
            r.1 == base_move_spec() || legal_move(*old(game), old(game).to_move, r.1),
            r.2 >= 1,
            (old(self).limit() matches CalcConstraint::Depth(d) && d >= 1) && old(game).prev_pos.prev_pos_idx
                < 256 && (exists|m: Move| legal_move(*old(game), old(game).to_move, m)) ==> legal_move(
                *old(game),
                old(game).to_move,
                r.1,
            ),
            old(self).limit() matches CalcConstraint::Depth(d) ==> r == best_move_spec(
                old(self).cached(),
                position_key(*old(game)),
                d,
            ).0 && final(self).cached() == best_move_spec(old(self).cached(), position_key(*old(game)), d).1,
            (old(self).limit() matches CalcConstraint::Depth(d) && d >= 1) ==> exists|c: Map<u64, Item>|
                #[trigger] base_search(c, position_key(*old(game)), r.2).0 == (r.0, r.1),
    {
        let ghost g0 = *game;
        let ghost e0 = *self;
        let ghost det = e0.limit() is Depth;
        let ghost dd: u16 = match e0.limit() {
            CalcConstraint::Depth(d) => d,
            _ => 0,
        };
        let ghost k0 = position_key(g0);
        let ghost total = best_move_spec(e0.cached(), k0, dd);
        proof {
            if det && dd >= 1 {
                law_best_move_from_one_search(e0.cached(), k0, dd);
            }
        }
        let mut depth: u16 = 1;
        let mut best = self.eval_rec_base(game, depth);
        self.start_time = instant_now();
        loop
            invariant
                same_position(g0, *game),
                g0 == *old(game),
                e0 == *old(self),
                g0.sound(),
                self.wf(),
                self.limit() == e0.limit(),
                1 <= depth,
                best.1 == base_move_spec() || legal_move(g0, g0.to_move, best.1),
                (e0.limit() matches CalcConstraint::Depth(d) && d >= 1) && g0.prev_pos.prev_pos_idx < 256 && (exists|
                    m: Move,
                | legal_move(g0, g0.to_move, m)) ==> legal_move(g0, g0.to_move, best.1),
                e0.limit() matches CalcConstraint::Depth(d) ==> (d >= 1 ==> depth <= d),
                det == (e0.limit() is Depth),
                det ==> e0.limit() == CalcConstraint::Depth(dd),
                k0 == position_key(g0),
                total == best_move_spec(e0.cached(), k0, dd),
                det ==> total == deepen(self.cached(), k0, depth, best, dd),
                det && dd >= 1 ==> exists|c: Map<u64, Item>|
                    #[trigger] base_search(c, k0, total.0.2).0 == (total.0.0, total.0.1),
            decreases u16::MAX - depth,
        {
            if best.0 >= CHECKMATE - 50 || self.timed_out(depth) {
                return (best.0, best.1, depth);
            }
            if depth == u16::MAX {
                return (best.0, best.1, depth);
            }
            depth = depth + 1;
            proof {
                lemma_same_position(g0, *game);
            }
            let ghost gd = *game;
            let ghost cd = self.cached();
            let s = self.eval_rec_base(game, depth);
            proof {
                lemma_same_position_trans(g0, gd, *game);
                lemma_same_position(g0, gd);
                lemma_key_game(g0);
                lemma_same_position_trans(g0, gd, gd);
                assert(position_key(gd) == k0);
            }
            if self.timed_out(depth) || s.1 == base_move() {
                return (best.0, best.1, depth - 1);
            }
            best = s;
        }
    }
}

} // verus!
