use std::time::Duration;

use chian::cache::{Cache, CacheBound, CacheEntry, CacheTrait, DashCache};
use chian::engine::{base_move, CalcConstraint, Engine, Probe, CHECKMATE, DRAW};
use chian::eval::GameStage;
use chian::game::Game;
use chian::search::sort_scored;
use chian::types::{Color, Move, PieceTy, Square};

#[test]
fn piece_values() {
    assert_eq!(Engine::piece_value_raw(PieceTy::Pawn), 1);
    assert_eq!(Engine::piece_value_raw(PieceTy::Knight), 3);
    assert_eq!(Engine::piece_value_raw(PieceTy::Bishop), 3);
    assert_eq!(Engine::piece_value_raw(PieceTy::Rook), 5);
    assert_eq!(Engine::piece_value_raw(PieceTy::Queen), 9);
    assert_eq!(Engine::piece_value_raw(PieceTy::King), 0);
}

#[test]
fn material_and_stage_at_start() {
    let game = Game::default();
    assert_eq!(Engine::get_piece_score_color(&game, Color::White), 39);
    assert_eq!(Engine::get_piece_score_color(&game, Color::Black), 39);
    assert_eq!(Engine::get_game_stage(&game), GameStage::Mid);
    let bare = Game::from_fen("4k3/8/8/8/8/8/8/4K2R w - - 0 1");
    assert_eq!(Engine::get_game_stage(&bare), GameStage::End);
}

#[test]
fn table_scores() {
    let engine = Engine::new(CalcConstraint::Depth(1));
    let wp = Square::piece(PieceTy::Pawn, Color::White);
    let bp = Square::piece(PieceTy::Pawn, Color::Black);
    assert_eq!(engine.piece_pos(GameStage::Mid, wp, (3, 3)), 4);
    assert_eq!(engine.piece_pos(GameStage::Mid, bp, (3, 4)), 4);
    assert_eq!(engine.piece_pos(GameStage::Mid, wp, (3, 1)), -4);
    let wk = Square::piece(PieceTy::King, Color::White);
    assert_eq!(engine.piece_pos(GameStage::Early, wk, (6, 0)), 6);
    assert_eq!(engine.piece_pos(GameStage::End, wk, (6, 0)), -6);
    assert_eq!(Engine::table_value(PieceTy::Knight, GameStage::Mid, 0, 0), -50);
}

#[test]
fn evaluation_is_symmetric_at_start() {
    let mut engine = Engine::new(CalcConstraint::Depth(1));
    let game = Game::default();
    let w = engine.eval_base_color(&game, Color::White);
    let b = engine.eval_base_color(&game, Color::Black);
    assert_eq!(w, b);
    assert_eq!(engine.eval_base(&game, 0), 4);
}

#[test]
fn checkmated_side_scores_the_worst() {
    let mut engine = Engine::new(CalcConstraint::Depth(1));
    let mate = Game::from_fen("rnb1kbnr/pppp1ppp/8/4p3/6Pq/5P2/PPPPP2P/RNBQKBNR w KQkq - 1 3");
    assert_eq!(engine.eval_base(&mate, 3), -CHECKMATE + 3);
}

#[test]
fn extension_and_capture_squares() {
    let game = Game::from_fen("4k3/8/8/3pP3/8/8/8/4K3 w - d6 0 1");
    let m = Move::from_str("e5d6");
    assert_eq!(Engine::captured_square(&game, m), Square::piece(PieceTy::Pawn, Color::Black));
    let check = Game::from_fen("4k3/8/8/8/8/8/8/4R1K1 b - - 0 1");
    assert_eq!(Engine::extension_depth(&check, 2, base_move(), 1), 1);
    assert_eq!(Engine::extension_depth(&check, 4, base_move(), 1), 0);
    assert_eq!(Engine::extension_depth(&check, 2, base_move(), 0), 0);
}

#[test]
fn move_order_prefers_valuable_captures() {
    let engine = Engine::new(CalcConstraint::Depth(1));
    let game = Game::from_fen("4k3/8/8/3q4/4P3/8/8/4K3 w - - 0 1");
    let takes_queen = Move::from_str("e4d5");
    assert_eq!(engine.move_order_score(&game, takes_queen), 10000 + 90 - 1);
    let push = Move::from_str("e4e5");
    assert_eq!(engine.move_order_score(&game, push), 0);
    let promo = Game::from_fen("4k3/P7/8/8/8/8/8/4K3 w - - 0 1");
    assert_eq!(engine.move_order_score(&promo, Move::from_str("a7a8q")), 9000);
}

#[test]
fn cache_probe_decisions() {
    let mut engine = Engine::new(CalcConstraint::Depth(2));
    let game = Game::default();
    assert_eq!(engine.probe_cache(&game, 2, -10, 10), Probe::Window(-10, 10));
    let _ = engine.best_move(&mut game.clone());
    let probe = engine.probe_cache(&game, 200, -10, 10);
    assert_eq!(probe, Probe::Window(-10, 10));
    assert_eq!(Engine::bound_for(5, 5, 10), CacheBound::Upper);
    assert_eq!(Engine::bound_for(10, 5, 10), CacheBound::Lower);
    assert_eq!(Engine::bound_for(7, 5, 10), CacheBound::Exact);
}

#[test]
fn depth_limit_and_think_time() {
    let mut engine = Engine::new(CalcConstraint::Depth(3));
    assert!(!engine.timed_out(3));
    assert!(engine.timed_out(4));
    engine.set_think_time(Duration::from_millis(0), Duration::from_secs(60));
    assert!(engine.try_set_think_time(Duration::from_secs(2), Duration::from_secs(60)));
    assert!(!engine.try_set_think_time(Duration::from_millis(0), Duration::from_secs(10)));
    let _ = engine.elapsed();
}

#[test]
fn best_move_finds_mate_in_one() {
    let mut engine = Engine::new(CalcConstraint::Depth(3));
    let mut game = Game::from_fen("6k1/5ppp/8/8/8/8/5PPP/R5K1 w - - 0 1");
    let before = game.get_hash();
    let (score, m, depth) = engine.best_move(&mut game);
    assert_eq!(m, Move::from_str("a1a8"));
    assert!(score >= CHECKMATE - 50);
    assert_eq!(depth, 1);
    assert_eq!(game.get_hash(), before);
}

#[test]
fn best_move_returns_a_legal_move() {
    let mut engine = Engine::new(CalcConstraint::Depth(2));
    let mut game = Game::default();
    let (_, m, depth) = engine.best_move(&mut game);
    assert!(game.get_all_moves(Color::White).contains(&m));
    assert_eq!(depth, 2);
    assert_ne!(m, base_move());
}

#[test]
fn best_move_takes_a_hanging_queen() {
    let mut engine = Engine::new(CalcConstraint::Depth(2));
    let mut game = Game::from_fen("4k3/8/8/3q4/4P3/8/8/4K3 w - - 0 1");
    let (_, m, _) = engine.best_move(&mut game);
    assert_eq!(m, Move::from_str("e4d5"));
}

#[test]
fn search_scores_terminal_positions() {
    let mut engine = Engine::new(CalcConstraint::Depth(5));
    let mut mate = Game::from_fen("rnb1kbnr/pppp1ppp/8/4p3/6Pq/5P2/PPPPP2P/RNBQKBNR w KQkq - 1 3");
    assert_eq!(engine.eval_rec(&mut mate, 2, -CHECKMATE, CHECKMATE, 0, 0), -CHECKMATE);
    let mut stale = Game::from_fen("7k/5Q2/6K1/8/8/8/8/8 b - - 0 1");
    assert_eq!(engine.eval_rec(&mut stale, 2, -CHECKMATE, CHECKMATE, 0, 0), DRAW);
    let mut quiet = Game::default();
    let q = engine.quiescence(&mut quiet, -100, 100, 0);
    assert_eq!(q, 4);
}

#[test]
fn sorting_scored_moves() {
    let a = Move::from_str("e2e4");
    let b = Move::from_str("d2d4");
    let c = Move::from_str("g1f3");
    let sorted = sort_scored(vec![(1, a), (5, b), (3, c)]);
    assert_eq!(sorted, vec![(5, b), (3, c), (1, a)]);
}

#[test]
fn bucket_cache_stores_and_finds() {
    let mut cache = Cache::new();
    assert_eq!(cache.get(12345), None);
    cache.insert(12345, (17, 3, CacheBound::Lower));
    assert_eq!(cache.get(12345), Some((17, 3, CacheBound::Lower)));
    assert_eq!(cache.cache_get(12345), Some((17, 3, CacheBound::Lower)));
    let e = CacheEntry::from_item((5, 2, CacheBound::Exact), 9);
    assert!(!e.is_empty());
    assert_eq!(e.to_item(), (5, 2, CacheBound::Exact));
}

#[test]
fn bucket_cache_full_bucket_rotates() {
    let mut cache = Cache::new();
    let stride: u64 = 65536;
    for k in 1..=9u64 {
        cache.insert(k * stride, (k as i32, 1, CacheBound::Exact));
    }
    assert_eq!(cache.get(9 * stride), Some((9, 1, CacheBound::Exact)));
    assert_eq!(cache.get(1 * stride), None);
    assert_eq!(cache.get(8 * stride), Some((8, 1, CacheBound::Exact)));
}

#[test]
fn hash_map_cache_stores_and_finds() {
    let mut cache = DashCache::cache_new();
    assert_eq!(cache.cache_get(7), None);
    cache.cache_insert(7, (3, 1, CacheBound::Upper));
    cache.cache_insert(8, (4, 1, CacheBound::Lower));
    assert_eq!(cache.cache_get(7), Some((3, 1, CacheBound::Upper)));
    cache.insert_item(7, (9, 2, CacheBound::Exact));
    assert_eq!(cache.get_item(7), Some((9, 2, CacheBound::Exact)));
    assert_eq!(cache.get_item(8), Some((4, 1, CacheBound::Lower)));
}

#[test]
fn mobility_weighs_moves_by_piece() {
    let engine = Engine::new(CalcConstraint::Depth(1));
    let game = Game::default();
    assert_eq!(engine.mobility(&game, Color::White), 16);
    let open = Game::from_fen("4k3/8/8/8/8/8/8/R3K3 w - - 0 1");
    assert_eq!(engine.mobility(&open, Color::White), 2 * 10);
}
