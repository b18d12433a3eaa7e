use std::time::Duration;

use chian::bot::{on_game_full, on_game_state, start_game, text_is, BotAction};
use chian::engine::{CalcConstraint, Engine};
use chian::game::Game;
use chian::types::{Color, Move, PieceTy, Square};
use chian::ui::{on_key, wrap, BoardCursor, Key};

#[test]
fn playing_a_move_list() {
    let mut game = Game::default();
    assert!(game.play_words("e2e4 e7e5  g1f3 "));
    assert_eq!(game.moves.len(), 3);
    assert_eq!(game.moves[2].m, Move::from_str("g1f3"));
    let direct =
        Game::from_fen("rnbqkbnr/pppp1ppp/8/4p3/4P3/5N2/PPPP1PPP/RNBQKB1R b KQkq - 1 2");
    assert_eq!(game.get_hash(), direct.get_hash());
}

#[test]
fn a_bad_move_stops_the_list() {
    let mut game = Game::default();
    assert!(!game.play_words("e2e4 e2e4 d7d5"));
    assert_eq!(game.moves.len(), 1);
    let mut other = Game::default();
    assert!(!other.play_words("zz"));
    assert_eq!(other.moves.len(), 0);
    let mut empty = Game::default();
    assert!(empty.play_words(""));
}

#[test]
fn starting_games() {
    assert!(text_is("startpos", "startpos"));
    assert!(!text_is("startpo", "startpos"));
    assert!(start_game("startpos").is_some());
    assert!(start_game("8/8/8/8/8/8/8/K6k w - - 0 1").is_some());
    assert!(start_game("not a position").is_none());
}

#[test]
fn full_game_description() {
    let mut engine = Engine::new(CalcConstraint::Depth(1));
    let game = on_game_full(&mut engine, None, "startpos", "e2e4 e7e5").unwrap();
    assert_eq!(game.moves.len(), 2);
    assert_eq!(game.get_to_move(), Color::White);
    let clock = Some((Duration::from_millis(0), Duration::from_millis(1000)));
    assert!(on_game_full(&mut engine, clock, "startpos", "").is_none());
    let fast = Some((Duration::from_secs(1), Duration::from_secs(60)));
    assert!(on_game_full(&mut engine, fast, "startpos", "e2e4 e2e4").is_none());
}

#[test]
fn answering_game_states() {
    let mut engine = Engine::new(CalcConstraint::Depth(1));
    let mut game = Game::default();
    assert_eq!(on_game_state(&mut engine, &mut game, Color::Black, false, "e2e4"), Some(BotAction::Finish));
    assert_eq!(game.moves.len(), 0);
    let answer = on_game_state(&mut engine, &mut game, Color::Black, true, "e2e4").unwrap();
    match answer {
        BotAction::Play(m) => assert!(game.get_all_moves(Color::Black).contains(&m)),
        other => panic!("expected a move, got {other:?}"),
    }
    let mut g2 = Game::default();
    assert_eq!(on_game_state(&mut engine, &mut g2, Color::White, true, "e2e4"), Some(BotAction::Wait));
    let mut g3 = Game::default();
    assert_eq!(on_game_state(&mut engine, &mut g3, Color::White, true, "e2e5"), None);
    assert_eq!(g3.moves.len(), 0);
}

#[test]
fn cursor_wraps_at_the_edges() {
    assert_eq!(wrap(-1), 1);
    assert_eq!(wrap(8), 0);
    assert_eq!(wrap(3), 3);
}

#[test]
fn keys_move_the_cursor_and_play() {
    let mut game = Game::default();
    let mut cur = BoardCursor { pos: (4, 1), selected: None };
    assert!(!on_key(&mut game, &mut cur, Key::Enter, Color::Black));
    assert_eq!(cur.selected, Some((4, 1)));
    on_key(&mut game, &mut cur, Key::Up, Color::Black);
    on_key(&mut game, &mut cur, Key::Up, Color::Black);
    assert_eq!(cur.pos, (4, 3));
    on_key(&mut game, &mut cur, Key::Enter, Color::Black);
    assert_eq!(cur.selected, None);
    assert_eq!(game.get((4, 3)), Square::piece(PieceTy::Pawn, Color::White));
    assert_eq!(game.get_to_move(), Color::Black);
    let before = cur;
    on_key(&mut game, &mut cur, Key::Left, Color::Black);
    assert_eq!(cur, before);
    assert!(on_key(&mut game, &mut cur, Key::Quit, Color::Black));
}

#[test]
fn no_answer_once_mated() {
    let mut engine = Engine::new(CalcConstraint::Depth(2));
    let mut game = Game::default();
    assert!(game.play_words("f2f3 e7e5 g2g4"));
    assert_eq!(on_game_state(&mut engine, &mut game, Color::White, true, "f2f3 e7e5 g2g4 d8h4"), None);
    assert_eq!(game.moves.len(), 4);
    assert_eq!(game.get_all_moves(Color::White).len(), 0);
}

#[test]
fn an_unsound_start_is_refused() {
    let mut engine = Engine::new(CalcConstraint::Depth(1));
    let mut game = Game::from_fen("8/8/8/8/8/8/8/8 w - - 0 1");
    assert!(!game.play_words(""));
    assert!(on_game_full(&mut engine, None, "8/8/8/8/8/8/8/8 w - - 0 1", "").is_none());
    assert!(on_game_full(&mut engine, None, "8/8/8/8/8/8/8/K6k w - - 0 1", "a1b1").is_some());
}
