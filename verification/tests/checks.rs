use chian::fen::fen_is_readable;
use chian::game::Game;
use chian::notation::uci_is_readable;
use chian::search::explore;
use chian::types::Move;

#[test]
fn readable_move_texts() {
    assert!(uci_is_readable("e2e4"));
    assert!(uci_is_readable("e7e8q"));
    assert!(uci_is_readable("h9a1"));
    assert!(!uci_is_readable("e2e"));
    assert!(!uci_is_readable("e2e4k"));
    assert!(!uci_is_readable("i2e4"));
    assert!(!uci_is_readable("e0e4"));
    assert!(!uci_is_readable("e2e4qq"));
}

#[test]
fn readable_position_texts() {
    assert!(fen_is_readable("rnbqkbnr/pppppppp/8/8/8/8/PPPPPPPP/RNBQKBNR w KQkq - 0 1"));
    assert!(fen_is_readable("8/8/8/8/8/8/8/K6k"));
    assert!(fen_is_readable("4k3/8/8/3pP3/8/8/8/4K3 w - d6 0 1"));
    assert!(!fen_is_readable("rnbqkbnr/pppppppp/8/8/8/8/PPPPPPPP/RNBQKBNR/8 w KQkq - 0 1"));
    assert!(!fen_is_readable("rnbqkbnr/ppppxppp/8/8/8/8/PPPPPPPP/RNBQKBNR w KQkq - 0 1"));
    assert!(!fen_is_readable("9k/8/8/8/8/8/8/K7 w - - 0 1"));
    assert!(!fen_is_readable("4k3/8/8/8/8/8/8/4K3 w - e9 0 1"));
    assert!(!fen_is_readable("4k3/8/8/8/8/8/8/4K3 w - e 0 1"));
}

#[test]
fn soundness_of_positions() {
    assert!(Game::default().is_sound());
    assert!(Game::default().board.is_consistent());
    let ep = Game::from_fen("4k3/8/8/3pP3/8/8/8/4K3 w - d6 0 1");
    assert!(ep.is_sound());
    let no_victim = Game::from_fen("4k3/8/8/4P3/8/8/8/4K3 w - d6 0 1");
    assert!(!no_victim.is_sound());
    let two_kings = Game::from_fen("4k3/8/8/8/8/8/8/3KK3 w - - 0 1");
    assert!(!two_kings.is_sound());
    let no_rook = Game::from_fen("4k3/8/8/8/8/8/8/4K3 w K - 0 1");
    assert!(!no_rook.is_sound());
    let mut g = Game::default();
    g.move_piece(Move::from_str("e2e4"));
    assert!(g.is_sound());
}

#[test]
fn explore_counts_and_restores() {
    let mut game = Game::default();
    let before = game.get_hash();
    assert_eq!(explore(&mut game, 0), 1);
    assert_eq!(explore(&mut game, 1), 20);
    assert_eq!(explore(&mut game, 2), 400);
    assert_eq!(game.get_hash(), before);
    let mut kiwipete =
        Game::from_fen("r3k2r/p1ppqpb1/bn2pnp1/3PN3/1p2P3/2N2Q1p/PPPBBPPP/R3K2R w KQkq - 0 1");
    assert_eq!(explore(&mut kiwipete, 1), 48);
}
