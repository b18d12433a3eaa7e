use chian::game::Game;
use chian::types::{Color, Move, PieceTy, Square};

const START: &str = "rnbqkbnr/pppppppp/8/8/8/8/PPPPPPPP/RNBQKBNR w KQkq - 0 1";

fn perft(game: &mut Game, depth: u32) -> u64 {
    if depth == 0 {
        return 1;
    }
    let moves = game.get_all_moves(game.get_to_move());
    let mut n = 0;
    for m in moves {
        game.move_piece(m);
        n += perft(game, depth - 1);
        game.undo_move();
    }
    n
}

#[test]
fn start_position_has_twenty_moves() {
    let game = Game::default();
    assert_eq!(game.get_all_moves(Color::White).len(), 20);
}

#[test]
fn perft_from_start() {
    let mut game = Game::default();
    assert_eq!(perft(&mut game, 1), 20);
    assert_eq!(perft(&mut game, 2), 400);
    assert_eq!(perft(&mut game, 3), 8902);
}

#[test]
fn default_matches_start_fen() {
    let a = Game::default();
    let b = Game::from_fen(START);
    assert_eq!(a.get_hash(), b.get_hash());
    assert_eq!(a.get_to_move(), b.get_to_move());
    assert_eq!(a.castleable, b.castleable);
    assert_eq!(a.enpass, b.enpass);
    for y in 0..8 {
        for x in 0..8 {
            assert_eq!(a.get((x, y)), b.get((x, y)));
        }
    }
    assert_eq!(a.get((4, 0)), Square::piece(PieceTy::King, Color::White));
    assert_eq!(a.get((3, 7)), Square::piece(PieceTy::Queen, Color::Black));
    assert!(a.get((4, 4)).is_empty());
}

#[test]
fn move_text_reads_and_writes() {
    let m = Move::from_str("e2e4");
    assert_eq!(m, Move { from: (4, 1), to: (4, 3), promotion: None });
    assert_eq!(m.to_string(), "e2e4");
    let p = Move::from_str("a7a8q");
    assert_eq!(p.promotion, Some(PieceTy::Queen));
    assert_eq!(p.to_string(), "a7a8q");
    let n = Move { from: (6, 6), to: (7, 7), promotion: Some(PieceTy::Knight) };
    assert_eq!(Move::from_str(&n.to_string()), n);
    assert_eq!(n.to_string(), "g7h8n");
}

#[test]
fn move_text_of_high_ranks() {
    let m = Move { from: (0, 8), to: (7, 9), promotion: None };
    assert_eq!(m.to_string(), "a9h10");
}

#[test]
fn undo_restores_position() {
    let mut game = Game::default();
    let before = game.get_hash();
    let m = Move::from_str("g1f3");
    game.move_piece(m);
    assert_ne!(game.get_hash(), before);
    assert_eq!(game.get_to_move(), Color::Black);
    game.undo_move();
    assert_eq!(game.get_hash(), before);
    assert_eq!(game.get_to_move(), Color::White);
    assert_eq!(game.get((6, 0)), Square::piece(PieceTy::Knight, Color::White));
    assert!(game.get((5, 2)).is_empty());
}

#[test]
fn hash_follows_the_position() {
    let mut game = Game::default();
    game.move_piece(Move::from_str("e2e4"));
    let direct = Game::from_fen("rnbqkbnr/pppppppp/8/8/4P3/8/PPPP1PPP/RNBQKBNR b KQkq e3 0 1");
    assert_eq!(game.get_hash(), direct.get_hash());
    assert_eq!(game.enpass, Some((4, 2)));
    game.move_piece(Move::from_str("g8f6"));
    let direct2 = Game::from_fen("rnbqkb1r/pppppppp/5n2/8/4P3/8/PPPP1PPP/RNBQKBNR w KQkq - 1 2");
    assert_eq!(game.get_hash(), direct2.get_hash());
}

#[test]
fn hash_after_move_predicts_hash() {
    let mut game = Game::default();
    let m = Move::from_str("d2d4");
    let moving = game.get(m.from);
    let predicted = game.hash_after_move(m, moving);
    game.move_piece(m);
    assert_eq!(predicted, game.get_hash());
}

#[test]
fn castling_moves_the_rook() {
    let mut game = Game::from_fen("r3k2r/pppppppp/8/8/8/8/PPPPPPPP/R3K2R w KQkq - 0 1");
    let m = Move::from_str("e1g1");
    assert!(game.get_all_moves(Color::White).contains(&m));
    game.move_piece(m);
    assert_eq!(game.get((5, 0)), Square::piece(PieceTy::Rook, Color::White));
    assert_eq!(game.get((6, 0)), Square::piece(PieceTy::King, Color::White));
    assert!(game.get((7, 0)).is_empty());
    assert_eq!(game.castleable[0], (false, false));
    game.undo_move();
    assert_eq!(game.get((7, 0)), Square::piece(PieceTy::Rook, Color::White));
    assert_eq!(game.castleable[0], (true, true));
}

#[test]
fn en_passant_capture() {
    let mut game = Game::from_fen("4k3/8/8/3pP3/8/8/8/4K3 w - d6 0 1");
    let m = Move::from_str("e5d6");
    assert!(game.get_all_moves(Color::White).contains(&m));
    assert!(game.is_capture(m));
    assert_eq!(game.is_capture_known_move(m, game.get(m.from)), Some(true));
    game.move_piece(m);
    assert!(game.get((3, 4)).is_empty());
    assert_eq!(game.get((3, 5)), Square::piece(PieceTy::Pawn, Color::White));
    game.undo_move();
    assert_eq!(game.get((3, 4)), Square::piece(PieceTy::Pawn, Color::Black));
}

#[test]
fn promotion_offers_four_pieces() {
    let game = Game::from_fen("8/4P3/8/8/8/8/k7/4K3 w - - 0 1");
    let moves = game.get_all_moves(Color::White);
    let promos: Vec<_> = moves.iter().filter(|m| m.from == (4, 6)).collect();
    assert_eq!(promos.len(), 4);
    assert!(promos.iter().all(|m| m.promotion.is_some()));
}

#[test]
fn checkmate_and_stalemate() {
    let mate = Game::from_fen("rnb1kbnr/pppp1ppp/8/4p3/6Pq/5P2/PPPPP2P/RNBQKBNR w KQkq - 1 3");
    assert!(mate.check(Color::White));
    assert!(mate.checkmate(Color::White));
    assert!(!mate.stalemate(Color::White));
    assert!(!mate.has_any_legal_move(Color::White));
    let stale = Game::from_fen("7k/5Q2/6K1/8/8/8/8/8 b - - 0 1");
    assert!(!stale.check(Color::Black));
    assert!(stale.stalemate(Color::Black));
    assert!(!stale.checkmate(Color::Black));
}

#[test]
fn validity_of_user_moves() {
    let game = Game::default();
    assert!(game.is_valid(Move::from_str("e2e4")));
    assert!(game.is_valid(Move::from_str("g1f3")));
    assert!(!game.is_valid(Move::from_str("e2e5")));
    assert!(!game.is_valid(Move::from_str("e1g1")));
    assert!(!game.is_valid(Move::from_str("a1a3")));
    assert!(!game.is_valid(Move { from: (8, 0), to: (0, 0), promotion: None }));
    let castle = Game::from_fen("r3k2r/8/8/8/8/8/8/R3K2R w KQkq - 0 1");
    assert!(castle.is_valid(Move::from_str("e1g1")));
    assert!(castle.is_valid(Move::from_str("e1c1")));
    let through_check = Game::from_fen("r3k2r/8/8/8/8/8/5r2/R3K2R w KQkq - 0 1");
    assert!(!through_check.is_valid(Move::from_str("e1g1")));
}

#[test]
fn repetition_is_detected() {
    let mut game = Game::default();
    for _ in 0..2 {
        for t in ["g1f3", "g8f6", "f3g1", "f6g8"] {
            game.move_piece(Move::from_str(t));
        }
    }
    assert!(game.lose_on_repeat());
    assert!(game.has_been_played(&game));
    assert!(game.stalemate(Color::White));
}

#[test]
fn null_move_passes_the_turn() {
    let mut game = Game::from_fen("rnbqkbnr/pppppppp/8/8/4P3/8/PPPP1PPP/RNBQKBNR b KQkq e3 0 1");
    let before = game.get_hash();
    game.make_null_move();
    assert_eq!(game.get_to_move(), Color::White);
    assert_eq!(game.enpass, None);
    game.undo_move();
    assert_eq!(game.get_hash(), before);
    assert_eq!(game.enpass, Some((4, 2)));
    assert_eq!(game.get_to_move(), Color::Black);
}

#[test]
fn piece_queries() {
    let game = Game::default();
    assert_eq!(game.piece_count(Square::piece(PieceTy::Pawn, Color::White)), 8);
    assert_eq!(game.get_piece_pos(Square::piece(PieceTy::King, Color::Black)), (4, 7));
    let white = game.get_all_pieces_color(Color::White);
    assert_eq!(white.len(), 16);
    assert_eq!(white[0], (Square::piece(PieceTy::Pawn, Color::White), (0, 1)));
    assert_eq!(white[8], (Square::piece(PieceTy::Bishop, Color::White), (2, 0)));
    assert_eq!(game.get_all_pieces().len(), 32);
    assert_eq!(game.get_pieces_color(Color::Black), game.get_all_pieces_color(Color::Black));
    assert_eq!(game.get_all_pieces_ty(PieceTy::King), vec![
        (Square::piece(PieceTy::King, Color::White), (4, 0)),
        (Square::piece(PieceTy::King, Color::Black), (4, 7)),
    ]);
    assert!(game.occupied((0, 0)));
    assert!(!game.occupied((0, 3)));
}

#[test]
fn pawn_structure() {
    let doubled = Game::from_fen("4k3/8/8/8/8/4P3/4P3/4K3 w - - 0 1");
    assert_eq!(doubled.doubled_pawns_check(Color::White), 1);
    assert_eq!(doubled.doubled_pawns_check(Color::Black), 0);
    assert!(doubled.pawn_endgame());
    assert!(!Game::default().pawn_endgame());
    let passed = Game::from_fen("4k3/8/8/8/8/8/4P3/4K3 w - - 0 1");
    assert_eq!(passed.passed_pawns_check(Color::White), 1);
    let blocked = Game::from_fen("4k3/3p4/8/8/8/8/4P3/4K3 w - - 0 1");
    assert_eq!(blocked.passed_pawns_check(Color::White), 0);
    assert_eq!(blocked.passed_pawns_check(Color::Black), 0);
    assert_eq!(Game::default().passed_pawns_check(Color::White), 0);
}

#[test]
fn fen_fields() {
    let g = Game::from_fen("8/8/8/8/8/8/8/K6k b Kq - 3 9");
    assert_eq!(g.get_to_move(), Color::Black);
    assert_eq!(g.castleable, [(false, true), (true, false)]);
    assert_eq!(g.enpass, None);
    let h = Game::from_fen("8/8/8/8/8/8/8/K6k");
    assert_eq!(h.get_to_move(), Color::Black);
    assert_eq!(h.castleable, [(false, false), (false, false)]);
}

#[test]
fn under_threat_of_squares() {
    let game = Game::from_fen("4k3/8/8/8/8/8/8/R3K3 b - - 0 1");
    assert!(!game.check(Color::Black));
    assert!(game.under_threat(Square::piece(PieceTy::Rook, Color::White)) == false);
    let check = Game::from_fen("4k3/8/8/8/8/8/8/4R1K1 b - - 0 1");
    assert!(check.check(Color::Black));
}

fn mv(a: usize, b: usize, c: usize, d: usize) -> Move {
    Move { from: (a, b), to: (c, d), promotion: None }
}

#[test]
fn pawn_moves_come_in_order() {
    let g = Game::from_fen("4k3/8/8/8/8/4n3/P3P2r/4K3 w - -");
    let mut moves: Vec<Move> = Vec::new();
    g.gen_pawn_moves(Color::White, 0, g.board.all, g.board.color[1], &mut moves);
    assert_eq!(moves, vec![mv(0, 1, 0, 2), mv(0, 1, 0, 3)]);
    let mut more = vec![mv(4, 0, 3, 0)];
    g.gen_pawn_moves(Color::White, 0, g.board.all, g.board.color[1], &mut more);
    assert_eq!(more, vec![mv(4, 0, 3, 0), mv(0, 1, 0, 2), mv(0, 1, 0, 3)]);
}

#[test]
fn generated_moves_come_in_order() {
    let g = Game::default();
    let pseudo = g.get_all_pseudo_moves(Color::White);
    let mut expected: Vec<Move> = (0..8).map(|f| mv(f, 1, f, 2)).collect();
    expected.extend((0..8).map(|f| mv(f, 1, f, 3)));
    expected.extend([mv(1, 0, 0, 2), mv(1, 0, 2, 2), mv(6, 0, 5, 2), mv(6, 0, 7, 2)]);
    assert_eq!(pseudo, expected);
    assert_eq!(g.get_all_moves(Color::White), expected);
    let k = Game::from_fen("4k3/8/8/8/8/8/8/R3K2R w KQ -");
    let mut kmoves: Vec<Move> = Vec::new();
    k.gen_king_moves(Color::White, 0, k.board.color[0], k.board.all, &mut kmoves);
    assert_eq!(kmoves, vec![mv(4, 0, 3, 0), mv(4, 0, 5, 0), mv(4, 0, 3, 1), mv(4, 0, 4, 1), mv(4, 0, 5, 1), mv(4, 0, 6, 0), mv(4, 0, 2, 0)]);
}

#[test]
fn either_side_pawn_and_king_rules() {
    let g = Game::default();
    assert!(g.is_valid_pawn(mv(4, 6, 4, 4), Color::Black));
    assert!(!g.is_valid_pawn(mv(4, 6, 4, 3), Color::Black));
    let k = Game::from_fen("r3k2r/8/8/8/8/8/8/4K3 w kq -");
    assert!(k.is_valid_king(mv(4, 7, 6, 7), Color::Black, 1));
    assert!(k.is_valid_king(mv(4, 7, 2, 7), Color::Black, 1));
    assert!(!k.is_valid_king(mv(4, 7, 4, 5), Color::Black, 1));
}

#[test]
fn pawn_and_king_rules_on_any_board() {
    let g = Game::from_fen("8/8/8/8/8/8/4P3/4K3 w - -");
    assert!(g.is_valid_pawn(mv(4, 1, 4, 3), Color::White));
    assert!(!g.is_valid_pawn(mv(4, 1, 5, 2), Color::White));
    assert!(g.is_valid_king(mv(4, 0, 3, 0), Color::White, 0));
    assert!(!g.is_valid_king(mv(4, 0, 6, 0), Color::White, 0));
}
