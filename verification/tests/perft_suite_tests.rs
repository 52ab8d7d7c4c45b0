use fri_challenger::board::Board;
use fri_challenger::fen::FenTrait;
use fri_challenger::make_move::BoardMoveTrait;
use fri_challenger::mv_gen::BoardGenMoveTrait;
use fri_challenger::perft::{is_legal_position, perft_from_fen, Stats};

const FEN_START: &str = "rnbqkbnr/pppppppp/8/8/8/8/PPPPPPPP/RNBQKBNR w KQkq - 0 1";
const FEN_MIDDLE_GAME: &str = "r3k2r/p1ppqpb1/bn2pnp1/3PN3/1p2P3/2N2Q1p/PPPBBPPP/R3K2R w KQkq - 0 1";
const FEN_PAWNS_WHITE: &str = "rnbqkb1r/pp1p1pPp/8/2p1pP2/1P1P4/3P3P/P1P1P3/RNBQKBNR w KQkq e6 0 1";
const FEN_PAWNS_BLACK: &str = "rnbqkbnr/p1p1p3/3p3p/1p1p4/2P1Pp2/8/PP1P1PpP/RNBQKB1R b KQkq e3 0 1";
const FEN_CASTLE_TWO: &str = "r3k2r/p1ppqpb1/bn2pnp1/3PN3/1p2P3/2N2Q1p/PPPBBPPP/R3K2R w KQkq - 0 1";
const FEN_POS_TWO: &str = "r3k2r/p1ppqpb1/bn2pnp1/3PN3/1p2P3/2N2Q1p/PPPBBPPP/R3K2R w KQkq - 0 1";
const FEN_POS_THREE: &str = "8/2p5/3p4/KP5r/1R3p1k/8/4P1P1/8 w - - 0 1";
const FEN_POS_FOUR: &str = "r3k2r/Pppp1ppp/1b3nbN/nP6/BBP1P3/q4N2/Pp1P2PP/R2Q1RK1 w kq - 0 1";
const FEN_POS_FIVE: &str = "rnbq1k1r/pp1Pbppp/2p5/8/2B5/8/PPP1NnPP/RNBQK2R w KQ - 1 8";
const FEN_POS_SIX: &str = "r4rk1/1pp1qppp/p1np1n2/2b1p1B1/2B1P1b1/P1NP1N2/1PP1QPPP/R4RK1 w - - 0 10";
const FEN_BUG_2SQ_PAWN: &str = "8/8/8/K7/5p1k/8/4P3/8 w - - 0 1";

fn init_test_func(fen: &str, depth: usize) -> Stats {
    perft_from_fen(fen, depth).unwrap().1
}

#[test]
fn perft_test_fen_bug_2_sq_pawn_dept_1() {
    let stats = init_test_func(&FEN_BUG_2SQ_PAWN, 1);
    assert_eq!(stats.nodes, 7);
}

#[test]
fn perft_test_fen_bug_2_sq_pawn_dept_2() {
    let stats = init_test_func(&FEN_BUG_2SQ_PAWN, 2);
    assert_eq!(stats.nodes, 44);
}

#[test]
fn perft_test_perft_init_pos_one() {
    let stats = init_test_func(&FEN_START, 1);
    assert_eq!(stats.nodes, 20);
}

#[test]
fn perft_test_perft_init_pos_two() {
    let stats = init_test_func(&FEN_START, 2);
    assert_eq!(stats.nodes, 400);
}

#[test]
fn perft_test_perft_init_pos_three() {
    let stats = init_test_func(&FEN_START, 3);
    assert_eq!(stats.nodes, 8902);
}

#[test]
fn perft_test_perft_init_pos_four() {
    let stats = init_test_func(&FEN_START, 4);
    assert_eq!(stats.nodes, 197281);
}

#[test]
fn perft_test_perft_pos_two_depth_1() {
    let stats = init_test_func(&FEN_POS_TWO, 1);
    assert_eq!(stats.nodes, 48);
}

#[test]
fn perft_test_perft_pos_two_depth_2() {
    let stats = init_test_func(&FEN_POS_TWO, 2);
    assert_eq!(stats.nodes, 2039);
}

#[test]
fn test_perft_pos_two_depth_3() {
    let stats = init_test_func(&FEN_POS_TWO, 3);
    assert_eq!(stats.nodes, 97862);
}

#[test]
fn test_perft_pos_two_depth_4() {
    let stats = init_test_func(&FEN_POS_TWO, 4);
    assert_eq!(stats.nodes, 4085603);
}

#[test]
fn perft_test_perft_pos_three_depth_1() {
    let stats = init_test_func(&FEN_POS_THREE, 1);
    assert_eq!(stats.nodes, 14);
}

#[test]
fn perft_test_perft_pos_three_depth_2() {
    let stats = init_test_func(&FEN_POS_THREE, 2);
    assert_eq!(stats.nodes, 191);
}

#[test]
fn perft_test_perft_pos_three_depth_3() {
    let stats = init_test_func(&FEN_POS_THREE, 3);
    assert_eq!(stats.nodes, 2812);
}

#[test]
fn perft_test_perft_pos_three_depth_4() {
    let stats = init_test_func(&FEN_POS_THREE, 4);
    assert_eq!(stats.nodes, 43238);
}

#[test]
fn perft_test_perft_pos_four_depth_1() {
    let stats = init_test_func(&FEN_POS_FOUR, 1);
    assert_eq!(stats.nodes, 6);
}

#[test]
fn perft_test_perft_pos_four_depth_2() {
    let stats = init_test_func(&FEN_POS_FOUR, 2);
    assert_eq!(stats.nodes, 264);
}

#[test]
fn perft_test_perft_pos_four_depth_3() {
    let stats = init_test_func(&FEN_POS_FOUR, 3);
    assert_eq!(stats.nodes, 9467);
}

#[test]
fn perft_test_perft_pos_four_depth_4() {
    let stats = init_test_func(&FEN_POS_FOUR, 4);
    assert_eq!(stats.nodes, 422333);
}

#[test]
fn perft_test_perft_pos_five_depth_1() {
    let stats = init_test_func(&FEN_POS_FIVE, 1);
    assert_eq!(stats.nodes, 44);
}

#[test]
fn perft_test_perft_pos_five_depth_2() {
    let stats = init_test_func(&FEN_POS_FIVE, 2);
    assert_eq!(stats.nodes, 1486);
}

#[test]
fn perft_test_perft_pos_five_depth_3() {
    let stats = init_test_func(&FEN_POS_FIVE, 3);
    assert_eq!(stats.nodes, 62379);
}

#[test]
fn perft_test_perft_pos_five_depth_4() {
    let stats = init_test_func(&FEN_POS_FIVE, 4);
    assert_eq!(stats.nodes, 2103487);
}

#[test]
fn perft_test_perft_pos_six_depth_1() {
    let stats = init_test_func(&FEN_POS_SIX, 1);
    assert_eq!(stats.nodes, 46);
}

#[test]
fn perft_test_perft_pos_six_depth_2() {
    let stats = init_test_func(&FEN_POS_SIX, 2);
    assert_eq!(stats.nodes, 2079);
}

#[test]
fn perft_test_perft_pos_six_depth_3() {
    let stats = init_test_func(&FEN_POS_SIX, 3);
    assert_eq!(stats.nodes, 89890);
}

#[test]
fn perft_test_perft_pos_six_depth_4() {
    let stats = init_test_func(&FEN_POS_SIX, 4);
    assert_eq!(stats.nodes, 3894594);
}

#[test]
fn mv_gen_test_white_pawns_mv_gen() {
    let mut board = Board::read_fen(&FEN_PAWNS_WHITE);
    let moves = board.gen_moves();
    assert_eq!(42, moves.len());
}

#[test]
fn mv_gen_test_mv_gen() {
    let mut board = Board::read_fen(&FEN_CASTLE_TWO);
    let moves = board.gen_moves();
    assert_eq!(48, moves.len());
}

#[test]
fn mv_gen_test_white_black_mv_gen() {
    let mut board = Board::read_fen(&FEN_PAWNS_BLACK);
    let moves = board.gen_moves();
    assert_eq!(42, moves.len());
}

#[test]
fn move_generation_test_white_pawns_mv_gen() {
    let mut board = Board::read_fen(&FEN_PAWNS_WHITE);
    assert_eq!(42, board.gen_moves().len());
}

#[test]
fn move_generation_test_mv_gen() {
    let mut board = Board::read_fen(&FEN_CASTLE_TWO);
    assert_eq!(48, board.gen_moves().len());
}

#[test]
fn move_generation_test_white_black_mv_gen() {
    let mut board = Board::read_fen(&FEN_PAWNS_BLACK);
    assert_eq!(42, board.gen_moves().len());
}

#[test]
fn initialize_works() {
    let game = Board::initialize();
    assert_eq!(game.state.color, 0);
    assert_eq!(game.state.castling, 15);
    assert_eq!(game.state.ep, None);
    assert_eq!(game.state.half_move, 0);
    assert_eq!(game.state.full_move, 1);
}

#[test]
fn test_fen_middle_game() {
    let board = Board::read_fen(FEN_MIDDLE_GAME);
    assert_eq!(board.state.color, 0);
    assert_eq!(board.state.castling, 15);
    assert_eq!(board.state.ep, None);
    assert_eq!(board.state.half_move, 0);
    assert_eq!(board.state.full_move, 1);
}

#[test]
fn test_fen_pawns_black_game() {
    let board = Board::read_fen(FEN_PAWNS_BLACK);
    assert_eq!(board.state.color, 1);
    assert_eq!(board.state.castling, 15);
    assert_eq!(board.state.ep, Some(20));
    assert_eq!(board.state.half_move, 0);
    assert_eq!(board.state.full_move, 1);
}

#[test]
fn key_test() {
    let mut board = Board::initialize();
    let key = board.state.key;
    let moves = board.gen_moves();
    board.make_move(&moves[0]);
    board.undo_move();
    assert_eq!(board.state.key, key, "Key should be same after undoing the move");
}

#[test]
fn legality_check_refuses_broken_positions() {
    let board = Board::read_fen(FEN_START);
    assert!(is_legal_position(&board));
    let no_rook = Board::read_fen("4k3/8/8/8/8/8/8/4K3 w K - 0 1");
    assert!(!is_legal_position(&no_rook));
    let mover_gives_check = Board::read_fen("4k3/8/8/8/8/8/8/4R1K1 w - - 0 1");
    assert!(!is_legal_position(&mover_gives_check));
    let bad_ep = Board::read_fen("4k3/8/8/8/8/8/8/4K3 w - e6 0 1");
    assert!(!is_legal_position(&bad_ep));
    assert!(perft_from_fen("4k3/8/8/8/8/8/8/4K3 w K - 0 1", 1).is_none());
    assert!(perft_from_fen("not a fen", 1).is_none());
    assert!(perft_from_fen(FEN_START, 65).is_none());
    assert!(perft_from_fen("4k3/8/8/8/8/8/8/4K3 w - - 254 1", 2).is_none());
    assert!(perft_from_fen("4k3/8/8/8/8/8/8/4K3 w - - 254 1", 1).is_some());
    assert_eq!(perft_from_fen(FEN_START, 0).unwrap().0, 1);
}

#[test]
fn perft_test_perft_pos_three_depth_5() {
    let stats = init_test_func(&FEN_POS_THREE, 5);
    assert_eq!(stats.nodes, 674624);
}

#[test]
fn perft_test_perft_init_pos_five() {
    let stats = init_test_func(&FEN_START, 5);
    assert_eq!(stats.nodes, 4865609);
}

#[test]
fn perft_test_perft_pos_four_depth_5() {
    let stats = init_test_func(&FEN_POS_FOUR, 5);
    assert_eq!(stats.nodes, 15833292);
}

#[test]
fn test_perft_pos_three_depth_6() {
    let stats = init_test_func(&FEN_POS_THREE, 6);
    assert_eq!(stats.nodes, 11030083);
}
