use fri_challenger::board::Board;
use fri_challenger::fen::FenTrait;
use fri_challenger::make_move::BoardMoveTrait;
use fri_challenger::mv_gen::BoardGenMoveTrait;
use fri_challenger::perft::{perft, Stats};

fn count(fen: &str, depth: usize) -> (u64, Stats) {
    let mut board = Board::read_fen(fen);
    let mut stats = Stats::init();
    let n = perft(depth, &mut board, &mut stats);
    (n, stats)
}

#[test]
fn perft_start_position_depth_three() {
    let (n, stats) = count("rnbqkbnr/pppppppp/8/8/8/8/PPPPPPPP/RNBQKBNR w KQkq - 0 1", 3);
    assert_eq!(n, 8902);
    assert_eq!(stats.nodes, 8902);
}

#[test]
fn perft_position_two_depth_two() {
    let (n, stats) = count("r3k2r/p1ppqpb1/bn2pnp1/3PN3/1p2P3/2N2Q1p/PPPBBPPP/R3K2R w KQkq - 0 1", 2);
    assert_eq!(n, 2039);
    assert_eq!(stats.nodes, 2039);
}

#[test]
fn perft_position_three_depth_three() {
    let (n, _) = count("8/2p5/3p4/KP5r/1R3p1k/8/4P1P1/8 w - - 0 1", 3);
    assert_eq!(n, 2812);
}

#[test]
fn perft_position_four_depth_two() {
    let (n, _) = count("r3k2r/Pppp1ppp/1b3nbN/nP6/BBP1P3/q4N2/Pp1P2PP/R2Q1RK1 w kq - 0 1", 2);
    assert_eq!(n, 264);
}

#[test]
fn perft_position_five_depth_two() {
    let (n, _) = count("rnbq1k1r/pp1Pbppp/2p5/8/2B5/8/PPP1NnPP/RNBQK2R w KQ - 1 8", 2);
    assert_eq!(n, 1486);
}

#[test]
fn gen_moves_pawns_white() {
    let mut board = Board::read_fen("rnbqkb1r/pp1p1pPp/8/2p1pP2/1P1P4/3P3P/P1P1P3/RNBQKBNR w KQkq e6 0 1");
    let moves = board.gen_moves();
    assert_eq!(42, moves.len());
}

#[test]
fn perft_sums_the_children() {
    let fen = "r3k2r/p1ppqpb1/bn2pnp1/3PN3/1p2P3/2N2Q1p/PPPBBPPP/R3K2R w KQkq - 0 1";
    let mut board = Board::read_fen(fen);
    let moves = board.gen_moves();
    let mut total = 0u64;
    let mut legal = 0u64;
    for mv in moves.iter() {
        if board.make_move(mv) {
            legal += 1;
            let mut stats = Stats::init();
            total += perft(2, &mut board, &mut stats);
            board.undo_move();
        }
    }
    let (n, _) = count(fen, 3);
    assert_eq!(legal, 48);
    assert_eq!(total, n);
    assert_eq!(n, 97862);
}

#[test]
fn perft_counts_visited_nodes_and_move_kinds() {
    let (n, stats) = count("rnbqkbnr/pppppppp/8/8/8/8/PPPPPPPP/RNBQKBNR w KQkq - 0 1", 3);
    assert_eq!(n, 8902);
    assert_eq!(stats.all_nodes, 1 + 20 + 400 + 8902);
    assert_eq!(stats.captures, 34);
    assert_eq!(stats.ep, 0);
    assert_eq!(stats.castles, 0);
    assert_eq!(stats.promotions, 0);
    let (n, stats) = count("r3k2r/p1ppqpb1/bn2pnp1/3PN3/1p2P3/2N2Q1p/PPPBBPPP/R3K2R w KQkq - 0 1", 2);
    assert_eq!(n, 2039);
    assert_eq!(stats.all_nodes, 1 + 48 + 2039);
    assert_eq!(stats.captures, 351);
    assert_eq!(stats.ep, 1);
    assert_eq!(stats.castles, 91);
    assert_eq!(stats.promotions, 0);
}
