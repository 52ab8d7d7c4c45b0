use fri_challenger::board::Board;
use fri_challenger::fen::FenTrait;
use fri_challenger::piece::{BLACK, BLACK_KING, WHITE, WHITE_KING};

const FEN_START: &str = "rnbqkbnr/pppppppp/8/8/8/8/PPPPPPPP/RNBQKBNR w KQkq - 0 1";
const FEN_CASTLE_ONE: &str = "r3k2r/8/8/8/8/8/8/R3K2R w KQkq - 0 1";
const FEN_POS_THREE: &str = "8/2p5/3p4/KP5r/1R3p1k/8/4P1P1/8 w - - 0 1";
const FEN_POS_FOUR: &str = "r3k2r/Pppp1ppp/1b3nbN/nP6/BBP1P3/q4N2/Pp1P2PP/R2Q1RK1 w kq - 0 1";
const FEN_POS_FIVE: &str = "rnbq1k1r/pp1Pbppp/2p5/8/2B5/8/PPP1NnPP/RNBQK2R w KQ - 1 8";
const FEN_MATE_IN_5: &str = "N1bk3r/P5pp/3b1p2/3B4/R2nP1nq/3P3N/1BP3KP/4Q2R b - - 0 1";

fn test_mirror_framework(fen: &str) {
    let mut board = Board::read_fen(fen);
    let squares = board.squares;
    let bitboard = board.bitboard;
    let state = board.state;
    board.mirror();
    assert_ne!(board.state.color, state.color);
    board.mirror();
    assert_eq!(board.squares, squares);
    assert_eq!(board.bitboard, bitboard);
    assert_eq!(board.state, state);
}

#[test]
fn test_mirror_start() {
    test_mirror_framework(FEN_START);
}

#[test]
fn test_mirror_mate_in_5() {
    test_mirror_framework(FEN_MATE_IN_5);
}

#[test]
fn test_mirror_pos_4() {
    test_mirror_framework(FEN_POS_FOUR);
}

#[test]
fn test_mirror_pos_5() {
    test_mirror_framework(FEN_POS_FIVE);
}

#[test]
fn test_mirror_pos_3() {
    test_mirror_framework(FEN_POS_THREE);
}

#[test]
fn test_mirror_castle_one() {
    test_mirror_framework(FEN_CASTLE_ONE);
}

#[test]
fn mirror_swaps_the_sides() {
    let mut board = Board::read_fen("4k3/8/8/8/8/8/8/3K4 w - - 0 1");
    board.mirror();
    assert_eq!(board.state.color, BLACK);
    assert_eq!(board.squares[59], Some(BLACK_KING));
    assert_eq!(board.squares[4], Some(WHITE_KING));
    assert_eq!(board.bitboard[WHITE as usize], 1 << 4);
    assert_eq!(board.bitboard[BLACK_KING as usize], 1 << 59);
}

#[test]
fn mirror_moves_the_en_passant_square() {
    let mut board = Board::read_fen("rnbqkbnr/pppppppp/8/8/4P3/8/PPPP1PPP/RNBQKBNR b KQkq e3 0 1");
    board.mirror();
    assert_eq!(board.state.ep, Some(44));
}
