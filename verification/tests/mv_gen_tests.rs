use fri_challenger::bits::{extract_all_bits, BitboardTrait};
use fri_challenger::board::Board;
use fri_challenger::fen::FenTrait;
use fri_challenger::mv_gen::BoardGenMoveTrait;
use fri_challenger::moves::{Flag, Move};
use fri_challenger::piece::{Piece, PieceTrait, BLACK, BLACK_QUEEN, WHITE, WHITE_BISHOP, WHITE_KING, WHITE_KNIGHT, WHITE_PAWN, WHITE_QUEEN, WHITE_ROOK};

const A2: usize = 8;
const A5: usize = 32;
const A8: usize = 56;
const B3: usize = 17;
const B5: usize = 33;
const B7: usize = 49;
const C4: usize = 26;
const C5: usize = 34;
const C6: usize = 42;
const D1: usize = 3;
const D2: usize = 11;
const D3: usize = 19;
const D4: usize = 27;
const D6: usize = 43;
const D7: usize = 51;
const D8: usize = 59;
const E4: usize = 28;
const E5: usize = 36;
const E6: usize = 44;
const F3: usize = 21;
const F5: usize = 37;
const F7: usize = 53;
const G2: usize = 14;
const G5: usize = 38;
const G8: usize = 62;
const H1: usize = 7;
const H5: usize = 39;

fn test_mov_att(fen: &str, piece: Piece, idx: usize) -> Vec<usize> {
    let board = Board::read_fen(fen);
    let (own_occ, enemy_occ) = board.both_occ_bb(board.color());
    let all_pieces = extract_all_bits(board.bitboard[piece.idx()]);
    let piece = match board.squares[all_pieces[idx]] {
        None => panic!("The Piece Must exist"),
        Some(piece) => piece,
    };
    extract_all_bits(Board::get_mv_bb(piece, all_pieces[idx], own_occ, enemy_occ))
}

fn show(bb: u64) {
    for row in (0..8).rev() {
        let mut line = String::new();
        for col in 0..8 {
            line.push(if bb.is_set(row * 8 + col) { '1' } else { '.' });
        }
        println!("{}", line);
    }
}

#[test]
fn mv_gen_test_attacks() {
    let fen = "8/8/2q5/3Q4/8/8/8/8 w - - 0 1";
    let board = Board::read_fen(&fen);
    let black = board.sq_attack(board.bitboard[BLACK_QUEEN.idx()].get_lsb(), BLACK);
    show(black);
    let white = board.sq_attack(board.bitboard[WHITE_QUEEN.idx()].get_msb(), WHITE);
    show(white);
}

#[test]
fn mv_gen_test_generate_knight_moves() {
    let fen = "8/8/8/4N3/2N5/8/8/8 w - - 0 1";
    let moves = test_mov_att(&fen, WHITE_KNIGHT, 1);
    let test_positions = vec![19, 21, 30, 42, 46, 51, 53];
    assert_eq!(test_positions, moves);
}

#[test]
fn mv_gen_test_generate_3_knight_moves() {
    let fen_knight = "8/5N2/8/4N3/2N5/8/8/8 w - - 0 1";
    let moves = test_mov_att(&fen_knight, WHITE_KNIGHT, 1);
    let test_positions = vec![19, 21, 30, 42, 46, 51];
    assert_eq!(test_positions, moves);
}

#[test]
fn mv_gen_test_generate_bishop_moves_1_bishop() {
    let fen_one_bishop = "7B/8/8/8/8/8/8/8 w - - 0 1";
    let moves = test_mov_att(&fen_one_bishop, WHITE_BISHOP, 0);
    let test_positions = vec![0, 9, 18, 27, 36, 45, 54];
    assert_eq!(test_positions, moves);
}

#[test]
fn mv_gen_test_generate_bishop_moves_1_bishop_middle() {
    let fen_one_bishop = "8/8/8/4B3/8/8/8/8 w - - 0 1";
    let moves = test_mov_att(&fen_one_bishop, WHITE_BISHOP, 0);
    let test_positions = vec![0, 9, 15, 18, 22, 27, 29, 43, 45, 50, 54, 57, 63];
    assert_eq!(test_positions, moves);
}

#[test]
fn mv_gen_test_generate_bishop_moves_2_bishop() {
    let fen_one_bishop = "8/8/5B2/4B3/8/8/8/8 w - - 0 1";
    let moves = test_mov_att(&fen_one_bishop, WHITE_BISHOP, 0);
    let test_positions = vec![0, 9, 15, 18, 22, 27, 29, 43, 50, 57];
    assert_eq!(test_positions, moves);
}

#[test]
fn mv_gen_test_generate_rook_moves_1_rook() {
    let fen_rook = "8/8/8/8/8/4R3/8/8 w - - 0 1";
    let moves = test_mov_att(&fen_rook, WHITE_ROOK, 0);
    let test_positions = vec![4, 12, 16, 17, 18, 19, 21, 22, 23, 28, 36, 44, 52, 60];
    assert_eq!(test_positions, moves);
}

#[test]
fn mv_gen_test_generate_rook_moves_1_rook_1enemy() {
    let fen_rook = "8/8/8/4r3/8/4R3/8/8 w - - 0 1";
    let moves = test_mov_att(&fen_rook, WHITE_ROOK, 0);
    let test_positions = vec![4, 12, 16, 17, 18, 19, 21, 22, 23, 28, 36];
    assert_eq!(test_positions, moves);
}

#[test]
fn mv_gen_test_generate_queen_moves() {
    let fen_queen = "8/8/8/3Q4/8/8/8/8 w - - 0 1";
    let moves = test_mov_att(&fen_queen, WHITE_QUEEN, 0);
    let test_positions = vec![
        D1, H1, A2, D2, G2, B3, D3, F3, C4, D4, E4, A5, B5, C5, E5, F5, G5, H5, C6, D6, E6, B7, D7, F7, A8, D8, G8,
    ];
    assert_eq!(test_positions, moves);
}

#[test]
fn mv_gen_test_generate_queen_moves_one_enemy() {
    let fen_queen = "8/8/2q5/3Q4/8/8/8/8 w - - 0 1";
    let moves = test_mov_att(&fen_queen, WHITE_QUEEN, 0);
    let test_positions = vec![
        D1, H1, A2, D2, G2, B3, D3, F3, C4, D4, E4, A5, B5, C5, E5, F5, G5, H5, C6, D6, E6, D7, F7, D8, G8,
    ];
    assert_eq!(test_positions, moves);
}

#[test]
fn mv_gen_test_generate_king_moves() {
    let fen_king = "8/8/8/3K4/8/8/8/8 w - - 0 1";
    let moves = test_mov_att(&fen_king, WHITE_KING, 0);
    let test_positions = vec![26, 27, 28, 34, 36, 42, 43, 44];
    assert_eq!(test_positions, moves);
}

#[test]
fn move_generation_test_attacks() {
    let fen = "8/8/2q5/3Q4/8/8/8/8 w - - 0 1";
    let board = Board::read_fen(&fen);
    let black = board.sq_attack(board.bitboard[BLACK_QUEEN.idx()].get_lsb(), BLACK);
    show(black);
    let white = board.sq_attack(board.bitboard[WHITE_QUEEN.idx()].get_msb(), WHITE);
    show(white);
}

#[test]
fn move_generation_test_generate_knight_moves() {
    let fen = "8/8/8/4N3/2N5/8/8/8 w - - 0 1";
    let moves = test_mov_att(&fen, WHITE_KNIGHT, 1);
    let test_positions = vec![19, 21, 30, 42, 46, 51, 53];
    assert_eq!(test_positions, moves);
}

#[test]
fn move_generation_test_generate_3_knight_moves() {
    let fen_knight = "8/5N2/8/4N3/2N5/8/8/8 w - - 0 1";
    let moves = test_mov_att(&fen_knight, WHITE_KNIGHT, 1);
    let test_positions = vec![19, 21, 30, 42, 46, 51];
    assert_eq!(test_positions, moves);
}

#[test]
fn move_generation_test_generate_bishop_moves_1_bishop() {
    let fen_one_bishop = "7B/8/8/8/8/8/8/8 w - - 0 1";
    let moves = test_mov_att(&fen_one_bishop, WHITE_BISHOP, 0);
    let test_positions = vec![0, 9, 18, 27, 36, 45, 54];
    assert_eq!(test_positions, moves);
}

#[test]
fn move_generation_test_generate_bishop_moves_1_bishop_middle() {
    let fen_one_bishop = "8/8/8/4B3/8/8/8/8 w - - 0 1";
    let moves = test_mov_att(&fen_one_bishop, WHITE_BISHOP, 0);
    let test_positions = vec![0, 9, 15, 18, 22, 27, 29, 43, 45, 50, 54, 57, 63];
    assert_eq!(test_positions, moves);
}

#[test]
fn move_generation_test_generate_bishop_moves_2_bishop() {
    let fen_one_bishop = "8/8/5B2/4B3/8/8/8/8 w - - 0 1";
    let moves = test_mov_att(&fen_one_bishop, WHITE_BISHOP, 0);
    let test_positions = vec![0, 9, 15, 18, 22, 27, 29, 43, 50, 57];
    assert_eq!(test_positions, moves);
}

#[test]
fn move_generation_test_generate_rook_moves_1_rook() {
    let fen_rook = "8/8/8/8/8/4R3/8/8 w - - 0 1";
    let moves = test_mov_att(&fen_rook, WHITE_ROOK, 0);
    let test_positions = vec![4, 12, 16, 17, 18, 19, 21, 22, 23, 28, 36, 44, 52, 60];
    assert_eq!(test_positions, moves);
}

#[test]
fn move_generation_test_generate_rook_moves_1_rook_1enemy() {
    let fen_rook = "8/8/8/4r3/8/4R3/8/8 w - - 0 1";
    let moves = test_mov_att(&fen_rook, WHITE_ROOK, 0);
    let test_positions = vec![4, 12, 16, 17, 18, 19, 21, 22, 23, 28, 36];
    assert_eq!(test_positions, moves);
}

#[test]
fn move_generation_test_generate_queen_moves() {
    let fen_queen = "8/8/8/3Q4/8/8/8/8 w - - 0 1";
    let moves = test_mov_att(&fen_queen, WHITE_QUEEN, 0);
    let test_positions = vec![
        D1, H1, A2, D2, G2, B3, D3, F3, C4, D4, E4, A5, B5, C5, E5, F5, G5, H5, C6, D6, E6, B7, D7, F7, A8, D8, G8,
    ];
    assert_eq!(test_positions, moves);
}

#[test]
fn move_generation_test_generate_queen_moves_one_enemy() {
    let fen_queen = "8/8/2q5/3Q4/8/8/8/8 w - - 0 1";
    let moves = test_mov_att(&fen_queen, WHITE_QUEEN, 0);
    let test_positions = vec![
        D1, H1, A2, D2, G2, B3, D3, F3, C4, D4, E4, A5, B5, C5, E5, F5, G5, H5, C6, D6, E6, D7, F7, D8, G8,
    ];
    assert_eq!(test_positions, moves);
}

#[test]
fn move_generation_test_generate_king_moves() {
    let fen_king = "8/8/8/3K4/8/8/8/8 w - - 0 1";
    let moves = test_mov_att(&fen_king, WHITE_KING, 0);
    let test_positions = vec![26, 27, 28, 34, 36, 42, 43, 44];
    assert_eq!(test_positions, moves);
}

#[test]
fn move_exists_start_position() {
    let mut board = Board::initialize();
    assert!(board.move_exists(&Move::init(12, 28, WHITE_PAWN, Flag::Quiet)));
    assert!(board.move_exists(&Move::init(6, 21, WHITE_KNIGHT, Flag::Quiet)));
    assert!(!board.move_exists(&Move::init(12, 36, WHITE_PAWN, Flag::Quiet)));
    assert!(!board.move_exists(&Move::init(6, 12, WHITE_KNIGHT, Flag::Quiet)));
    assert_eq!(board.gen_moves.len(), 0);
    assert_eq!(board.moves.len(), 0);
}

#[test]
fn move_exists_pinned_piece() {
    let mut board = Board::read_fen("4k3/4r3/8/8/8/8/4B3/4K3 w - - 0 1");
    let key = board.state.key;
    assert!(!board.move_exists(&Move::init(12, 19, WHITE_BISHOP, Flag::Quiet)));
    assert!(board.move_exists(&Move::init(4, 3, WHITE_KING, Flag::Quiet)));
    assert_eq!(board.state.key, key);
    assert_eq!(board.squares[12], Some(WHITE_BISHOP));
}

#[test]
fn pawn_pushes_are_appended_again() {
    let mut board = Board::read_fen("rnbqkbnr/pppppppp/8/8/8/8/PPPPPPPP/RNBQKBNR w KQkq - 0 1");
    board.pawn_quiet_moves();
    let first = board.gen_moves.clone();
    assert_eq!(first.len(), 16);
    board.pawn_quiet_moves();
    assert_eq!(board.gen_moves.len(), 32);
    assert_eq!(board.gen_moves[16..].to_vec(), first);
    board.pawn_capture_moves();
    assert_eq!(board.gen_moves.len(), 32);
}

#[test]
fn pawn_captures_are_appended_again() {
    let mut board = Board::read_fen("4k3/8/8/3p1p2/4P3/8/8/4K3 w - - 0 1");
    board.pawn_capture_moves();
    assert_eq!(board.gen_moves.len(), 2);
    board.pawn_capture_moves();
    assert_eq!(board.gen_moves.len(), 4);
    assert_eq!(board.gen_moves[0], board.gen_moves[2]);
}
