use fri_challenger::board::BoardState;
use fri_challenger::castling::{CASTLING_NONE, CASTLING_WKINGSIDE, CASTLING_WQUEENSIDE};
use fri_challenger::game::Game;
use fri_challenger::game_move::GameMoveTrait;
use fri_challenger::moves::{Flag, Move};
use fri_challenger::piece::{
    BLACK, BLACK_KING, BLACK_PAWN, BLACK_ROOK, WHITE, WHITE_BISHOP, WHITE_KING, WHITE_PAWN, WHITE_QUEEN,
    WHITE_ROOK,
};
use fri_challenger::zobrist::{castle_key_value, ep_key_value, piece_key_value, side_key_value};

fn saved(g: &Game) -> BoardState {
    BoardState {
        key: g.key,
        pk_key: 0,
        color: g.color,
        castling: g.castling,
        ep: g.ep,
        half_move: g.half_move,
        full_move: g.full_move,
        phase: 0,
    }
}

fn game_with(pieces: &[(usize, u8)]) -> Game {
    let mut g = Game::create_board();
    for (sq, p) in pieces {
        g.add_piece(*sq, *p);
    }
    g
}

#[test]
fn game_make_undo_double_push() {
    let mut g = Game::initialize();
    let squares = g.squares;
    let bitboard = g.bitboard;
    let key = g.key;
    let irr = saved(&g);
    let mv = Move::init(12, 28, WHITE_PAWN, Flag::Quiet);
    assert!(g.make_move(&mv, &irr));
    assert_eq!(g.squares[12], None);
    assert_eq!(g.squares[28], Some(WHITE_PAWN));
    assert_eq!(g.color, BLACK);
    assert_eq!(g.ep, Some(20));
    assert_eq!(g.half_move, 0);
    assert_eq!(g.full_move, 2);
    assert_eq!(g.ply, 1);
    assert_eq!(g.pos_rev.len(), 1);
    assert_eq!(g.pos_irr.len(), 1);
    g.undo_move();
    assert_eq!(g.squares, squares);
    assert_eq!(g.bitboard, bitboard);
    assert_eq!(g.key, key);
    assert_eq!(g.color, WHITE);
    assert_eq!(g.ep, None);
    assert_eq!(g.full_move, 1);
    assert_eq!(g.ply, 0);
    assert_eq!(g.pos_rev.len(), 0);
}

#[test]
fn game_make_move_key() {
    let mut g = game_with(&[(4, WHITE_KING), (60, BLACK_KING), (12, WHITE_PAWN)]);
    let k0 = g.key;
    let irr = saved(&g);
    assert!(g.make_move(&Move::init(12, 28, WHITE_PAWN, Flag::Quiet), &irr));
    let pieces = k0 ^ (piece_key_value(28, WHITE_PAWN as usize) | piece_key_value(12, WHITE_PAWN as usize));
    let expected = (pieces ^ (side_key_value() | castle_key_value(CASTLING_NONE))) ^ ep_key_value(20);
    assert_eq!(g.key, expected);
}

#[test]
fn game_illegal_move_restored() {
    let mut g = game_with(&[(4, WHITE_KING), (12, WHITE_BISHOP), (60, BLACK_ROOK), (63, BLACK_KING)]);
    let squares = g.squares;
    let bitboard = g.bitboard;
    let key = g.key;
    let mut irr = saved(&g);
    irr.half_move = 7;
    irr.full_move = 9;
    assert!(!g.make_move(&Move::init(12, 19, WHITE_BISHOP, Flag::Quiet), &irr));
    assert_eq!(g.squares, squares);
    assert_eq!(g.bitboard, bitboard);
    assert_eq!(g.key, key);
    assert_eq!(g.color, WHITE);
    assert_eq!(g.half_move, 7);
    assert_eq!(g.full_move, 9);
    assert_eq!(g.ply, 0);
    assert_eq!(g.pos_rev.len(), 0);
    assert_eq!(g.pos_irr.len(), 0);
}

#[test]
fn game_castle_and_rights() {
    let mut g = game_with(&[(4, WHITE_KING), (7, WHITE_ROOK), (60, BLACK_KING)]);
    g.castling = CASTLING_WKINGSIDE | CASTLING_WQUEENSIDE;
    let squares = g.squares;
    let key = g.key;
    let irr = saved(&g);
    assert!(g.make_move(&Move::init(4, 6, WHITE_KING, Flag::KingCastle), &irr));
    assert_eq!(g.squares[6], Some(WHITE_KING));
    assert_eq!(g.squares[5], Some(WHITE_ROOK));
    assert_eq!(g.squares[4], None);
    assert_eq!(g.squares[7], None);
    assert_eq!(g.castling, CASTLING_NONE);
    assert_eq!(g.half_move, 1);
    g.undo_move();
    assert_eq!(g.squares, squares);
    assert_eq!(g.key, key);
    assert_eq!(g.castling, CASTLING_WKINGSIDE | CASTLING_WQUEENSIDE);
}

#[test]
fn game_rook_move_keeps_other_right() {
    let mut g = game_with(&[(4, WHITE_KING), (7, WHITE_ROOK), (0, WHITE_ROOK), (60, BLACK_KING)]);
    g.castling = CASTLING_WKINGSIDE | CASTLING_WQUEENSIDE;
    let irr = saved(&g);
    assert!(g.make_move(&Move::init(7, 15, WHITE_ROOK, Flag::Quiet), &irr));
    assert_eq!(g.castling, CASTLING_WQUEENSIDE);
}

#[test]
fn game_en_passant_and_back() {
    let mut g = game_with(&[(4, WHITE_KING), (36, WHITE_PAWN), (35, BLACK_PAWN), (60, BLACK_KING)]);
    g.ep = Some(43);
    let squares = g.squares;
    let bitboard = g.bitboard;
    let key = g.key;
    let irr = saved(&g);
    assert!(g.make_move(&Move::init(36, 43, WHITE_PAWN, Flag::EP), &irr));
    assert_eq!(g.squares[43], Some(WHITE_PAWN));
    assert_eq!(g.squares[35], None);
    assert_eq!(g.squares[36], None);
    assert_eq!(g.ep, None);
    g.undo_move();
    assert_eq!(g.squares, squares);
    assert_eq!(g.bitboard, bitboard);
    assert_eq!(g.key, key);
    assert_eq!(g.ep, Some(43));
}

#[test]
fn game_capture_promotion_and_back() {
    let mut g = game_with(&[(4, WHITE_KING), (49, WHITE_PAWN), (56, BLACK_ROOK), (63, BLACK_KING)]);
    let squares = g.squares;
    let bitboard = g.bitboard;
    let key = g.key;
    let irr = saved(&g);
    let mv = Move::init(49, 56, WHITE_PAWN, Flag::Promotion(WHITE_QUEEN, Some(BLACK_ROOK)));
    assert!(g.make_move(&mv, &irr));
    assert_eq!(g.squares[56], Some(WHITE_QUEEN));
    assert_eq!(g.squares[49], None);
    assert_eq!(g.bitboard[WHITE_QUEEN as usize], 1u64 << 56);
    assert_eq!(g.bitboard[BLACK_ROOK as usize], 0);
    g.undo_move();
    assert_eq!(g.squares, squares);
    assert_eq!(g.bitboard, bitboard);
    assert_eq!(g.key, key);
}

#[test]
fn game_capture_and_back() {
    let mut g = game_with(&[(4, WHITE_KING), (0, WHITE_ROOK), (56, BLACK_ROOK), (63, BLACK_KING)]);
    let squares = g.squares;
    let key = g.key;
    let irr = saved(&g);
    g.half_move = 30;
    assert!(g.make_move(&Move::init(0, 56, WHITE_ROOK, Flag::Capture(BLACK_ROOK)), &irr));
    assert_eq!(g.squares[56], Some(WHITE_ROOK));
    assert_eq!(g.half_move, 0);
    g.undo_move();
    assert_eq!(g.squares, squares);
    assert_eq!(g.key, key);
}

#[test]
fn game_undo_without_moves_keeps_game() {
    let mut g = Game::initialize();
    let squares = g.squares;
    let key = g.key;
    g.undo_move();
    assert_eq!(g.squares, squares);
    assert_eq!(g.key, key);
    assert_eq!(g.ply, 0);
}

#[test]
fn game_pos_key_twice() {
    let mut g = Game::initialize();
    let key = g.key;
    g.generate_pos_key();
    assert_ne!(g.key, key);
    g.generate_pos_key();
    assert_eq!(g.key, key);
}

#[test]
fn game_add_piece_replaces_occupant() {
    let mut g = game_with(&[(10, WHITE_ROOK)]);
    g.add_piece(10, BLACK_PAWN);
    assert_eq!(g.squares[10], Some(BLACK_PAWN));
    assert_eq!(g.bitboard[WHITE_ROOK as usize], 0);
    assert_eq!(g.bitboard[BLACK_PAWN as usize], 1u64 << 10);
    assert_eq!(g.bitboard[WHITE as usize], 0);
    assert_eq!(g.bitboard[BLACK as usize], 1u64 << 10);
    assert_eq!(g.key, piece_key_value(10, BLACK_PAWN as usize));
    g.clear_piece(10);
    assert_eq!(g.squares[10], None);
    assert_eq!(g.key, 0);
}
