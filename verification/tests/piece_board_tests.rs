use fri_challenger::board::Board;
use fri_challenger::castling::CASTLING_NONE;
use fri_challenger::fen::FenTrait;
use fri_challenger::game::Game;
use fri_challenger::piece::{
    ColorTrait, PieceTrait, BISHOP, BLACK, BLACK_BISHOP, BLACK_KING, BLACK_KNIGHT, BLACK_PAWN, BLACK_QUEEN, BLACK_ROOK, KING, KNIGHT,
    PAWN, QUEEN, ROOK, WHITE, WHITE_BISHOP, WHITE_KING, WHITE_KNIGHT, WHITE_PAWN, WHITE_QUEEN, WHITE_ROOK,
};

#[test]
fn test_color() {
    assert!(WHITE.is_white());
    assert!(!WHITE.is_black());
    assert!(!BLACK.is_white());
    assert!(BLACK.is_black());
}

#[test]
fn test_piece_change_color() {
    let mut piece = WHITE_KING;
    piece.change_color();
    assert_eq!(piece, BLACK_KING);
    piece.change_color();
    assert_eq!(piece, WHITE_KING);
}

#[test]
fn test_piece_color() {
    assert_eq!(WHITE_ROOK.color(), WHITE);
    assert_eq!(BLACK_BISHOP.color(), BLACK);
    assert_eq!(BLACK_QUEEN.color(), BLACK);
    assert_eq!(WHITE_PAWN.color(), WHITE);
    assert_eq!(WHITE_KING.color(), WHITE);
    assert_eq!(BLACK_KNIGHT.color(), BLACK);
}

#[test]
fn test_piece_kind() {
    assert_eq!(WHITE_ROOK.kind(), ROOK);
    assert_eq!(BLACK_BISHOP.kind(), BISHOP);
    assert_eq!(BLACK_QUEEN.kind(), QUEEN);
    assert_eq!(WHITE_PAWN.kind(), PAWN);
    assert_eq!(WHITE_KING.kind(), KING);
    assert_eq!(BLACK_KNIGHT.kind(), KNIGHT);
}

#[test]
fn test_piece_idx() {
    assert_eq!(WHITE_ROOK.idx(), 10);
    assert_eq!(BLACK_BISHOP.idx(), 9);
    assert_eq!(BLACK_QUEEN.idx(), 13);
    assert_eq!(WHITE_PAWN.idx(), 2);
    assert_eq!(WHITE_KING.idx(), 6);
    assert_eq!(BLACK_KNIGHT.idx(), 5);
}

#[test]
fn test_piece_is_kind() {
    assert!(!WHITE_PAWN.is_king());
    assert!(WHITE_KNIGHT.is_knight());
    assert!(!WHITE_BISHOP.is_queen());
    assert!(WHITE_ROOK.is_rook());
    assert!(!WHITE_QUEEN.is_rook());
    assert!(WHITE_KING.is_king());
    assert!(BLACK_PAWN.is_pawn());
    assert!(!BLACK_KNIGHT.is_pawn());
    assert!(BLACK_BISHOP.is_bishop());
    assert!(!BLACK_ROOK.is_bishop());
    assert!(BLACK_QUEEN.is_queen());
    assert!(!BLACK_KING.is_rook());
}

#[test]
fn board_test_reset_board() {
    let mut board = Board::initialize();
    board.reset_board();
    assert_eq!(board.squares, [None; 64]);
    assert_eq!(board.bitboard, [0; 14]);
    assert_eq!(board.state.color, WHITE);
    assert_eq!(board.state.castling, CASTLING_NONE);
    assert_eq!(board.state.ep, None);
    assert_eq!(board.state.half_move, 0);
    assert_eq!(board.state.full_move, 1);
    assert_eq!(board.moves.len(), 0);
    assert_eq!(board.history.len(), 0);
}

#[test]
fn test_reset_board() {
    let mut board = Board::initialize();
    board.reset();
    assert_eq!(board.squares, [None; 64]);
    assert_eq!(board.bitboard, [0; 14]);
    assert_eq!(board.state.color, WHITE);
    assert_eq!(board.state.castling, CASTLING_NONE);
    assert_eq!(board.state.ep, None);
    assert_eq!(board.state.half_move, 0);
    assert_eq!(board.state.full_move, 1);
    assert_eq!(board.moves.len(), 0);
    assert_eq!(board.history.len(), 0);
}

#[test]
fn reset_clears_the_whole_board() {
    let mut board = Board::initialize();
    board.reset();
    assert_eq!(board.squares, [None; 64]);
    assert_eq!(board.bitboard, [0; 14]);
    assert_eq!(board.state.color, WHITE);
    assert_eq!(board.state.castling, CASTLING_NONE);
    assert_eq!(board.state.ep, None);
    assert_eq!(board.state.half_move, 0);
    assert_eq!(board.state.full_move, 1);
    assert_eq!(board.moves.len(), 0);
    assert_eq!(board.history.len(), 0);
}

#[test]
fn test_occupancy_start_position() {
    let board = Board::initialize();
    let mut white_occupancy: u64 = 0;
    let mut black_occupancy: u64 = 0;
    for i in 0..16 {
        white_occupancy |= 1 << i;
    }
    for i in 48..64 {
        black_occupancy |= 1 << i;
    }
    assert_eq!(board.bitboard(WHITE), white_occupancy);
    assert_eq!(board.bitboard(BLACK), black_occupancy);
}

#[test]
fn read_fen_sets_side_and_rights() {
    let board = Board::read_fen("r3k2r/8/8/8/8/8/8/R3K2R b Kq - 3 17");
    assert_eq!(board.state.color, BLACK);
    assert_eq!(board.state.castling, 1 | 8);
    assert_eq!(board.state.half_move, 3);
    assert_eq!(board.state.full_move, 17);
    assert_eq!(board.squares[4], Some(WHITE_KING));
    assert_eq!(board.squares[63], Some(BLACK_ROOK));
}

#[test]
fn game_test_reset_board() {
    let mut game = Game::initialize();
    game.reset_board();
    assert_eq!(game.squares, [None; 64]);
    assert_eq!(game.bitboard, [0; 14]);
    assert_eq!(game.color, WHITE);
    assert_eq!(game.castling, CASTLING_NONE);
    assert_eq!(game.ep, None);
    assert_eq!(game.half_move, 0);
    assert_eq!(game.full_move, 1);
    assert_eq!(game.pos_rev.len(), 0);
    assert_eq!(game.pos_irr.len(), 0);
}

#[test]
fn game_starts_from_the_start_position() {
    let game = Game::initialize();
    let board = Board::initialize();
    assert_eq!(game.squares, board.squares);
    assert_eq!(game.bitboard(WHITE), 0xffff);
    assert_eq!(game.castling, 15);
    assert_eq!(game.key, board.state.key);
}
