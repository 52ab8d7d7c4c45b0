use fri_challenger::board::Board;
use fri_challenger::evaluation::PawnEvalTrait;
use fri_challenger::fen::FenTrait;
use fri_challenger::piece::{BLACK, WHITE};

// White pawns on c4, d4, e4 and c3; a black pawn on d5.
const CHAIN: &str = "4k3/8/8/3p4/2PPP3/2P5/8/4K3 w - - 0 1";

#[test]
fn pawn_blocked_opposed_isolated() {
    let mut board = Board::read_fen(CHAIN);
    assert!(board.blocked_pawn(27, WHITE, 1u64 << 35));
    assert!(!board.blocked_pawn(26, WHITE, 1u64 << 35));
    assert!(board.opposed_pawn(27, WHITE));
    assert!(!board.opposed_pawn(26, WHITE));
    assert!(!board.isolated_pawn(26, WHITE));
    assert!(board.isolated_pawn(35, BLACK));
}

#[test]
fn pawn_support_phalanx_doubled_connected() {
    let mut board = Board::read_fen(CHAIN);
    assert_eq!(board.supported_pawn(27, WHITE), 1);
    assert_eq!(board.supported_pawn(26, WHITE), 0);
    assert!(board.phalanx_pawn(26, WHITE));
    assert!(!board.phalanx_pawn(18, WHITE));
    assert!(board.doubled_pawn(26, WHITE));
    assert!(!board.doubled_pawn(27, WHITE));
    assert!(board.connected_pawn(27, WHITE));
    assert!(!board.connected_pawn(18, WHITE));
    assert!(board.weak_lever(35, BLACK));
    assert!(!board.weak_lever(27, WHITE));
}

#[test]
fn pawn_backward_and_weak_unopposed() {
    let mut board = Board::read_fen(CHAIN);
    assert!(!board.backward_pawn(18, WHITE));
    assert!(!board.weak_unopposed_pawn(18, WHITE));
    // A black pawn attack on c4 makes the c3 pawn backward.
    board.eval.attacked_by[3] = 1u64 << 26;
    assert!(board.backward_pawn(18, WHITE));
    assert!(board.weak_unopposed_pawn(18, WHITE));
}

#[test]
fn pawn_connected_bonus_values() {
    let mut board = Board::read_fen(CHAIN);
    // Rank 3 seed 12, phalanx, opposed, one supporter: 12 * 2 + 21.
    assert_eq!(board.connected_bonus(27, WHITE), 45);
    assert_eq!(board.connected_bonus(18, WHITE), 0);
}

#[test]
fn pawn_blocked_far_up() {
    let mut board = Board::read_fen("4k3/8/3p4/3P4/8/8/8/4K3 w - - 0 1");
    assert_eq!(board.blocked_pawn_5th_6th_rank(35, WHITE), 1);
    assert_eq!(board.blocked_pawn_5th_6th_rank(43, BLACK), 0);
    let mut board = Board::read_fen("4k3/3p4/3P4/8/8/8/8/4K3 w - - 0 1");
    assert_eq!(board.blocked_pawn_5th_6th_rank(43, WHITE), 2);
    let mut board = Board::read_fen(CHAIN);
    assert_eq!(board.blocked_pawn_5th_6th_rank(27, WHITE), 0);
}

#[test]
fn doubled_isolated_pawns() {
    let mut board = Board::read_fen("4k3/8/8/p7/P7/P7/8/4K3 w - - 0 1");
    assert!(board.doubled_isolated_pawn(24, WHITE));
    assert!(!board.doubled_isolated_pawn(16, WHITE));
}

#[test]
fn single_pawn_terms() {
    let mut board = Board::read_fen(CHAIN);
    let before = board.eval.score[WHITE as usize];
    board.single_pawn_eval(27, WHITE);
    // Connected bonus 45, end game 45 * (3 - 2) / 4.
    assert_eq!(board.eval.score[WHITE as usize], (before.0 + 45, before.1 + 11));
    let mut board = Board::read_fen("4k3/8/8/8/8/8/PP6/4K3 w - - 0 1");
    let before = board.eval.score[WHITE as usize];
    board.single_pawn_eval(8, WHITE);
    // Connected bonus 7 * 3; end game -21 / 4, rounded toward zero.
    assert_eq!(board.eval.score[WHITE as usize], (before.0 + 21, before.1 - 5));
}

#[test]
fn pawns_eval_sums_every_pawn() {
    let mut board = Board::read_fen("4k3/8/8/8/8/8/P7/4K3 w - - 0 1");
    let before = board.eval.score[WHITE as usize];
    board.pawns_eval(WHITE);
    // Isolated (-5, -15) and weak unopposed (-13, -27).
    assert_eq!(board.eval.score[WHITE as usize], (before.0 - 18, before.1 - 42));
    let before = board.eval.score[BLACK as usize];
    board.pawns_eval(BLACK);
    assert_eq!(board.eval.score[BLACK as usize], before);
}
