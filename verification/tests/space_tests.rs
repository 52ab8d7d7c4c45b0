use fri_challenger::attacks::{get_all_pawn_forward_mask, get_all_pawn_left_att_mask, get_all_pawn_right_att_mask};
use fri_challenger::board::Board;
use fri_challenger::evaluation::{PassedPawnEvalTrait, PieceEvalTrait, SpaceEvalTrait};
use fri_challenger::fen::FenTrait;
use fri_challenger::piece::{BLACK, WHITE};

#[test]
fn pawn_sets_step_and_attack() {
    assert_eq!(get_all_pawn_forward_mask(0xFF00, WHITE), 0xFF_0000);
    assert_eq!(get_all_pawn_forward_mask(0x00FF_0000_0000_0000, BLACK), 0x0000_FF00_0000_0000);
    assert_eq!(get_all_pawn_left_att_mask(1u64 << 12, WHITE), 1u64 << 19);
    assert_eq!(get_all_pawn_right_att_mask(1u64 << 12, WHITE), 1u64 << 21);
    assert_eq!(get_all_pawn_left_att_mask(1u64 << 8, WHITE), 0);
    assert_eq!(get_all_pawn_right_att_mask(1u64 << 15, WHITE), 0);
    assert_eq!(get_all_pawn_left_att_mask(1u64 << 52, BLACK), 1u64 << 43);
    assert_eq!(get_all_pawn_right_att_mask(1u64 << 52, BLACK), 1u64 << 45);
}

#[test]
fn space_of_the_start_position() {
    let mut board = Board::initialize();
    assert_eq!(board.space_area(WHITE), 8);
    let before = board.eval.score[WHITE as usize];
    board.space(WHITE);
    // 16 pieces, nothing blocked: weight 13; 8 * 13 * 13 / 16 = 84.
    assert_eq!(board.eval.score[WHITE as usize], (before.0 + 84, before.1));
}

#[test]
fn space_needs_material() {
    let mut board = Board::read_fen("4k3/8/8/8/8/8/4P3/4K3 w - - 0 1");
    let before = board.eval.score;
    board.space(WHITE);
    assert_eq!(board.eval.score, before);
}

#[test]
fn space_counts_blocked_pawns() {
    // White pawn e4 against black pawn e5: both squares are blocked for each side.
    let mut board = Board::read_fen("rnbqkbnr/pppp1ppp/8/4p3/4P3/8/PPPP1PPP/RNBQKBNR w KQkq - 0 2");
    let area = board.space_area(WHITE);
    let before = board.eval.score[WHITE as usize];
    board.space(WHITE);
    let weight = 16 - 3 + 2;
    let bonus = area as isize * weight * weight / 16;
    assert_eq!(board.eval.score[WHITE as usize], (before.0 + bonus, before.1));
    assert_eq!(area, 8);
}

#[test]
fn minors_behind_pawns_and_outposts() {
    let mut board = Board::initialize();
    assert_eq!(board.minor_behind_pawn(WHITE), 4);
    assert_eq!(board.minor_behind_pawn(BLACK), 4);
    let mut board = Board::read_fen("4k3/8/8/8/4P3/4N3/8/4K3 w - - 0 1");
    assert_eq!(board.minor_behind_pawn(WHITE), 1);
    board.eval.outpost[WHITE as usize] = 1u64 << 20;
    assert_eq!(board.outpost(WHITE), 1u64 << 20);
    board.eval.outpost[WHITE as usize] = (1u64 << 20) | (1u64 << 35);
    board.eval.attacked_by[(fri_challenger::piece::WHITE_KNIGHT) as usize] = 1u64 << 35;
    assert_eq!(board.reachable_outpost(WHITE), 1u64 << 35);
}

#[test]
fn candidate_passed_pawns() {
    use_candidate("4k3/8/8/4P3/8/8/8/4K3 w - - 0 1", 36, WHITE, true);
    use_candidate("4k3/8/4p3/8/4P3/8/8/4K3 w - - 0 1", 28, WHITE, false);
    use_candidate("4k3/8/3P4/8/3P4/8/8/4K3 w - - 0 1", 27, WHITE, false);
    use_candidate("4k3/3p4/8/4P3/8/8/8/4K3 w - - 0 1", 36, WHITE, false);
    use_candidate("4k3/3p4/8/4PP2/8/8/8/4K3 w - - 0 1", 36, WHITE, true);
    use_candidate("4k3/8/8/8/4p3/8/8/4K3 b - - 0 1", 28, BLACK, true);
}

fn use_candidate(fen: &str, sq: usize, clr: u8, expected: bool) {
    let mut board = Board::read_fen(fen);
    assert_eq!(board.candidate_passed(sq, clr), expected, "{}", fen);
}

#[test]
fn passed_pawn_terms() {
    let mut board = Board::read_fen("4k3/8/4P3/8/8/8/8/4K3 w - - 0 1");
    assert_eq!(board.passed_file(0), 0);
    assert_eq!(board.passed_file(3), 3);
    assert_eq!(board.passed_file(12), 3);
    assert_eq!(board.passed_file(63), 0);
    // Rank six from white: weight 12; nothing attacks the way ahead.
    assert_eq!(board.passed_blocked(44, WHITE), 420);
    // Kings: black one square from e7, white five or more.
    assert_eq!(board.king_proximity(44, WHITE), 4 * 12 - 5 * 2 * 12 - 5 * 12);
    assert!(board.passed_leverable(44, WHITE));
    let mut board = Board::read_fen("4k3/8/4P3/8/8/8/8/4RK2 w - - 0 1");
    assert_eq!(board.passed_blocked(44, WHITE), 480);
    let mut board = Board::read_fen("4k3/8/8/8/8/4P3/8/4K3 w - - 0 1");
    assert_eq!(board.passed_blocked(20, WHITE), 0);
    assert_eq!(board.king_proximity(20, WHITE), 0);
    let mut board = Board::read_fen("4k3/4n3/4P3/8/8/8/8/4K3 w - - 0 1");
    assert_eq!(board.passed_blocked(44, WHITE), 0);
}

#[test]
fn passed_pawn_sums_the_terms() {
    let mut board = Board::read_fen("4k3/8/4P3/8/8/8/8/4K3 w - - 0 1");
    let before = board.eval.score[WHITE as usize];
    board.passed_pawn(WHITE);
    // rank bonus (168, 177), way ahead 420, kings -132, file 3.
    assert_eq!(board.eval.score[WHITE as usize], (before.0 + 168 + 420 - 33, before.1 - 132 + 177 + 420 - 24));
    let before = board.eval.score[BLACK as usize];
    board.passed_pawn(BLACK);
    assert_eq!(board.eval.score[BLACK as usize], before);
}

#[test]
fn piece_terms_protector_queen_file_and_xray() {
    let mut board = Board::read_fen("4k3/8/8/8/8/8/8/N3K2B w - - 0 1");
    let before = board.eval.score[WHITE as usize];
    board.king_protector(WHITE);
    assert_eq!(board.eval.score[WHITE as usize], (before.0 - 32 - 18, before.1 - 36 - 27));
    let mut board = Board::read_fen("3qk3/8/8/8/8/8/8/R2RK3 w - - 0 1");
    let before = board.eval.score[WHITE as usize];
    board.rook_on_queen_file(WHITE);
    assert_eq!(board.eval.score[WHITE as usize], (before.0 + 6, before.1 + 11));
    let mut board = Board::read_fen("4k3/8/5p2/8/3p4/8/1B6/4K3 w - - 0 1");
    assert_eq!(board.bishop_xray_pawns(WHITE), 2);
    assert_eq!(board.bishop_xray_pawns(BLACK), 0);
}

#[test]
fn queen_infiltration_and_king_ring_counts() {
    let mut board = Board::read_fen("4k3/8/3Q4/8/8/8/3Q4/4K3 w - - 0 1");
    assert_eq!(board.queen_infaltration(WHITE), 1);
    let mut board = Board::read_fen("4k3/8/8/8/8/8/1B6/4R1K1 w - - 0 1");
    board.eval.king_ring[BLACK as usize] = 1u64 << 35;
    assert_eq!(board.rook_on_king_ring(WHITE), 1);
    board.eval.king_ring[BLACK as usize] = 1u64 << 27;
    assert_eq!(board.rook_on_king_ring(WHITE), 0);
    assert_eq!(board.bishop_on_king_ring(WHITE), 1);
    board.eval.king_att_count_pieces[WHITE as usize] = 1u64 << 9;
    assert_eq!(board.bishop_on_king_ring(WHITE), 0);
    let mut board = Board::read_fen("4k3/8/8/8/8/2P5/1B6/4K3 w - - 0 1");
    board.eval.king_ring[BLACK as usize] = 1u64 << 27;
    assert_eq!(board.bishop_on_king_ring(WHITE), 0);
}

#[test]
fn bishop_pawns_counts() {
    let mut board = Board::initialize();
    assert_eq!(board.bishop_pawns(WHITE), 8);
    let mut board = Board::read_fen("4k3/8/8/8/8/4p3/4P3/4KB2 w - - 0 1");
    assert_eq!(board.bishop_pawns(WHITE), 2);
    let mut board = Board::read_fen("4k3/8/8/8/8/8/4P3/4KB2 w - - 0 1");
    assert_eq!(board.bishop_pawns(WHITE), 1);
}

#[test]
fn trapped_rook_beside_the_king() {
    let mut board = Board::read_fen("4k3/8/8/8/8/8/6PP/R5KR w - - 0 1");
    board.eval.open_file[WHITE as usize] = 0;
    let before = board.eval.score[WHITE as usize];
    board.trapped_rook(WHITE);
    // Only the h1 rook is shut in; no castling right doubles the penalty.
    assert_eq!(board.eval.score[WHITE as usize], (before.0 - 110, before.1 - 26));
    let mut board = Board::read_fen("4k3/8/8/8/8/8/6PP/R5KR w Q - 0 1");
    board.eval.open_file[WHITE as usize] = 0;
    let before = board.eval.score[WHITE as usize];
    board.trapped_rook(WHITE);
    assert_eq!(board.eval.score[WHITE as usize], (before.0 - 55, before.1 - 13));
    // Rooks on open files are never trapped.
    let mut board = Board::read_fen("4k3/8/8/8/8/8/6PP/R5KR w - - 0 1");
    let before = board.eval.score[WHITE as usize];
    board.trapped_rook(WHITE);
    assert_eq!(board.eval.score[WHITE as usize], before);
}

#[test]
fn outpost_total_terms() {
    let mut board = Board::read_fen("4k3/8/8/8/8/8/8/1N2K3 w - - 0 1");
    board.eval.outpost[WHITE as usize] = 1u64 << 18;
    let before = board.eval.score[WHITE as usize];
    board.outpost_total(WHITE);
    // The b1 knight reaches the free outpost on c3.
    assert_eq!(board.eval.score[WHITE as usize], (before.0 + 31, before.1 + 22));
    let mut board = Board::read_fen("4k3/8/8/8/8/8/8/1N2K3 w - - 0 1");
    board.eval.outpost[WHITE as usize] = (1u64 << 18) | (1u64 << 1);
    let before = board.eval.score[WHITE as usize];
    board.outpost_total(WHITE);
    // A knight on an outpost.
    assert_eq!(board.eval.score[WHITE as usize], (before.0 + 56, before.1 + 36));
    let mut board = Board::read_fen("4k3/8/8/8/8/2P5/8/1N2K3 w - - 0 1");
    board.eval.outpost[WHITE as usize] = 1u64 << 18;
    let before = board.eval.score[WHITE as usize];
    board.outpost_total(WHITE);
    assert_eq!(board.eval.score[WHITE as usize], before);
    let mut board = Board::read_fen("4k3/8/8/8/8/8/8/1N2KB2 w - - 0 1");
    board.eval.outpost[WHITE as usize] = (1u64 << 18) | (1u64 << 5);
    let before = board.eval.score[WHITE as usize];
    board.outpost_total(WHITE);
    // The reach bonus and a bishop on an outpost.
    assert_eq!(board.eval.score[WHITE as usize], (before.0 + 61, before.1 + 45));
}
