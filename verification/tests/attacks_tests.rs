use fri_challenger::attacks::{diagonal_move, forward_move, get_king_mask, get_knight_mask, Dir};
use fri_challenger::bits::{bit_scan_lsb, bit_scan_msb, extract_all_bits, is_inside_board_bounds_row_col, position_to_idx, set_bit, BitboardTrait};
use fri_challenger::piece::{BLACK, WHITE};
use fri_challenger::tables::{blocked_ray_att, Attacks, KingAttacks, KnightAttacks, PawnAttacks};

const ALL_KING_MOVES: [usize; 64] = [
    3, 5, 5, 5, 5, 5, 5, 3,
    5, 8, 8, 8, 8, 8, 8, 5,
    5, 8, 8, 8, 8, 8, 8, 5,
    5, 8, 8, 8, 8, 8, 8, 5,
    5, 8, 8, 8, 8, 8, 8, 5,
    5, 8, 8, 8, 8, 8, 8, 5,
    5, 8, 8, 8, 8, 8, 8, 5,
    3, 5, 5, 5, 5, 5, 5, 3,
];

const ALL_KNIGHT_MOVES: [usize; 64] = [
    2, 3, 4, 4, 4, 4, 3, 2,
    3, 4, 6, 6, 6, 6, 4, 3,
    4, 6, 8, 8, 8, 8, 6, 4,
    4, 6, 8, 8, 8, 8, 6, 4,
    4, 6, 8, 8, 8, 8, 6, 4,
    4, 6, 8, 8, 8, 8, 6, 4,
    3, 4, 6, 6, 6, 6, 4, 3,
    2, 3, 4, 4, 4, 4, 3, 2,
];

fn king_table(i: usize) -> u64 {
    get_king_mask(i, 0, 0, WHITE)
}

fn knight_table(i: usize) -> u64 {
    get_knight_mask(i, 0, 0, WHITE)
}

fn get_occupancy() -> (u64, u64) {
    let mut own_occupancy: u64 = 0;
    let mut enemy_occupancy: u64 = 0;
    for i in 0..16 {
        if i != 5 {
            own_occupancy.set_bit(i);
        }
    }
    own_occupancy.set_bit(22);
    for i in 48..64 {
        if i != 57 && i != 49 {
            enemy_occupancy.set_bit(i);
        }
    }
    enemy_occupancy.set_bit(41);
    enemy_occupancy.set_bit(42);
    (own_occupancy, enemy_occupancy)
}

fn rays_lookup() -> [[u64; 64]; 8] {
    Attacks::init().rays
}

fn expected_rays() -> (usize, u64, u64, u64) {
    let (row, col): (i8, i8) = (5, 6);
    let idx = position_to_idx(row, col, Some(true)) as usize;
    let mut expected_sw_6_7 = 0;
    let mut expected_w_6_7 = 0;
    let mut expected_ne_6_7 = 0;
    for i in 1..8 {
        if is_inside_board_bounds_row_col(row - i, col - i) {
            expected_sw_6_7 = set_bit(expected_sw_6_7, row - i, col - i);
        }
        if is_inside_board_bounds_row_col(row, col - i) {
            expected_w_6_7 = set_bit(expected_w_6_7, row, col - i);
        }
        if is_inside_board_bounds_row_col(row + i, col + i) {
            expected_ne_6_7 = set_bit(expected_ne_6_7, row + i, col + i);
        }
    }
    (idx, expected_sw_6_7, expected_w_6_7, expected_ne_6_7)
}

fn print_rays(rays: &[[u64; 64]; 8], idx: usize) {
    for dir in [Dir::NORTH, Dir::NORTHEAST, Dir::EAST, Dir::SOUTHEAST, Dir::SOUTH, Dir::SOUTHWEST, Dir::WEST, Dir::NORTHWEST] {
        let bb = rays[dir.idx()][idx];
        for row in (0..8).rev() {
            let mut line = String::new();
            for col in 0..8 {
                line.push(if bb.is_set(row * 8 + col) { '1' } else { '.' });
            }
            println!("{}", line);
        }
        println!();
    }
}

#[test]
fn test_king_knight_attacks_init() {
    let attacks = Attacks::init();
    for i in 0..64 {
        assert_eq!(extract_all_bits(attacks.king[i]).len(), ALL_KING_MOVES[i]);
        assert_eq!(extract_all_bits(attacks.knight[i]).len(), ALL_KNIGHT_MOVES[i]);
    }
}

#[test]
fn all_attacks_test_king_attacks_random_pos() {
    let attacks = Attacks::init();
    assert_eq!(extract_all_bits(attacks.king[0]), [1, 8, 9]);
    assert_eq!(extract_all_bits(attacks.king[40]), [32, 33, 41, 48, 49]);
    assert_eq!(extract_all_bits(attacks.king[55]), [46, 47, 54, 62, 63]);
    assert_eq!(extract_all_bits(attacks.king[17]), [8, 9, 10, 16, 18, 24, 25, 26]);
    assert_eq!(extract_all_bits(attacks.knight[0]), [10, 17]);
    assert_eq!(extract_all_bits(attacks.knight[40]), [25, 34, 50, 57]);
    assert_eq!(extract_all_bits(attacks.knight[17]), [0, 2, 11, 27, 32, 34]);
    assert_eq!(extract_all_bits(attacks.knight[55]), [38, 45, 61]);
}

#[test]
fn all_attacks_test_rays() {
    let rays = Attacks::init();
    let (idx, sw, w, ne) = expected_rays();
    assert_eq!(rays.rays[Dir::SOUTHWEST.idx()][idx], sw);
    assert_eq!(rays.rays[Dir::WEST.idx()][idx], w);
    assert_eq!(rays.rays[Dir::NORTHEAST.idx()][idx], ne);
}

#[test]
fn all_attacks_test_blocked_rays() {
    let rays = Attacks::init();
    let (own, enemy) = get_occupancy();
    let idx = position_to_idx(4, 4, Some(true));
    let ray_arr = rays.rays[Dir::NORTHWEST.idx()];
    let blocked_ray = blocked_ray_att(Dir::NORTHWEST, &ray_arr, ray_arr[idx as usize], enemy, own);
    assert_eq!(blocked_ray, 1 << (idx + 7));
}

#[test]
fn all_attacks_test_print_rays() {
    let (rays, idx) = (Attacks::init(), 43);
    print_rays(&rays.rays, idx);
}

#[test]
fn rays_test_rays() {
    let rays = rays_lookup();
    let (idx, sw, w, ne) = expected_rays();
    assert_eq!(rays[Dir::SOUTHWEST.idx()][idx], sw);
    assert_eq!(rays[Dir::WEST.idx()][idx], w);
    assert_eq!(rays[Dir::NORTHEAST.idx()][idx], ne);
}

#[test]
fn rays_test_blocked_rays() {
    let (own, enemy) = get_occupancy();
    let idx = position_to_idx(4, 4, Some(true));
    let ray_arr = rays_lookup()[Dir::NORTHWEST.idx()];
    let blocked_ray = blocked_ray_att(Dir::NORTHWEST, &ray_arr, ray_arr[idx as usize], enemy, own);
    assert_eq!(blocked_ray, 1 << (idx + 7));
}

#[test]
fn rays_test_print_rays() {
    print_rays(&rays_lookup(), 43);
}

#[test]
fn test_king_mask() {
    for i in 0..64 {
        assert_eq!(extract_all_bits(king_table(i)).len(), ALL_KING_MOVES[i]);
    }
}

#[test]
fn test_king_mask_random_pos() {
    assert_eq!(extract_all_bits(king_table(0)), [1, 8, 9]);
    assert_eq!(extract_all_bits(king_table(40)), [32, 33, 41, 48, 49]);
    assert_eq!(extract_all_bits(king_table(55)), [46, 47, 54, 62, 63]);
    assert_eq!(extract_all_bits(king_table(17)), [8, 9, 10, 16, 18, 24, 25, 26]);
}

#[test]
fn test_king_attacks_init() {
    let attacks = KingAttacks::init();
    for i in 0..64 {
        assert_eq!(extract_all_bits(attacks.king_attacks[i]).len(), ALL_KING_MOVES[i]);
    }
}

#[test]
fn king_attacks_test_king_attacks_random_pos() {
    let attacks = KingAttacks::init();
    assert_eq!(extract_all_bits(attacks.king_attacks[0]), [1, 8, 9]);
    assert_eq!(extract_all_bits(attacks.king_attacks[40]), [32, 33, 41, 48, 49]);
    assert_eq!(extract_all_bits(attacks.king_attacks[55]), [46, 47, 54, 62, 63]);
    assert_eq!(extract_all_bits(attacks.king_attacks[17]), [8, 9, 10, 16, 18, 24, 25, 26]);
}

#[test]
fn test_knight_mask() {
    for i in 0..64 {
        assert_eq!(extract_all_bits(knight_table(i)).len(), ALL_KNIGHT_MOVES[i]);
    }
}

#[test]
fn knight_test_knight_attacks_random_pos() {
    assert_eq!(extract_all_bits(knight_table(0)), [10, 17]);
    assert_eq!(extract_all_bits(knight_table(40)), [25, 34, 50, 57]);
    assert_eq!(extract_all_bits(knight_table(17)), [0, 2, 11, 27, 32, 34]);
    assert_eq!(extract_all_bits(knight_table(55)), [38, 45, 61]);
}

#[test]
fn test_knight_attacks_init() {
    let attacks = KnightAttacks::init();
    for i in 0..64 {
        assert_eq!(extract_all_bits(attacks.knight_attacks[i]).len(), ALL_KNIGHT_MOVES[i]);
    }
}

#[test]
fn knight_attacks_test_knight_attacks_random_pos() {
    let attacks = KnightAttacks::init();
    assert_eq!(extract_all_bits(attacks.knight_attacks[0]), [10, 17]);
    assert_eq!(extract_all_bits(attacks.knight_attacks[40]), [25, 34, 50, 57]);
    assert_eq!(extract_all_bits(attacks.knight_attacks[17]), [0, 2, 11, 27, 32, 34]);
    assert_eq!(extract_all_bits(attacks.knight_attacks[55]), [38, 45, 61]);
}

#[test]
fn test_pawn_attacks_init() {
    let _ = PawnAttacks::init();
}

#[test]
fn test_forward_edges_pawn_attacks() {
    for color in [WHITE, BLACK] {
        for row in [0, 7] {
            for col in 0..8 {
                let bitboard = forward_move(row, col, color);
                assert_eq!(bitboard, 0);
            }
        }
    }
}

#[test]
fn test_diagonal_edges_pawn_attacks() {
    for color in [WHITE, BLACK] {
        for row in [0, 7] {
            for col in 0..8 {
                let bitboard = diagonal_move(row, col, color);
                assert_eq!(bitboard, 0);
            }
        }
    }
}

#[test]
fn pawn_test_second_row_white_pawn() {
    let row = 1;
    for col in 0..8 {
        let bitboard = forward_move(row, col, WHITE);
        let lsb = bitboard.get_lsb();
        let msb = bitboard.get_msb();
        assert_eq!(lsb as i8, position_to_idx(row + 1, col, None));
        assert_eq!(msb as i8, position_to_idx(row + 2, col, None));
    }
}

#[test]
fn pawn_test_second_row_black_pawn() {
    let row = 1;
    for col in 0..8 {
        let bitboard = forward_move(row, col, BLACK);
        let lsb = bitboard.get_lsb();
        assert_eq!(lsb as i8, position_to_idx(row - 1, col, None));
    }
}

#[test]
fn pawn_test_seventh_row_black_pawn() {
    let row = 6;
    for col in 0..8 {
        let bitboard = forward_move(row, col, BLACK);
        let lsb = bitboard.get_lsb();
        let msb = bitboard.get_msb();
        assert_eq!(msb as i8, position_to_idx(row - 1, col, None));
        assert_eq!(lsb as i8, position_to_idx(row - 2, col, None));
    }
}

#[test]
fn pawn_test_seventh_row_white_pawn() {
    let row = 6;
    for col in 0..8 {
        let bitboard = forward_move(row, col, WHITE);
        let lsb = bitboard.get_lsb();
        assert_eq!(lsb as i8, position_to_idx(row + 1, col, None));
    }
}

#[test]
fn pawn_test_middle_row_white_pawn() {
    for row in 2..7 {
        for col in 0..8 {
            let bitboard = forward_move(row, col, WHITE);
            let lsb = bitboard.get_lsb();
            assert_eq!(lsb as i8, position_to_idx(row + 1, col, None));
        }
    }
}

#[test]
fn pawn_test_middle_row_black_pawn() {
    for row in 1..6 {
        for col in 0..8 {
            let bitboard = forward_move(row, col, BLACK);
            let lsb = bitboard.get_lsb();
            assert_eq!(lsb as i8, position_to_idx(row - 1, col, None));
        }
    }
}

#[test]
fn pawn_test_diagonal_white_pawn() {
    for row in 1..6 {
        for col in 1..6 {
            let bitboard = diagonal_move(row, col, WHITE);
            let lsb = bitboard.get_lsb();
            let msb = bitboard.get_msb();
            assert_eq!(lsb as i8, position_to_idx(row + 1, col - 1, None));
            assert_eq!(msb as i8, position_to_idx(row + 1, col + 1, None));
        }
    }
}

#[test]
fn pawn_test_diagonal_white_pawn_col_edge() {
    for row in 1..6 {
        let col = 0;
        let bitboard = diagonal_move(row, col, WHITE);
        let lsb = bitboard.get_lsb();
        assert_eq!(lsb as i8, position_to_idx(row + 1, col + 1, None));
    }
    for row in 1..6 {
        let col = 6;
        let bitboard = diagonal_move(row, col, WHITE);
        let lsb = bitboard.get_lsb();
        assert_eq!(lsb as i8, position_to_idx(row + 1, col - 1, None));
    }
}

#[test]
fn pawn_test_diagonal_black_pawn() {
    for row in 1..6 {
        for col in 1..6 {
            let bitboard = diagonal_move(row, col, BLACK);
            let lsb = bitboard.get_lsb();
            let msb = bitboard.get_msb();
            assert_eq!(lsb as i8, position_to_idx(row - 1, col - 1, None));
            assert_eq!(msb as i8, position_to_idx(row - 1, col + 1, None));
        }
    }
}

#[test]
fn pawn_test_diagonal_black_pawn_col_edge() {
    for row in 1..6 {
        let col = 0;
        let bitboard = diagonal_move(row, col, BLACK);
        let lsb = bitboard.get_lsb();
        assert_eq!(lsb as i8, position_to_idx(row - 1, col + 1, None));
    }
    for row in 1..6 {
        let col = 6;
        let bitboard = diagonal_move(row, col, BLACK);
        let lsb = bitboard.get_lsb();
        assert_eq!(lsb as i8, position_to_idx(row - 1, col - 1, None));
    }
}

#[test]
fn pawn_attacks_test_second_row_white_pawn() {
    let row = 1;
    for col in 0..8 {
        let bitboard = forward_move(row, col, WHITE);
        let lsb = bit_scan_lsb(bitboard);
        let msb = bit_scan_msb(bitboard);
        assert_eq!(lsb as i8, position_to_idx(row + 1, col, None));
        assert_eq!(msb as i8, position_to_idx(row + 2, col, None));
    }
}

#[test]
fn pawn_attacks_test_second_row_black_pawn() {
    let row = 1;
    for col in 0..8 {
        let bitboard = forward_move(row, col, BLACK);
        let lsb = bit_scan_lsb(bitboard);
        assert_eq!(lsb as i8, position_to_idx(row - 1, col, None));
    }
}

#[test]
fn pawn_attacks_test_seventh_row_black_pawn() {
    let row = 6;
    for col in 0..8 {
        let bitboard = forward_move(row, col, BLACK);
        let lsb = bit_scan_lsb(bitboard);
        let msb = bit_scan_msb(bitboard);
        assert_eq!(msb as i8, position_to_idx(row - 1, col, None));
        assert_eq!(lsb as i8, position_to_idx(row - 2, col, None));
    }
}

#[test]
fn pawn_attacks_test_seventh_row_white_pawn() {
    let row = 6;
    for col in 0..8 {
        let bitboard = forward_move(row, col, WHITE);
        let lsb = bit_scan_lsb(bitboard);
        assert_eq!(lsb as i8, position_to_idx(row + 1, col, None));
    }
}

#[test]
fn pawn_attacks_test_middle_row_white_pawn() {
    for row in 2..7 {
        for col in 0..8 {
            let bitboard = forward_move(row, col, WHITE);
            let lsb = bit_scan_lsb(bitboard);
            assert_eq!(lsb as i8, position_to_idx(row + 1, col, None));
        }
    }
}

#[test]
fn pawn_attacks_test_middle_row_black_pawn() {
    for row in 1..6 {
        for col in 0..8 {
            let bitboard = forward_move(row, col, BLACK);
            let lsb = bit_scan_lsb(bitboard);
            assert_eq!(lsb as i8, position_to_idx(row - 1, col, None));
        }
    }
}

#[test]
fn pawn_attacks_test_diagonal_white_pawn() {
    for row in 1..6 {
        for col in 1..6 {
            let bitboard = diagonal_move(row, col, WHITE);
            let lsb = bit_scan_lsb(bitboard);
            let msb = bit_scan_msb(bitboard);
            assert_eq!(lsb as i8, position_to_idx(row + 1, col - 1, None));
            assert_eq!(msb as i8, position_to_idx(row + 1, col + 1, None));
        }
    }
}

#[test]
fn pawn_attacks_test_diagonal_white_pawn_col_edge() {
    for row in 1..6 {
        let col = 0;
        let bitboard = diagonal_move(row, col, WHITE);
        let lsb = bit_scan_lsb(bitboard);
        assert_eq!(lsb as i8, position_to_idx(row + 1, col + 1, None));
    }
    for row in 1..6 {
        let col = 6;
        let bitboard = diagonal_move(row, col, WHITE);
        let lsb = bit_scan_lsb(bitboard);
        assert_eq!(lsb as i8, position_to_idx(row + 1, col - 1, None));
    }
}

#[test]
fn pawn_attacks_test_diagonal_black_pawn() {
    for row in 1..6 {
        for col in 1..6 {
            let bitboard = diagonal_move(row, col, BLACK);
            let lsb = bit_scan_lsb(bitboard);
            let msb = bit_scan_msb(bitboard);
            assert_eq!(lsb as i8, position_to_idx(row - 1, col - 1, None));
            assert_eq!(msb as i8, position_to_idx(row - 1, col + 1, None));
        }
    }
}

#[test]
fn pawn_attacks_test_diagonal_black_pawn_col_edge() {
    for row in 1..6 {
        let col = 0;
        let bitboard = diagonal_move(row, col, BLACK);
        let lsb = bit_scan_lsb(bitboard);
        assert_eq!(lsb as i8, position_to_idx(row - 1, col + 1, None));
    }
    for row in 1..6 {
        let col = 6;
        let bitboard = diagonal_move(row, col, BLACK);
        let lsb = bit_scan_lsb(bitboard);
        assert_eq!(lsb as i8, position_to_idx(row - 1, col - 1, None));
    }
}
