use fri_challenger::piece::WHITE;
use fri_challenger::tables::{get_bishop_lookup, get_queen_lookup, get_rook_lookup};

#[test]
fn rook_lookup_covers_rank_and_file() {
    let r = get_rook_lookup(0, 0, 0, WHITE);
    assert_eq!(r.count_ones(), 14);
    assert!(r & (1u64 << 7) != 0);
    assert!(r & (1u64 << 56) != 0);
    assert!(r & 1 == 0);
    assert_eq!(r, 0x01010101010101FE);
}

#[test]
fn bishop_lookup_covers_diagonals() {
    let b = get_bishop_lookup(0, 0, 0, WHITE);
    assert_eq!(b, 0x8040201008040200);
    let d4 = get_bishop_lookup(27, 0, 0, WHITE);
    assert_eq!(d4.count_ones(), 13);
}

#[test]
fn queen_lookup_is_rook_and_bishop() {
    for sq in 0..64usize {
        let q = get_queen_lookup(sq, 0, 0, WHITE);
        assert_eq!(q, get_rook_lookup(sq, 0, 0, WHITE) | get_bishop_lookup(sq, 0, 0, WHITE));
        assert_eq!(get_rook_lookup(sq, 0, 0, WHITE).count_ones(), 14);
    }
}
