use fri_challenger::attacks::{bishop_attacks, rook_attacks};
use fri_challenger::pext::{gen_pext_table_rook, insert_bits, pdep, pext, SlideTables};
use fri_challenger::tables::{gen_bishop_mov, gen_rook_mov};

#[test]
fn test_king_knight_attacks_init1() {}

#[test]
fn insert_bits_lays_out_low_bits() {
    assert_eq!(insert_bits(0b1010, 0b11), 0b1010);
    assert_eq!(insert_bits(0b1010, 0b10), 0b1000);
    assert_eq!(insert_bits(0xF0, 0b0101), 0b0101_0000);
    assert_eq!(insert_bits(0, u64::MAX), 0);
    assert_eq!(insert_bits(u64::MAX, 0x1234), 0x1234);
}

#[test]
fn pext_packs_mask_squares() {
    assert_eq!(pext(0b1011_0110, 0xF0), 0b1011);
    assert_eq!(pext(0b1011_0110, 0x0F), 0b0110);
    assert_eq!(pext(0x8000_0000_0000_0001, 0x8000_0000_0000_0001), 0b11);
    assert_eq!(pext(u64::MAX, 0), 0);
}

#[test]
fn pdep_deposits_on_mask() {
    assert_eq!(pdep(0b1011, 0xF0), 0b1011_0000);
    assert_eq!(pdep(0b11, 0x8000_0000_0000_0001), 0x8000_0000_0000_0001);
}

#[test]
fn pdep_after_pext_keeps_mask_squares() {
    let cases: [(u64, u64); 4] = [
        (0x0123_4567_89AB_CDEF, 0x00FF_00FF_00FF_00FF),
        (0xFFFF_0000_FFFF_0000, 0x0F0F_0F0F_0F0F_0F0F),
        (0x8000_0000_0000_0001, 0xC000_0000_0000_0003),
        (0xDEAD_BEEF, 0x0001_0101_0101_017E),
    ];
    for (x, m) in cases {
        assert_eq!(pdep(pext(x, m), m), x & m);
    }
}

#[test]
fn rook_masks_sizes() {
    assert_eq!(gen_rook_mov(0).count_ones(), 12);
    assert_eq!(gen_rook_mov(1).count_ones(), 11);
    assert_eq!(gen_rook_mov(27).count_ones(), 10);
    assert_eq!(gen_bishop_mov(0).count_ones(), 6);
    assert_eq!(gen_bishop_mov(27).count_ones(), 9);
}

#[test]
fn rook_table_part_sizes() {
    let table = gen_pext_table_rook();
    assert_eq!(table.len(), 64);
    assert_eq!(table[0].len(), 4096);
    assert_eq!(table[1].len(), 2048);
    assert_eq!(table[27].len(), 1024);
    assert_eq!(table[63].len(), 4096);
    let total: usize = table.iter().map(|p| p.len()).sum();
    assert_eq!(total, 102400);
}

#[test]
fn slide_tables_match_ray_walk() {
    let tables = SlideTables::init();
    let positions: [(u64, u64); 4] = [
        (0, 0),
        (0x0000_0010_0800_2400, 0x0042_0000_1000_0081),
        (0xFFFF, 0xFFFF_0000_0000_0000),
        (0x0000_0800_0000_1000, 0x0020_0000_4400_0000),
    ];
    for (own, enemy) in positions {
        for sq in 0..64usize {
            let occ = own | enemy;
            assert_eq!(tables.gen_slide_mv(sq, own, enemy, false), rook_attacks(sq, occ) & !own);
            assert_eq!(tables.gen_slide_mv(sq, own, enemy, true), bishop_attacks(sq, occ) & !own);
        }
    }
}

#[test]
fn slide_tables_rook_example() {
    let tables = SlideTables::init();
    // A rook on a1 with a piece of its own on a2 and an enemy on e1.
    let own = 1u64 << 8;
    let enemy = 1u64 << 4;
    assert_eq!(tables.gen_slide_mv(0, own, enemy, false), (1 << 1) | (1 << 2) | (1 << 3) | (1 << 4));
}

#[test]
fn insert_bits_then_pext_gives_back_the_occupancy() {
    assert_eq!(insert_bits(0b1010, 0b10), 0b1000);
    assert_eq!(pext(insert_bits(0b1010, 0b10), 0b1010), 0b10);
    let mask: u64 = 0x0000_0000_0101_017E;
    let n = mask.count_ones();
    for occ in 0..(1u64 << n) {
        let d = insert_bits(mask, occ);
        assert_eq!(d & mask, d);
        assert_eq!(d.count_ones(), occ.count_ones());
        assert_eq!(pext(d, mask), occ);
    }
}
