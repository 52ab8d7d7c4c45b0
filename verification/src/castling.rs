use vstd::prelude::*;
use crate::bits::{has_bit, lemma_bit_ops, lemma_bit_consts, lemma_empty_is_zero, lemma_nonzero_has_bit};
use crate::board::Board;
use crate::mv_gen::{BoardGenMoveTrait, sq_attacked, attacker_of};
use crate::piece::{Color, WHITE, BLACK};

verus! {

/// Castling rights: one bit for each of the four castlings.
pub type Castling = u8;

pub const CASTLING_NONE: Castling = 0;

pub const CASTLING_WKINGSIDE: Castling = 1;

pub const CASTLING_WQUEENSIDE: Castling = 2;

pub const CASTLING_BKINGSIDE: Castling = 4;

pub const CASTLING_BQUEENSIDE: Castling = 8;

pub const CASTLING_ALL: Castling = 15;

/// One of the four single castling rights.
pub open spec fn single_right(c: u8) -> bool {
    c == CASTLING_WKINGSIDE || c == CASTLING_WQUEENSIDE || c == CASTLING_BKINGSIDE || c
        == CASTLING_BQUEENSIDE
}

/// The rights `rights` hold the right (or one of the rights) `c`.
pub open spec fn cr_has(rights: u8, c: u8) -> bool {
    rights & c != 0
}

/// Home square of the rook of the castling with index `i` (0: white short, 1: white long,
/// 2: black short, 3: black long).
pub open spec fn castle_rook_home(i: int) -> int {
    if i == 0 {
        7
    } else if i == 1 {
        0
    } else if i == 2 {
        63
    } else {
        56
    }
}

/// Home square of the king for the castling with index `i`.
pub open spec fn castle_king_home(i: int) -> int {
    if i < 2 {
        4
    } else {
        60
    }
}

/// The right bit of the castling with index `i`.
pub open spec fn castle_right(i: int) -> u8 {
    if i == 0 {
        1
    } else if i == 1 {
        2
    } else if i == 2 {
        4
    } else {
        8
    }
}

/// The side of the castling with index `i`.
pub open spec fn castle_color(i: int) -> u8 {
    if i < 2 {
        WHITE
    } else {
        BLACK
    }
}

/// Square the rook leaves and square it goes to, for a color and a castling side
/// (0 for king side, 1 for queen side).
pub open spec fn rook_squares(clr: int, side: int) -> (int, int) {
    if clr == 0 {
        if side == 0 {
            (7, 5)
        } else {
            (0, 3)
        }
    } else {
        if side == 0 {
            (63, 61)
        } else {
            (56, 59)
        }
    }
}

/// Rook square, king square, right bit and color of the castling with index `i`.
pub fn castle_data(i: usize) -> (r: (usize, usize, Castling, Color))
    requires
        i < 4,
    ensures
        r.0 == castle_rook_home(i as int),
        r.1 == castle_king_home(i as int),
        r.2 == castle_right(i as int),
        r.3 == castle_color(i as int),
{
    match i {
        0 => (7, 4, CASTLING_WKINGSIDE, WHITE),
        1 => (0, 4, CASTLING_WQUEENSIDE, WHITE),
        2 => (63, 60, CASTLING_BKINGSIDE, BLACK),
        _ => (56, 60, CASTLING_BQUEENSIDE, BLACK),
    }
}

/// Square the rook leaves and square it goes to when `clr` castles on `side`
/// (0 for king side, 1 for queen side).
pub fn rook_sq(clr: Color, side: usize) -> (r: (usize, usize))
    requires
        side < 2,
    ensures
        r.0 == rook_squares(clr as int, side as int).0,
        r.1 == rook_squares(clr as int, side as int).1,
{
    if clr == 0 {
        if side == 0 {
            (7, 5)
        } else {
            (0, 3)
        }
    } else {
        if side == 0 {
            (63, 61)
        } else {
            (56, 59)
        }
    }
}

/// Squares of the pawn shield in front of a castled king.
pub const CASTLE_PAWN_SHIELD_WK: u64 = 0b0000000000000000000000000000000000000000111000001110000000000000;

pub const CASTLE_PAWN_SHIELD_WQ: u64 = 0b0000000000000000000000000000000000000000000001110000011100000000;

pub const CASTLE_PAWN_SHIELD_BK: u64 = 0b0000000011100000111000000000000000000000000000000000000000000000;

pub const CASTLE_PAWN_SHIELD_BQ: u64 = 0b0000000000000111000001110000000000000000000000000000000000000000;

/// Both rights of a color.
pub open spec fn clr_castle_mask(clr: u8) -> u8 {
    if clr == WHITE {
        3
    } else {
        12
    }
}

/// The short (index 0) or long (index 1) right of a color.
pub open spec fn clr_side_mask(clr: u8, side: int) -> u8 {
    if clr == WHITE {
        if side == 0 {
            1
        } else {
            2
        }
    } else {
        if side == 0 {
            4
        } else {
            8
        }
    }
}

/// No right is held in the empty set of rights.
pub proof fn lemma_no_rights(m: u8)
    by (bit_vector)
    ensures
        0u8 & m == 0,
{
}

pub proof fn lemma_rights_bits(rights: u8)
    by (bit_vector)
    requires
        rights < 16,
    ensures
        rights | 1u8 < 16,
        rights | 2u8 < 16,
        rights | 4u8 < 16,
        rights | 8u8 < 16,
        rights & !1u8 < 16,
        rights & !2u8 < 16,
        rights & !4u8 < 16,
        rights & !8u8 < 16,
        rights & 3u8 < 16,
        rights & 12u8 < 16,
        (rights & !1u8) & 1u8 == 0,
        (rights & !2u8) & 2u8 == 0,
        (rights & !4u8) & 4u8 == 0,
        (rights & !8u8) & 8u8 == 0,
        (rights & !1u8) & 2u8 == rights & 2u8,
        (rights & !1u8) & 4u8 == rights & 4u8,
        (rights & !1u8) & 8u8 == rights & 8u8,
        (rights & !2u8) & 1u8 == rights & 1u8,
        (rights & !2u8) & 4u8 == rights & 4u8,
        (rights & !2u8) & 8u8 == rights & 8u8,
        (rights & !4u8) & 1u8 == rights & 1u8,
        (rights & !4u8) & 2u8 == rights & 2u8,
        (rights & !4u8) & 8u8 == rights & 8u8,
        (rights & !8u8) & 1u8 == rights & 1u8,
        (rights & !8u8) & 2u8 == rights & 2u8,
        (rights & !8u8) & 4u8 == rights & 4u8,
        (rights | 1u8) & 1u8 != 0,
        (rights | 2u8) & 2u8 != 0,
        (rights | 4u8) & 4u8 != 0,
        (rights | 8u8) & 8u8 != 0,
        (rights | 1u8) & 2u8 == rights & 2u8,
        (rights | 1u8) & 4u8 == rights & 4u8,
        (rights | 1u8) & 8u8 == rights & 8u8,
        (rights | 2u8) & 1u8 == rights & 1u8,
        (rights | 2u8) & 4u8 == rights & 4u8,
        (rights | 2u8) & 8u8 == rights & 8u8,
        (rights | 4u8) & 1u8 == rights & 1u8,
        (rights | 4u8) & 2u8 == rights & 2u8,
        (rights | 4u8) & 8u8 == rights & 8u8,
        (rights | 8u8) & 1u8 == rights & 1u8,
        (rights | 8u8) & 2u8 == rights & 2u8,
        (rights | 8u8) & 4u8 == rights & 4u8,
        rights == 15u8 <==> (rights & 1u8 != 0 && rights & 2u8 != 0 && rights & 4u8 != 0
            && rights & 8u8 != 0),
        rights & 1u8 == 0 || rights & 1u8 == 1u8,
        rights & 2u8 == 0 || rights & 2u8 == 2u8,
        rights & 4u8 == 0 || rights & 4u8 == 4u8,
        rights & 8u8 == 0 || rights & 8u8 == 8u8,
        rights & 3u8 == (rights & 1u8) | (rights & 2u8),
        rights & 12u8 == (rights & 4u8) | (rights & 8u8),
{
}

/// The squares between king and rook that must be empty for the castling `c`.
pub open spec fn castle_gap(c: u8, s: int) -> bool {
    if c == CASTLING_WKINGSIDE {
        s == 5 || s == 6
    } else if c == CASTLING_WQUEENSIDE {
        s == 1 || s == 2 || s == 3
    } else if c == CASTLING_BKINGSIDE {
        s == 61 || s == 62
    } else {
        s == 57 || s == 58 || s == 59
    }
}

/// The three squares the king stands on, passes and reaches in the castling `c`:
/// none of them may be attacked.
pub open spec fn castle_path(c: u8) -> (int, int, int) {
    if c == CASTLING_WKINGSIDE {
        (4, 5, 6)
    } else if c == CASTLING_WQUEENSIDE {
        (4, 3, 2)
    } else if c == CASTLING_BKINGSIDE {
        (60, 61, 62)
    } else {
        (60, 59, 58)
    }
}

/// The side that castles with the right `c`.
pub open spec fn right_color(c: u8) -> u8 {
    if c == CASTLING_WKINGSIDE || c == CASTLING_WQUEENSIDE {
        WHITE
    } else {
        BLACK
    }
}

/// The bitboard of the squares that must be empty for the castling `c`.
fn gap_mask(c: Castling) -> (r: u64)
    requires
        single_right(c),
    ensures
        forall|s: u64| s < 64 ==> (#[trigger] has_bit(r, s) <==> castle_gap(c, s as int)),
{
    proof {
        lemma_bit_consts();
    }
    if c == CASTLING_WKINGSIDE {
        proof {
            lemma_bit_ops(1u64 << 5u64, 1u64 << 6u64);
        }
        (1u64 << 5u64) | (1u64 << 6u64)
    } else if c == CASTLING_WQUEENSIDE {
        proof {
            lemma_bit_ops(1u64 << 3u64, 1u64 << 2u64);
            lemma_bit_ops((1u64 << 3u64) | (1u64 << 2u64), 1u64 << 1u64);
        }
        (1u64 << 3u64) | (1u64 << 2u64) | (1u64 << 1u64)
    } else if c == CASTLING_BKINGSIDE {
        proof {
            lemma_bit_ops(1u64 << 61u64, 1u64 << 62u64);
        }
        (1u64 << 61u64) | (1u64 << 62u64)
    } else {
        proof {
            lemma_bit_ops(1u64 << 59u64, 1u64 << 58u64);
            lemma_bit_ops((1u64 << 59u64) | (1u64 << 58u64), 1u64 << 57u64);
        }
        (1u64 << 59u64) | (1u64 << 58u64) | (1u64 << 57u64)
    }
}

/// A bitboard is empty exactly when it is zero.
proof fn lemma_zero_iff_empty(a: u64)
    ensures
        a == 0 <==> forall|i: u64| i < 64 ==> !#[trigger] has_bit(a, i),
{
    lemma_bit_consts();
    if forall|i: u64| i < 64 ==> !#[trigger] has_bit(a, i) {
        lemma_empty_is_zero(a);
    }
}

pub trait CastlingRightsTrait: Sized {
    /// The rights hold the right (or one of the rights) `castle`.
    spec fn holds(&self, castle: Castling) -> bool;

    fn val(&self) -> Castling;

    fn add(&mut self, castle: Castling);

    fn clear(&mut self, castle: Castling);

    fn all_set(&self) -> bool;

    fn is_set(&self, castle: Castling) -> bool;

    fn get_mask(&self, clr: Color) -> Castling
        requires
            clr < 2,
    ;

    fn long(&self, clr: Color) -> Castling
        requires
            clr < 2,
    ;

    fn short(&self, clr: Color) -> Castling
        requires
            clr < 2,
    ;

    fn sq_empty(&self, castling: Castling, own: u64, enemy: u64) -> bool
        requires
            single_right(castling),
    ;

    fn sq_att(&self, castle: Castling, board: &Board, own: u64, enemy: u64) -> bool
        requires
            single_right(castle),
    ;

    fn valid(&self, castle: Castling, board: &Board, own: u64, enemy: u64) -> bool
        requires
            single_right(castle) || !self.holds(castle),
    ;
}

impl CastlingRightsTrait for Castling {
    open spec fn holds(&self, castle: Castling) -> bool {
        cr_has(*self, castle)
    }

    /// The rights as a number.
    fn val(&self) -> (r: Castling)
        ensures
            r == *self,
    {
        *self
    }

    /// Adds the rights `castle`.
    fn add(&mut self, castle: Castling)
        ensures
            *final(self) == *old(self) | castle,
    {
        *self = *self | castle;
    }

    /// Removes the rights `castle`.
    fn clear(&mut self, castle: Castling)
        ensures
            *final(self) == *old(self) & !castle,
    {
        *self = *self & !castle;
    }

    /// All four rights are held.
    fn all_set(&self) -> (r: bool)
        ensures
            r == (*self == CASTLING_ALL),
    {
        *self == CASTLING_ALL
    }

    /// The right (or one of the rights) `castle` is held.
    fn is_set(&self, castle: Castling) -> (r: bool)
        ensures
            r == cr_has(*self, castle),
    {
        self.val() & castle.val() != 0
    }

    /// The rights of the side `clr` that are held.
    fn get_mask(&self, clr: Color) -> (r: Castling)
        ensures
            r == clr_castle_mask(clr) & *self,
    {
        let m: Castling = if clr == WHITE {
            CASTLING_WQUEENSIDE | CASTLING_WKINGSIDE
        } else {
            CASTLING_BQUEENSIDE | CASTLING_BKINGSIDE
        };
        assert(CASTLING_WQUEENSIDE | CASTLING_WKINGSIDE == 3) by (bit_vector);
        assert(CASTLING_BQUEENSIDE | CASTLING_BKINGSIDE == 12) by (bit_vector);
        m & self.val()
    }

    /// The long castling right of the side `clr`, if held.
    fn long(&self, clr: Color) -> (r: Castling)
        ensures
            r == clr_side_mask(clr, 1) & *self,
    {
        let m = if clr == WHITE {
            CASTLING_WQUEENSIDE
        } else {
            CASTLING_BQUEENSIDE
        };
        m & self.val()
    }

    /// The short castling right of the side `clr`, if held.
    fn short(&self, clr: Color) -> (r: Castling)
        ensures
            r == clr_side_mask(clr, 0) & *self,
    {
        let m = if clr == WHITE {
            CASTLING_WKINGSIDE
        } else {
            CASTLING_BKINGSIDE
        };
        m & self.val()
    }

    /// The squares between king and rook of the castling are empty.
    fn sq_empty(&self, castling: Castling, own: u64, enemy: u64) -> (r: bool)
        ensures
            r <==> forall|s: u64| s < 64 && castle_gap(castling, s as int) ==> !#[trigger] has_bit(own | enemy, s),
    {
        let occ = own | enemy;
        let m = gap_mask(castling);
        let resp = occ & m;
        proof {
            lemma_bit_ops(occ, m);
            lemma_zero_iff_empty(resp);
            if resp == 0 {
                assert forall|s: u64| s < 64 && castle_gap(castling, s as int) implies !#[trigger] has_bit(own | enemy, s) by {
                    assert(!has_bit(resp, s));
                    assert(has_bit(m, s));
                }
            } else {
                lemma_nonzero_has_bit(resp);
                let t = choose|t: u64| t < 64 && #[trigger] has_bit(resp, t);
                assert(has_bit(m, t) && has_bit(occ, t));
            }
        }
        resp == 0
    }

    /// One of the squares the king stands on, passes or reaches in the castling is attacked
    /// by the other side.
    fn sq_att(&self, castle: Castling, board: &Board, _own: u64, _enemy: u64) -> (r: bool)
        ensures
            r == (sq_attacked(board.bitboard, castle_path(castle).0, right_color(castle))
                || sq_attacked(board.bitboard, castle_path(castle).1, right_color(castle))
                || sq_attacked(board.bitboard, castle_path(castle).2, right_color(castle))),
    {
        let (a, b, c, clr): (usize, usize, usize, Color) = if castle == CASTLING_WKINGSIDE {
            (4, 5, 6, WHITE)
        } else if castle == CASTLING_WQUEENSIDE {
            (4, 3, 2, WHITE)
        } else if castle == CASTLING_BKINGSIDE {
            (60, 61, 62, BLACK)
        } else {
            (60, 59, 58, BLACK)
        };
        let x = board.sq_attack(a, clr);
        let y = board.sq_attack(b, clr);
        let z = board.sq_attack(c, clr);
        let resp = x | y | z;
        proof {
            assert(castle_path(castle) == (a as int, b as int, c as int));
            assert(right_color(castle) == clr);
            lemma_bit_ops(x, y);
            lemma_bit_ops(x | y, z);
            lemma_zero_iff_empty(resp);
            if resp != 0 {
                lemma_nonzero_has_bit(resp);
                let t = choose|t: u64| t < 64 && #[trigger] has_bit(resp, t);
                if has_bit(x, t) {
                    assert(attacker_of(board.bitboard, a as int, clr, t));
                    assert(sq_attacked(board.bitboard, a as int, clr));
                } else if has_bit(y, t) {
                    assert(attacker_of(board.bitboard, b as int, clr, t));
                    assert(sq_attacked(board.bitboard, b as int, clr));
                } else {
                    assert(attacker_of(board.bitboard, c as int, clr, t));
                    assert(sq_attacked(board.bitboard, c as int, clr));
                }
            } else {
                assert forall|t: u64| t < 64 implies !#[trigger] attacker_of(board.bitboard, a as int, clr, t) by {
                    assert(!has_bit(resp, t));
                }
                assert forall|t: u64| t < 64 implies !#[trigger] attacker_of(board.bitboard, b as int, clr, t) by {
                    assert(!has_bit(resp, t));
                }
                assert forall|t: u64| t < 64 implies !#[trigger] attacker_of(board.bitboard, c as int, clr, t) by {
                    assert(!has_bit(resp, t));
                }
                assert(!sq_attacked(board.bitboard, a as int, clr));
                assert(!sq_attacked(board.bitboard, b as int, clr));
                assert(!sq_attacked(board.bitboard, c as int, clr));
            }
        }
        resp != 0
    }

    /// The castling can be played: the right is held, the squares between king and rook
    /// are empty and the king passes no attacked square.
    fn valid(&self, castle: Castling, board: &Board, own: u64, enemy: u64) -> (r: bool)
        ensures
            r == (cr_has(*self, castle) && (forall|s: u64| s < 64 && castle_gap(castle, s as int) ==> !#[trigger] has_bit(own | enemy, s))
                && !(sq_attacked(board.bitboard, castle_path(castle).0, right_color(castle))
                || sq_attacked(board.bitboard, castle_path(castle).1, right_color(castle))
                || sq_attacked(board.bitboard, castle_path(castle).2, right_color(castle)))),
    {
        self.is_set(castle) && self.sq_empty(castle, own, enemy) && !self.sq_att(castle, board, own, enemy)
    }
}

} // verus!
