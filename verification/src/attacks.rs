use vstd::prelude::*;
use crate::bits::{has_bit, row_of, col_of, inside, set_bit, lemma_bit_consts, lemma_bit_ops, lemma_bit_shift, file_bitboard, rank_bitboard, BitboardTrait};
use crate::piece::{Color, WHITE, BLACK};


verus! {

/// The square at (row, col) is `t`, and (row, col) lies on the board.
pub open spec fn at(row: int, col: int, t: int) -> bool {
    inside(row, col) && t == row * 8 + col
}

pub proof fn lemma_at(row: int, col: int, t: int)
    requires
        0 <= t < 64,
    ensures
        at(row, col, t) <==> (row_of(t) == row && col_of(t) == col),
{
}

/// `t` is one king step away from (row, col).
pub open spec fn king_target(row: int, col: int, t: int) -> bool {
    let dr = row_of(t) - row;
    let dc = col_of(t) - col;
    &&& 0 <= t < 64
    &&& -1 <= dr <= 1
    &&& -1 <= dc <= 1
    &&& !(dr == 0 && dc == 0)
}

/// `t` is one knight jump away from (row, col).
pub open spec fn knight_target(row: int, col: int, t: int) -> bool {
    let dr = row_of(t) - row;
    let dc = col_of(t) - col;
    &&& 0 <= t < 64
    &&& (((dr == 1 || dr == -1) && (dc == 2 || dc == -2)) || ((dr == 2 || dr == -2) && (dc == 1
        || dc == -1)))
}

/// The squares one king step away from (row, col).
pub fn king_att_bitboard(row: i8, col: i8) -> (r: u64)
    requires
        -120 <= row <= 120,
        -120 <= col <= 120,
    ensures
        forall|t: u64| t < 64 ==> #[trigger] has_bit(r, t) == king_target(row as int, col as int, t as int),
{
    let mut bitboard: u64 = 0;
    proof {
        lemma_bit_consts();
    }
    bitboard = set_bit(bitboard, row - 1, col - 1);
    bitboard = set_bit(bitboard, row, col - 1);
    bitboard = set_bit(bitboard, row + 1, col - 1);
    bitboard = set_bit(bitboard, row - 1, col);
    bitboard = set_bit(bitboard, row + 1, col);
    bitboard = set_bit(bitboard, row - 1, col + 1);
    bitboard = set_bit(bitboard, row, col + 1);
    bitboard = set_bit(bitboard, row + 1, col + 1);
    bitboard
}

/// The squares one knight jump away from (row, col).
pub fn knight_att_bitboard(row: i8, col: i8) -> (r: u64)
    requires
        -120 <= row <= 120,
        -120 <= col <= 120,
    ensures
        forall|t: u64| t < 64 ==> #[trigger] has_bit(r, t) == knight_target(row as int, col as int, t as int),
{
    let mut bitboard: u64 = 0;
    proof {
        lemma_bit_consts();
    }
    bitboard = set_bit(bitboard, row - 2, col - 1);
    bitboard = set_bit(bitboard, row - 2, col + 1);
    bitboard = set_bit(bitboard, row - 1, col - 2);
    bitboard = set_bit(bitboard, row - 1, col + 2);
    bitboard = set_bit(bitboard, row + 2, col - 1);
    bitboard = set_bit(bitboard, row + 2, col + 1);
    bitboard = set_bit(bitboard, row + 1, col - 2);
    bitboard = set_bit(bitboard, row + 1, col + 2);
    bitboard
}

/// The squares one knight jump away from (row, col).
pub fn knight_attacks(row: i8, col: i8) -> (r: u64)
    requires
        -120 <= row <= 120,
        -120 <= col <= 120,
    ensures
        forall|t: u64| t < 64 ==> #[trigger] has_bit(r, t) == knight_target(row as int, col as int, t as int),
{
    knight_att_bitboard(row, col)
}

/// The squares one king step away from (row, col).
pub fn king_attacks(row: i8, col: i8) -> (r: u64)
    requires
        -120 <= row <= 120,
        -120 <= col <= 120,
    ensures
        forall|t: u64| t < 64 ==> #[trigger] has_bit(r, t) == king_target(row as int, col as int, t as int),
{
    let mut bitboard: u64 = 0;
    proof {
        lemma_bit_consts();
    }
    let mut row_offset: i8 = -1;
    while row_offset <= 1
        invariant
            -1 <= row_offset <= 2,
            -120 <= row <= 120,
            -120 <= col <= 120,
            forall|t: u64| t < 64 ==> #[trigger] has_bit(bitboard, t) == (king_target(row as int, col as int, t as int)
                && row_of(t as int) - row < row_offset),
        decreases 2 - row_offset,
    {
        let mut col_offset: i8 = -1;
        while col_offset <= 1
            invariant
                -1 <= row_offset <= 1,
                -1 <= col_offset <= 2,
                -120 <= row <= 120,
                -120 <= col <= 120,
                forall|t: u64| t < 64 ==> #[trigger] has_bit(bitboard, t) == (king_target(row as int, col as int, t as int)
                    && (row_of(t as int) - row < row_offset || (row_of(t as int) - row == row_offset
                    && col_of(t as int) - col < col_offset))),
            decreases 2 - col_offset,
        {
            if !(row_offset == 0 && col_offset == 0) {
                let nb = set_bit(bitboard, row + row_offset, col + col_offset);
                proof {
                    lemma_bit_ops(bitboard, nb);
                    assert forall|t: u64| t < 64 implies #[trigger] has_bit(nb, t) == (has_bit(bitboard, t)
                        || (row_of(t as int) == row + row_offset && col_of(t as int) == col + col_offset)) by {
                        lemma_at((row + row_offset) as int, (col + col_offset) as int, t as int);
                    }
                }
                bitboard = bitboard | nb;
            }
            col_offset = col_offset + 1;
        }
        row_offset = row_offset + 1;
    }
    bitboard
}


/// `d * k` for a direction component `d` in {-1, 0, 1}.
pub open spec fn mstep(d: int, k: int) -> int {
    if d > 0 {
        k
    } else if d < 0 {
        -k
    } else {
        0
    }
}

/// `t` is the square at distance `k` from (row, col) in the direction (dr, dc).
pub open spec fn ray_at(row: int, col: int, dr: int, dc: int, k: int, t: int) -> bool {
    at(row + mstep(dr, k), col + mstep(dc, k), t)
}

/// `t` lies on the ray from (row, col) in the direction (dr, dc).
pub open spec fn ray_target(row: int, col: int, dr: int, dc: int, t: int) -> bool {
    exists|k: int| 1 <= k < 8 && #[trigger] ray_at(row, col, dr, dc, k, t)
}

/// The ray square at distance `k`, as a square index.
pub open spec fn ray_sq(row: int, col: int, dr: int, dc: int, k: int) -> int {
    (row + mstep(dr, k)) * 8 + col + mstep(dc, k)
}

/// No square of `occ` lies on the ray before distance `k`.
pub open spec fn path_clear(row: int, col: int, dr: int, dc: int, occ: u64, k: int) -> bool {
    forall|j: int| 1 <= j < k ==> !#[trigger] has_bit(occ, ray_sq(row, col, dr, dc, j) as u64)
}

/// A sliding piece on (row, col) that moves in the direction (dr, dc) reaches `t`
/// when the board holds the pieces of `occ`: the first occupied square is reached, none beyond it.
pub open spec fn slide_target(row: int, col: int, dr: int, dc: int, occ: u64, t: int) -> bool {
    exists|k: int|
        1 <= k < 8 && #[trigger] ray_at(row, col, dr, dc, k, t) && path_clear(row, col, dr, dc, occ, k)
}

/// The eight directions of the board.
#[allow(non_camel_case_types)]
#[derive(Debug, PartialEq, Eq, Clone, Copy, Structural)]
pub enum Dir {
    NORTH,
    NORTHEAST,
    EAST,
    SOUTHEAST,
    SOUTH,
    SOUTHWEST,
    WEST,
    NORTHWEST,
}

pub const DIRECTIONS: [Dir; 8] = [
    Dir::NORTH,
    Dir::NORTHEAST,
    Dir::EAST,
    Dir::SOUTHEAST,
    Dir::SOUTH,
    Dir::SOUTHWEST,
    Dir::WEST,
    Dir::NORTHWEST,
];

/// Row step of a direction.
pub open spec fn dir_dr(d: Dir) -> int {
    match d {
        Dir::NORTH | Dir::NORTHEAST | Dir::NORTHWEST => 1,
        Dir::EAST | Dir::WEST => 0,
        _ => -1,
    }
}

/// Column step of a direction.
pub open spec fn dir_dc(d: Dir) -> int {
    match d {
        Dir::EAST | Dir::NORTHEAST | Dir::SOUTHEAST => 1,
        Dir::NORTH | Dir::SOUTH => 0,
        _ => -1,
    }
}

/// Index of a direction, in the order of `DIRECTIONS`.
pub open spec fn dir_index(d: Dir) -> int {
    match d {
        Dir::NORTH => 0,
        Dir::NORTHEAST => 1,
        Dir::EAST => 2,
        Dir::SOUTHEAST => 3,
        Dir::SOUTH => 4,
        Dir::SOUTHWEST => 5,
        Dir::WEST => 6,
        Dir::NORTHWEST => 7,
    }
}

impl Dir {
    /// The (row, col) step of the direction.
    pub fn dir_offset(&self) -> (r: (i8, i8))
        ensures
            r.0 == dir_dr(*self),
            r.1 == dir_dc(*self),
    {
        match self {
            Dir::NORTH => (1, 0),
            Dir::NORTHEAST => (1, 1),
            Dir::EAST => (0, 1),
            Dir::SOUTHEAST => (-1, 1),
            Dir::SOUTH => (-1, 0),
            Dir::SOUTHWEST => (-1, -1),
            Dir::WEST => (0, -1),
            Dir::NORTHWEST => (1, -1),
        }
    }

    /// Index of the direction, in the order of `DIRECTIONS`.
    pub fn idx(&self) -> (r: usize)
        ensures
            r == dir_index(*self),
    {
        match self {
            Dir::NORTH => 0,
            Dir::NORTHEAST => 1,
            Dir::EAST => 2,
            Dir::SOUTHEAST => 3,
            Dir::SOUTH => 4,
            Dir::SOUTHWEST => 5,
            Dir::WEST => 6,
            Dir::NORTHWEST => 7,
        }
    }

    /// The direction in which square indices grow.
    pub fn is_forward(&self) -> (r: bool)
        ensures
            r == (dir_dr(*self) * 8 + dir_dc(*self) > 0),
    {
        match self {
            Dir::NORTH | Dir::NORTHEAST | Dir::EAST | Dir::NORTHWEST => true,
            _ => false,
        }
    }

    /// A bishop direction.
    pub fn is_diagonal(&self) -> (r: bool)
        ensures
            r == (dir_dr(*self) != 0 && dir_dc(*self) != 0),
    {
        match self {
            Dir::NORTHEAST | Dir::SOUTHEAST | Dir::SOUTHWEST | Dir::NORTHWEST => true,
            _ => false,
        }
    }

    /// A rook direction.
    pub fn is_orthogonal(&self) -> (r: bool)
        ensures
            r == (dir_dr(*self) == 0 || dir_dc(*self) == 0),
    {
        match self {
            Dir::NORTH | Dir::EAST | Dir::SOUTH | Dir::WEST => true,
            _ => false,
        }
    }
}

/// All squares of the ray from (row, col) in the direction `dir`, to the board's edge.
pub fn rays_att_bitboard(dir: Dir, row: i8, col: i8) -> (r: u64)
    requires
        -100 <= row <= 100,
        -100 <= col <= 100,
    ensures
        forall|t: u64| t < 64 ==> #[trigger] has_bit(r, t) == ray_target(row as int, col as int, dir_dr(dir), dir_dc(dir), t as int),
{
    let mut bitboard: u64 = 0;
    let (row_offset, col_offset) = dir.dir_offset();
    let ghost dr = dir_dr(dir);
    let ghost dc = dir_dc(dir);
    proof {
        lemma_bit_consts();
    }
    let mut i: i8 = 1;
    while i < 8
        invariant
            1 <= i <= 8,
            -100 <= row <= 100,
            -100 <= col <= 100,
            row_offset == dr,
            col_offset == dc,
            -1 <= dr <= 1,
            -1 <= dc <= 1,
            forall|t: u64| t < 64 ==> #[trigger] has_bit(bitboard, t) == exists|k: int|
                1 <= k < i && #[trigger] ray_at(row as int, col as int, dr, dc, k, t as int),
        decreases 8 - i,
    {
        proof {
            assert(-8 <= row_offset * i <= 8) by (nonlinear_arith)
                requires -1 <= row_offset <= 1, 1 <= i <= 8;
            assert(-8 <= col_offset * i <= 8) by (nonlinear_arith)
                requires -1 <= col_offset <= 1, 1 <= i <= 8;
        }
        let nr = row + row_offset * i;
        let nc = col + col_offset * i;
        proof {
            assert(nr == row + mstep(dr, i as int)) by (nonlinear_arith)
                requires nr == row + row_offset * i, row_offset == dr, -1 <= dr <= 1;
            assert(nc == col + mstep(dc, i as int)) by (nonlinear_arith)
                requires nc == col + col_offset * i, col_offset == dc, -1 <= dc <= 1;
        }
        let ghost old_bb = bitboard;
        bitboard = set_bit(bitboard, nr, nc);
        proof {
            assert forall|t: u64| t < 64 implies #[trigger] has_bit(bitboard, t) == exists|k: int|
                1 <= k < i + 1 && #[trigger] ray_at(row as int, col as int, dr, dc, k, t as int) by {
                if has_bit(bitboard, t) {
                    if has_bit(old_bb, t) {
                        let k = choose|k: int| 1 <= k < i && #[trigger] ray_at(row as int, col as int, dr, dc, k, t as int);
                        assert(ray_at(row as int, col as int, dr, dc, k, t as int));
                    } else {
                        assert(ray_at(row as int, col as int, dr, dc, i as int, t as int));
                    }
                } else {
                    if exists|k: int| 1 <= k < i + 1 && #[trigger] ray_at(row as int, col as int, dr, dc, k, t as int) {
                        let k = choose|k: int| 1 <= k < i + 1 && #[trigger] ray_at(row as int, col as int, dr, dc, k, t as int);
                        if k < i {
                            assert(has_bit(old_bb, t));
                        }
                    }
                }
            }
        }
        i = i + 1;
    }
    bitboard
}


/// The squares that a sliding piece on `sq` reaches in the direction `dir` over the pieces of `occ`:
/// the ray up to and including its first occupied square.
pub fn slide_ray(sq: usize, occ: u64, dir: Dir) -> (r: u64)
    requires
        sq < 64,
    ensures
        forall|t: u64| t < 64 ==> #[trigger] has_bit(r, t) == slide_target(row_of(sq as int), col_of(sq as int), dir_dr(dir), dir_dc(dir), occ, t as int),
{
    let row = (sq / 8) as i8;
    let col = (sq % 8) as i8;
    let (row_offset, col_offset) = dir.dir_offset();
    let ghost dr = dir_dr(dir);
    let ghost dc = dir_dc(dir);
    let ghost grow = row as int;
    let ghost gcol = col as int;
    proof {
        lemma_bit_consts();
    }
    let mut bitboard: u64 = 0;
    let mut k: i8 = 0;
    let mut r: i8 = row;
    let mut c: i8 = col;
    let mut done = false;
    let mut blocked = false;
    while !done && k < 7
        invariant
            0 <= k <= 7,
            grow == row_of(sq as int),
            gcol == col_of(sq as int),
            row_offset == dr,
            col_offset == dc,
            -1 <= dr <= 1,
            -1 <= dc <= 1,
            r == grow + mstep(dr, k as int),
            c == gcol + mstep(dc, k as int),
            inside(r as int, c as int),
            !done ==> path_clear(grow, gcol, dr, dc, occ, k + 1),
            !done ==> !blocked,
            done && blocked ==> k >= 1 && has_bit(occ, ray_sq(grow, gcol, dr, dc, k as int) as u64)
                && path_clear(grow, gcol, dr, dc, occ, k as int),
            done && !blocked ==> path_clear(grow, gcol, dr, dc, occ, k + 1) && !inside(
                grow + mstep(dr, k + 1),
                gcol + mstep(dc, k + 1),
            ),
            forall|t: u64| t < 64 ==> #[trigger] has_bit(bitboard, t) == exists|j: int|
                1 <= j <= k && #[trigger] ray_at(grow, gcol, dr, dc, j, t as int),
        decreases 7 - k, (if done { 0int } else { 1int }),
    {
        let nr = r + row_offset;
        let nc = c + col_offset;
        if !(0 <= nr && nr < 8 && 0 <= nc && nc < 8) {
            done = true;
        } else {
            let s = (nr * 8 + nc) as u64;
            let ghost old_bb = bitboard;
            proof {
                assert(s == nr * 8 + nc);
                assert(s < 64);
                lemma_bit_consts();
                lemma_bit_ops(bitboard, 1u64 << s);
            }
            bitboard = bitboard | (1u64 << s);
            k = k + 1;
            r = nr;
            c = nc;
            proof {
                assert(r == grow + mstep(dr, k as int));
                assert(c == gcol + mstep(dc, k as int));
                assert(inside(grow + mstep(dr, k as int), gcol + mstep(dc, k as int)));
                assert(s == ray_sq(grow, gcol, dr, dc, k as int));
                assert forall|t: u64| t < 64 implies #[trigger] has_bit(bitboard, t) == exists|j: int|
                    1 <= j <= k && #[trigger] ray_at(grow, gcol, dr, dc, j, t as int) by {
                    if has_bit(bitboard, t) {
                        if has_bit(old_bb, t) {
                            let j = choose|j: int| 1 <= j <= k - 1 && #[trigger] ray_at(grow, gcol, dr, dc, j, t as int);
                            assert(ray_at(grow, gcol, dr, dc, j, t as int));
                        } else {
                            assert(has_bit(1u64 << s, t));
                            assert(t == s);
                            assert(ray_at(grow, gcol, dr, dc, k as int, t as int));
                        }
                    } else {
                        if exists|j: int| 1 <= j <= k && #[trigger] ray_at(grow, gcol, dr, dc, j, t as int) {
                            let j = choose|j: int| 1 <= j <= k && #[trigger] ray_at(grow, gcol, dr, dc, j, t as int);
                            if j < k {
                                assert(has_bit(old_bb, t));
                            }
                        }
                    }
                }
            }
            if (occ >> s) & 1 == 1 {
                done = true;
                blocked = true;
            }
        }
    }
    proof {
        assert forall|t: u64| t < 64 implies #[trigger] has_bit(bitboard, t) == slide_target(grow, gcol, dr, dc, occ, t as int) by {
            if has_bit(bitboard, t) {
                let j = choose|j: int| 1 <= j <= k && #[trigger] ray_at(grow, gcol, dr, dc, j, t as int);
                assert(path_clear(grow, gcol, dr, dc, occ, j));
            }
            if slide_target(grow, gcol, dr, dc, occ, t as int) {
                let j = choose|j: int| 1 <= j < 8 && #[trigger] ray_at(grow, gcol, dr, dc, j, t as int)
                    && path_clear(grow, gcol, dr, dc, occ, j);
                if j > k {
                    if blocked {
                        assert(!has_bit(occ, ray_sq(grow, gcol, dr, dc, k as int) as u64));
                    } else {
                        assert(inside(grow + mstep(dr, k + 1), gcol + mstep(dc, k + 1)));
                    }
                }
                assert(ray_at(grow, gcol, dr, dc, j, t as int));
            }
        }
    }
    bitboard
}

/// A bishop on `sq` reaches `t` over the pieces of `occ`.
pub open spec fn bishop_target(sq: int, occ: u64, t: int) -> bool {
    let row = row_of(sq);
    let col = col_of(sq);
    ||| slide_target(row, col, 1, 1, occ, t)
    ||| slide_target(row, col, -1, 1, occ, t)
    ||| slide_target(row, col, -1, -1, occ, t)
    ||| slide_target(row, col, 1, -1, occ, t)
}

/// A rook on `sq` reaches `t` over the pieces of `occ`.
pub open spec fn rook_target(sq: int, occ: u64, t: int) -> bool {
    let row = row_of(sq);
    let col = col_of(sq);
    ||| slide_target(row, col, 1, 0, occ, t)
    ||| slide_target(row, col, 0, 1, occ, t)
    ||| slide_target(row, col, -1, 0, occ, t)
    ||| slide_target(row, col, 0, -1, occ, t)
}

/// Squares a bishop on `sq` reaches over the pieces of `occ`.
pub fn bishop_attacks(sq: usize, occ: u64) -> (r: u64)
    requires
        sq < 64,
    ensures
        forall|t: u64| t < 64 ==> #[trigger] has_bit(r, t) == bishop_target(sq as int, occ, t as int),
{
    let a = slide_ray(sq, occ, Dir::NORTHEAST);
    let b = slide_ray(sq, occ, Dir::SOUTHEAST);
    let c = slide_ray(sq, occ, Dir::SOUTHWEST);
    let d = slide_ray(sq, occ, Dir::NORTHWEST);
    proof {
        lemma_bit_ops(a, b);
        lemma_bit_ops(a | b, c);
        lemma_bit_ops(a | b | c, d);
    }
    a | b | c | d
}

/// Squares a rook on `sq` reaches over the pieces of `occ`.
pub fn rook_attacks(sq: usize, occ: u64) -> (r: u64)
    requires
        sq < 64,
    ensures
        forall|t: u64| t < 64 ==> #[trigger] has_bit(r, t) == rook_target(sq as int, occ, t as int),
{
    let a = slide_ray(sq, occ, Dir::NORTH);
    let b = slide_ray(sq, occ, Dir::EAST);
    let c = slide_ray(sq, occ, Dir::SOUTH);
    let d = slide_ray(sq, occ, Dir::WEST);
    proof {
        lemma_bit_ops(a, b);
        lemma_bit_ops(a | b, c);
        lemma_bit_ops(a | b | c, d);
    }
    a | b | c | d
}


/// A queen on `sq` reaches `t` over the pieces of `occ`.
pub open spec fn queen_target(sq: int, occ: u64, t: int) -> bool {
    bishop_target(sq, occ, t) || rook_target(sq, occ, t)
}

/// Gets King moves considering other pieces on the board and excluding own pieces
pub fn get_king_mv(sq: usize, own: u64, _enemy: u64, _clr: Color) -> (r: u64)
    requires
        sq < 64,
    ensures
        forall|t: u64| t < 64 ==> #[trigger] has_bit(r, t) == (king_target(row_of(sq as int), col_of(sq as int), t as int) && !has_bit(own, t)),
{
    let m = get_king_mask(sq, own, _enemy, _clr);
    proof {
        lemma_bit_ops(m, !own);
        lemma_bit_ops(own, own);
    }
    m & !own
}

/// Gets only the mask of possible moves, ignoring other pieces on the board
pub fn get_king_mask(sq: usize, _own: u64, _enemy: u64, _clr: Color) -> (r: u64)
    requires
        sq < 64,
    ensures
        forall|t: u64| t < 64 ==> #[trigger] has_bit(r, t) == king_target(row_of(sq as int), col_of(sq as int), t as int),
{
    king_att_bitboard((sq / 8) as i8, (sq % 8) as i8)
}

/// Gets Knight moves considering other pieces on the board and excluding own pieces
pub fn get_knight_mv(sq: usize, own: u64, _enemy: u64, _clr: Color) -> (r: u64)
    requires
        sq < 64,
    ensures
        forall|t: u64| t < 64 ==> #[trigger] has_bit(r, t) == (knight_target(row_of(sq as int), col_of(sq as int), t as int) && !has_bit(own, t)),
{
    let m = get_knight_mask(sq, own, _enemy, _clr);
    proof {
        lemma_bit_ops(m, !own);
        lemma_bit_ops(own, own);
    }
    m & !own
}

/// Gets only the mask of possible moves, ignoring other pieces on the board
pub fn get_knight_mask(sq: usize, _own: u64, _enemy: u64, _clr: Color) -> (r: u64)
    requires
        sq < 64,
    ensures
        forall|t: u64| t < 64 ==> #[trigger] has_bit(r, t) == knight_target(row_of(sq as int), col_of(sq as int), t as int),
{
    knight_att_bitboard((sq / 8) as i8, (sq % 8) as i8)
}

/// Gets Bishop moves considering other pieces on the board
pub fn get_bishop_mask(sq: usize, own: u64, enemy: u64, _clr: Color) -> (r: u64)
    requires
        sq < 64,
    ensures
        forall|t: u64| t < 64 ==> #[trigger] has_bit(r, t) == bishop_target(sq as int, own | enemy, t as int),
{
    bishop_attacks(sq, own | enemy)
}

/// Gets Bishop moves considering other pieces on the board and excluding own pieces
pub fn get_bishop_mv(sq: usize, own: u64, enemy: u64, clr: Color) -> (r: u64)
    requires
        sq < 64,
    ensures
        forall|t: u64| t < 64 ==> #[trigger] has_bit(r, t) == (bishop_target(sq as int, own | enemy, t as int) && !has_bit(own, t)),
{
    let m = get_bishop_mask(sq, own, enemy, clr);
    proof {
        lemma_bit_ops(m, !own);
        lemma_bit_ops(own, own);
    }
    m & !own
}

/// Gets Rook moves considering other pieces on the board
pub fn get_rook_mask(sq: usize, own: u64, enemy: u64, _clr: Color) -> (r: u64)
    requires
        sq < 64,
    ensures
        forall|t: u64| t < 64 ==> #[trigger] has_bit(r, t) == rook_target(sq as int, own | enemy, t as int),
{
    rook_attacks(sq, own | enemy)
}

/// Gets Rook moves considering other pieces on the board and excluding own pieces
pub fn get_rook_mv(sq: usize, own: u64, enemy: u64, clr: Color) -> (r: u64)
    requires
        sq < 64,
    ensures
        forall|t: u64| t < 64 ==> #[trigger] has_bit(r, t) == (rook_target(sq as int, own | enemy, t as int) && !has_bit(own, t)),
{
    let m = get_rook_mask(sq, own, enemy, clr);
    proof {
        lemma_bit_ops(m, !own);
        lemma_bit_ops(own, own);
    }
    m & !own
}

/// Gets Queen moves considering other pieces on the board
pub fn get_queen_mask(sq: usize, own: u64, enemy: u64, color: Color) -> (r: u64)
    requires
        sq < 64,
    ensures
        forall|t: u64| t < 64 ==> #[trigger] has_bit(r, t) == queen_target(sq as int, own | enemy, t as int),
{
    let b = get_bishop_mask(sq, own, enemy, color);
    let k = get_rook_mask(sq, own, enemy, color);
    proof {
        lemma_bit_ops(b, k);
    }
    b | k
}

/// Gets Queen moves considering other pieces on the board and excluding own pieces
pub fn get_queen_mv(sq: usize, own: u64, enemy: u64, color: Color) -> (r: u64)
    requires
        sq < 64,
    ensures
        forall|t: u64| t < 64 ==> #[trigger] has_bit(r, t) == (queen_target(sq as int, own | enemy, t as int) && !has_bit(own, t)),
{
    let b = get_bishop_mv(sq, own, enemy, color);
    let k = get_rook_mv(sq, own, enemy, color);
    proof {
        lemma_bit_ops(b, k);
    }
    b | k
}

/// Squares of light color.
pub const WHITE_SQUARES: u64 = 0x55AA55AA55AA55AA;

/// Squares of dark color.
pub const BLACK_SQUARES: u64 = 0xAA55AA55AA55AA55;

/// Returns `true` if there is at least one bishop on a
/// white square and at least one bishop on a black square.
pub fn has_bishop_pair(bb: u64) -> (r: bool)
    ensures
        r == ((bb & WHITE_SQUARES) != 0 && (bb & BLACK_SQUARES) != 0),
{
    (bb & WHITE_SQUARES != 0) && (bb & BLACK_SQUARES != 0)
}

/// Forward row step of the pawns of a color.
pub open spec fn pawn_dir(c: u8) -> int {
    if c == WHITE {
        1
    } else {
        -1
    }
}

/// A pawn of color `c` on `sq` attacks `t`.
pub open spec fn pawn_att_target(c: u8, sq: int, t: int) -> bool {
    at(row_of(sq) + pawn_dir(c), col_of(sq) + 1, t) || at(row_of(sq) + pawn_dir(c), col_of(sq) - 1, t)
}

/// The start row of the pawns of a color.
pub open spec fn pawn_start_row(c: u8) -> int {
    if c == WHITE {
        1
    } else {
        6
    }
}

/// A pawn of color `c` on `sq` moves to `t` without capturing when the pieces of `occ` stand on the board.
pub open spec fn pawn_push_target(c: u8, sq: int, occ: u64, t: int) -> bool {
    let row = row_of(sq);
    let col = col_of(sq);
    let one = (row + pawn_dir(c)) * 8 + col;
    &&& row != 0 && row != 7
    &&& !has_bit(occ, t as u64)
    &&& (at(row + pawn_dir(c), col, t) || (row == pawn_start_row(c) && at(
        row + 2 * pawn_dir(c),
        col,
        t,
    ) && !has_bit(occ, one as u64)))
}

/// The squares a pawn of `color` on (row, col) may reach without capturing on an empty board.
pub fn forward_move(row: i8, col: i8, color: Color) -> (r: u64)
    requires
        -100 <= row <= 100,
        -100 <= col <= 100,
    ensures
        forall|t: u64| t < 64 ==> #[trigger] has_bit(r, t) == (row != 0 && row != 7 && (at(
            row + pawn_dir(color),
            col as int,
            t as int,
        ) || (row == pawn_start_row(color) && at(row + 2 * pawn_dir(color), col as int, t as int)))),
{
    proof {
        lemma_bit_consts();
    }
    if row == 0 || row == 7 {
        return 0;
    }
    let mut bitboard: u64 = 0;
    if color == WHITE {
        bitboard = set_bit(bitboard, row + 1, col);
        if row == 1 {
            bitboard = set_bit(bitboard, row + 2, col);
        }
    } else {
        bitboard = set_bit(bitboard, row - 1, col);
        if row == 6 {
            bitboard = set_bit(bitboard, row - 2, col);
        }
    }
    bitboard
}

/// The squares a pawn of `color` on (row, col) attacks; nothing from the first and last rows.
pub fn diagonal_move(row: i8, col: i8, color: Color) -> (r: u64)
    requires
        -100 <= row <= 100,
        -100 <= col <= 100,
    ensures
        forall|t: u64| t < 64 ==> #[trigger] has_bit(r, t) == (row != 0 && row != 7 && (at(
            row + pawn_dir(color),
            col + 1,
            t as int,
        ) || at(row + pawn_dir(color), col - 1, t as int))),
{
    proof {
        lemma_bit_consts();
    }
    if row == 0 || row == 7 {
        return 0;
    }
    let mut bitboard: u64 = 0;
    if color == WHITE {
        bitboard = set_bit(bitboard, row + 1, col + 1);
        bitboard = set_bit(bitboard, row + 1, col - 1);
    } else {
        bitboard = set_bit(bitboard, row - 1, col + 1);
        bitboard = set_bit(bitboard, row - 1, col - 1);
    }
    bitboard
}

/// The squares a pawn of `color` on `sq` attacks, whatever stands on them.
pub fn get_pawn_att_mask(sq: usize, _own: u64, _enemy: u64, color: Color) -> (r: u64)
    requires
        sq < 64,
    ensures
        forall|t: u64| t < 64 ==> #[trigger] has_bit(r, t) == pawn_att_target(color, sq as int, t as int),
{
    proof {
        lemma_bit_consts();
    }
    let row = (sq / 8) as i8;
    let col = (sq % 8) as i8;
    let mut bitboard: u64 = 0;
    if color == WHITE {
        bitboard = set_bit(bitboard, row + 1, col + 1);
        bitboard = set_bit(bitboard, row + 1, col - 1);
    } else {
        bitboard = set_bit(bitboard, row - 1, col + 1);
        bitboard = set_bit(bitboard, row - 1, col - 1);
    }
    bitboard
}

/// The en passant target square `ep` as a bitboard, when it lies on the rank where
/// a pawn of `color` may capture en passant; the empty bitboard otherwise.
pub fn get_pawn_ep(color: Color, ep: u8) -> (r: u64)
    requires
        ep < 64,
    ensures
        forall|t: u64| t < 64 ==> #[trigger] has_bit(r, t) == (t == ep && ((ep / 8 == 5 && color == WHITE) || (ep / 8 == 2 && color == BLACK))),
{
    proof {
        lemma_bit_consts();
    }
    let rank_ep = ep / 8;
    if (rank_ep == 5 && color == WHITE) || (rank_ep == 2 && color == BLACK) {
        1u64 << ep as u64
    } else {
        0
    }
}

/// Squares a pawn of `color` on `sq` captures on: enemy pieces it attacks and,
/// when `ep` is given, the en passant square.
pub fn get_pawn_att(color: Color, sq: usize, own: u64, enemy: u64, ep: Option<u8>) -> (r: u64)
    requires
        sq < 64,
        ep.is_some() ==> ep.unwrap() < 64,
    ensures
        forall|t: u64| t < 64 ==> #[trigger] has_bit(r, t) == (pawn_att_target(color, sq as int, t as int) && !has_bit(own, t) && (has_bit(enemy, t) || (ep.is_some() && t == ep.unwrap() && ((ep.unwrap() / 8 == 5 && color == WHITE) || (ep.unwrap() / 8 == 2 && color == BLACK))))),
{
    let m = get_pawn_att_mask(sq, own, enemy, color);
    let attacks = m & !own;
    proof {
        lemma_bit_ops(m, !own);
        lemma_bit_ops(own, own);
    }
    match ep {
        Some(e) => {
            let epb = get_pawn_ep(color, e);
            proof {
                lemma_bit_ops(enemy, epb);
                lemma_bit_ops(attacks, enemy | epb);
            }
            attacks & (enemy | epb)
        },
        None => {
            proof {
                lemma_bit_ops(attacks, enemy);
            }
            attacks & enemy
        },
    }
}

/// Squares a pawn of `color` on `sq` moves to without capturing: one step forward when that
/// square is empty, and two from the start row when both squares are empty.
pub fn get_pawn_mv(color: Color, sq: usize, own: u64, enemy: u64) -> (r: u64)
    requires
        sq < 64,
    ensures
        forall|t: u64| t < 64 ==> #[trigger] has_bit(r, t) == pawn_push_target(color, sq as int, own | enemy, t as int),
{
    let row = (sq / 8) as i8;
    let col = (sq % 8) as i8;
    let lookup = forward_move(row, col, color);
    let occ = own | enemy;
    let moves = lookup & !occ;
    proof {
        lemma_bit_ops(lookup, !occ);
        lemma_bit_ops(occ, occ);
        lemma_bit_consts();
    }
    let bit = if color == WHITE {
        lookup.get_lsb()
    } else {
        lookup.get_msb()
    };
    let ghost one = (row + pawn_dir(color)) * 8 + col;
    proof {
        if lookup != 0 {
            assert(has_bit(lookup, one as u64));
            assert(bit == one);
        }
    }
    if moves.is_set(bit) {
        moves
    } else {
        proof {
            assert forall|t: u64| t < 64 implies !#[trigger] pawn_push_target(color, sq as int, occ, t as int) by {
                if pawn_push_target(color, sq as int, occ, t as int) {
                    assert(has_bit(lookup, t));
                    assert(lookup != 0);
                    assert(has_bit(occ, one as u64));
                }
            }
        }
        0
    }
}

/// A slide from one square to another is a slide back along the opposite direction, over
/// the same squares.
pub proof fn lemma_slide_sym(row: int, col: int, dr: int, dc: int, occ: u64, t: int)
    requires
        -1 <= dr <= 1,
        -1 <= dc <= 1,
        inside(row, col),
        slide_target(row, col, dr, dc, occ, t),
    ensures
        slide_target(row_of(t), col_of(t), -dr, -dc, occ, row * 8 + col),
{
    let k = choose|k: int| 1 <= k < 8 && #[trigger] ray_at(row, col, dr, dc, k, t) && path_clear(row, col, dr, dc, occ, k);
    let tr = row_of(t);
    let tc = col_of(t);
    assert(tr == row + mstep(dr, k) && tc == col + mstep(dc, k));
    assert(ray_at(tr, tc, -dr, -dc, k, row * 8 + col));
    assert forall|j: int| 1 <= j < k implies !#[trigger] has_bit(occ, ray_sq(tr, tc, -dr, -dc, j) as u64) by {
        assert(ray_sq(tr, tc, -dr, -dc, j) == ray_sq(row, col, dr, dc, k - j));
        assert(!has_bit(occ, ray_sq(row, col, dr, dc, k - j) as u64));
    }
}

/// A bishop move read backwards is a bishop move.
pub proof fn lemma_bishop_sym(sq: int, occ: u64, t: int)
    requires
        0 <= sq < 64,
        bishop_target(sq, occ, t),
    ensures
        bishop_target(t, occ, sq),
{
    let row = row_of(sq);
    let col = col_of(sq);
    if slide_target(row, col, 1, 1, occ, t) {
        lemma_slide_sym(row, col, 1, 1, occ, t);
    } else if slide_target(row, col, -1, 1, occ, t) {
        lemma_slide_sym(row, col, -1, 1, occ, t);
    } else if slide_target(row, col, -1, -1, occ, t) {
        lemma_slide_sym(row, col, -1, -1, occ, t);
    } else {
        lemma_slide_sym(row, col, 1, -1, occ, t);
    }
}

/// A rook move read backwards is a rook move.
pub proof fn lemma_rook_sym(sq: int, occ: u64, t: int)
    requires
        0 <= sq < 64,
        rook_target(sq, occ, t),
    ensures
        rook_target(t, occ, sq),
{
    let row = row_of(sq);
    let col = col_of(sq);
    if slide_target(row, col, 1, 0, occ, t) {
        lemma_slide_sym(row, col, 1, 0, occ, t);
    } else if slide_target(row, col, 0, 1, occ, t) {
        lemma_slide_sym(row, col, 0, 1, occ, t);
    } else if slide_target(row, col, -1, 0, occ, t) {
        lemma_slide_sym(row, col, -1, 0, occ, t);
    } else {
        lemma_slide_sym(row, col, 0, -1, occ, t);
    }
}

/// Knight jumps, king steps and pawn captures read backwards.
pub proof fn lemma_step_sym(sq: int, t: int, c: u8)
    requires
        0 <= sq < 64,
        0 <= t < 64,
        c < 2,
    ensures
        knight_target(row_of(sq), col_of(sq), t) ==> knight_target(row_of(t), col_of(t), sq),
        king_target(row_of(sq), col_of(sq), t) ==> king_target(row_of(t), col_of(t), sq),
        pawn_att_target(c, sq, t) ==> pawn_att_target((1 - c) as u8, t, sq),
{
}

/// `t` is the square one step ahead, for the side `c`, of a pawn of `pawns`.
pub open spec fn all_forward_target(pawns: u64, c: u8, t: int) -> bool {
    if c == WHITE {
        t >= 8 && has_bit(pawns, (t - 8) as u64)
    } else {
        t + 8 < 64 && has_bit(pawns, (t + 8) as u64)
    }
}

/// `t` is attacked, toward the a-file, by a pawn of `pawns` of the side `c`.
pub open spec fn all_left_target(pawns: u64, c: u8, t: int) -> bool {
    t % 8 != 7 && if c == WHITE {
        t >= 8 && has_bit(pawns, (t - 7) as u64)
    } else {
        t + 9 < 64 && has_bit(pawns, (t + 9) as u64)
    }
}

/// `t` is attacked, toward the h-file, by a pawn of `pawns` of the side `c`.
pub open spec fn all_right_target(pawns: u64, c: u8, t: int) -> bool {
    t % 8 != 0 && if c == WHITE {
        t >= 9 && has_bit(pawns, (t - 9) as u64)
    } else {
        t + 7 < 64 && has_bit(pawns, (t + 7) as u64)
    }
}

/// The squares one step ahead of the pawns `pawns` of the side `color`.
pub fn get_all_pawn_forward_mask(pawns: u64, color: Color) -> (r: u64)
    requires
        color < 2,
    ensures
        forall|t: u64| t < 64 ==> #[trigger] has_bit(r, t) == all_forward_target(pawns, color, t as int),
{
    if color == WHITE {
        proof {
            lemma_bit_shift(pawns, 8);
        }
        pawns << 8u64
    } else {
        proof {
            lemma_bit_shift(pawns, 8);
        }
        pawns >> 8u64
    }
}

/// The squares the pawns `pawns` of the side `color` attack toward the a-file.
pub fn get_all_pawn_left_att_mask(pawns: u64, color: Color) -> (r: u64)
    requires
        color < 2,
    ensures
        forall|t: u64| t < 64 ==> #[trigger] has_bit(r, t) == all_left_target(pawns, color, t as int),
{
    let fa = file_bitboard(0);
    let x = pawns & !fa;
    proof {
        lemma_bit_ops(pawns, !fa);
        lemma_bit_ops(fa, 0);
    }
    if color == WHITE {
        proof {
            lemma_bit_shift(x, 7);
        }
        x << 7u64
    } else {
        proof {
            lemma_bit_shift(x, 9);
        }
        x >> 9u64
    }
}

/// The squares the pawns `pawns` of the side `color` attack toward the h-file.
pub fn get_all_pawn_right_att_mask(pawns: u64, color: Color) -> (r: u64)
    requires
        color < 2,
    ensures
        forall|t: u64| t < 64 ==> #[trigger] has_bit(r, t) == all_right_target(pawns, color, t as int),
{
    let fh = file_bitboard(7);
    let x = pawns & !fh;
    proof {
        lemma_bit_ops(pawns, !fh);
        lemma_bit_ops(fh, 0);
    }
    if color == WHITE {
        proof {
            lemma_bit_shift(x, 9);
        }
        x << 9u64
    } else {
        proof {
            lemma_bit_shift(x, 7);
        }
        x >> 7u64
    }
}

/// `t` lies ahead of `s` for a pawn of `c`: on a higher row for white, a lower one for black.
pub open spec fn ahead(c: u8, s: int, t: int) -> bool {
    if c == WHITE {
        row_of(t) > row_of(s)
    } else {
        row_of(t) < row_of(s)
    }
}

/// The squares ahead of a pawn of `c` on `s` on its own file.
pub open spec fn forward_span_target(c: u8, s: int, t: int) -> bool {
    col_of(t) == col_of(s) && ahead(c, s, t)
}

/// The squares ahead of a pawn of `c` on `s` on the files next to its own.
pub open spec fn forward_lr_target(c: u8, s: int, t: int) -> bool {
    (col_of(t) == col_of(s) + 1 || col_of(t) == col_of(s) - 1) && ahead(c, s, t)
}

/// The squares ahead of a pawn of `color` on `sq`, on its own file.
pub fn pawn_forward_span(color: Color, sq: usize) -> (r: u64)
    requires
        sq < 64,
    ensures
        forall|t: u64| t < 64 ==> #[trigger] has_bit(r, t) == forward_span_target(color, sq as int, t as int),
{
    let row = (sq / 8) as i8;
    let col = (sq % 8) as i8;
    let dir: i8 = if color == WHITE { 1 } else { -1 };
    let mut r: u64 = 0;
    let mut k: i8 = 1;
    proof {
        lemma_bit_consts();
    }
    while k < 8
        invariant
            1 <= k <= 8,
            sq < 64,
            0 <= row < 8,
            0 <= col < 8,
            row == row_of(sq as int),
            col == col_of(sq as int),
            dir == (if color == WHITE { 1int } else { -1int }),
            forall|t: u64| t < 64 ==> #[trigger] has_bit(r, t) == (col_of(t as int) == col && if color == WHITE {
                row < row_of(t as int) < row + k
            } else {
                row - k < row_of(t as int) < row
            }),
        decreases 8 - k,
    {
        let nr = row + dir * k;
        let r0 = r;
        r = set_bit(r0, nr, col);
        proof {
            assert forall|t: u64| t < 64 implies #[trigger] has_bit(r, t) == (col_of(t as int) == col && if color == WHITE {
                row < row_of(t as int) < row + k + 1
            } else {
                row - k - 1 < row_of(t as int) < row
            }) by {
                assert(has_bit(r, t) == (has_bit(r0, t) || (inside(nr as int, col as int) && t == nr * 8 + col)));
            }
        }
        k = k + 1;
    }
    r
}

/// The squares ahead of a pawn of `color` on `sq`, on the files next to its own.
pub fn forward_spans_lr(color: Color, sq: usize) -> (r: u64)
    requires
        sq < 64,
    ensures
        forall|t: u64| t < 64 ==> #[trigger] has_bit(r, t) == forward_lr_target(color, sq as int, t as int),
{
    let row = (sq / 8) as i8;
    let col = (sq % 8) as i8;
    let dir: i8 = if color == WHITE { 1 } else { -1 };
    let mut r: u64 = 0;
    let mut k: i8 = 1;
    proof {
        lemma_bit_consts();
    }
    while k < 8
        invariant
            1 <= k <= 8,
            sq < 64,
            0 <= row < 8,
            0 <= col < 8,
            row == row_of(sq as int),
            col == col_of(sq as int),
            dir == (if color == WHITE { 1int } else { -1int }),
            forall|t: u64| t < 64 ==> #[trigger] has_bit(r, t) == ((col_of(t as int) == col + 1 || col_of(t as int) == col - 1) && if color == WHITE {
                row < row_of(t as int) < row + k
            } else {
                row - k < row_of(t as int) < row
            }),
        decreases 8 - k,
    {
        let nr = row + dir * k;
        let r0 = r;
        let r1 = set_bit(r0, nr, col + 1);
        r = set_bit(r1, nr, col - 1);
        proof {
            assert forall|t: u64| t < 64 implies #[trigger] has_bit(r, t) == ((col_of(t as int) == col + 1 || col_of(t as int) == col - 1) && if color == WHITE {
                row < row_of(t as int) < row + k + 1
            } else {
                row - k - 1 < row_of(t as int) < row
            }) by {
                assert(has_bit(r1, t) == (has_bit(r0, t) || (inside(nr as int, col + 1) && t == nr * 8 + col + 1)));
                assert(has_bit(r, t) == (has_bit(r1, t) || (inside(nr as int, col - 1) && t == nr * 8 + col - 1)));
            }
        }
        k = k + 1;
    }
    r
}

} // verus!
