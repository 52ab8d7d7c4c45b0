use vstd::prelude::*;
use crate::attacks::{rook_target, bishop_target, Dir, DIRECTIONS, dir_dr, dir_dc, dir_index, ray_target, ray_at, ray_sq, path_clear, slide_target, mstep, king_target, knight_target, at, lemma_at, pawn_dir, king_att_bitboard, knight_att_bitboard, king_attacks, knight_attacks, rays_att_bitboard, forward_move, diagonal_move};
use crate::bits::{has_bit, row_of, col_of, inside, lemma_bit_ops, lemma_bit_consts, file_bitboard, rank_bitboard, bit_scan_lsb, bit_scan_msb, count_bits, BitboardTrait};
use crate::piece::{Color, WHITE, BLACK};

verus! {

/// The squares a pawn of `c` on `s` may reach without capturing on an empty board; none
/// from the first and last rows.
pub open spec fn forward_target(c: u8, s: int, t: int) -> bool {
    let row = row_of(s);
    let col = col_of(s);
    row != 0 && row != 7 && (at(row + pawn_dir(c), col, t) || (row == (if c == WHITE {
        1int
    } else {
        6int
    }) && at(row + 2 * pawn_dir(c), col, t)))
}

/// The squares a pawn of `c` on `s` attacks; none from the first and last rows.
pub open spec fn diagonal_target(c: u8, s: int, t: int) -> bool {
    let row = row_of(s);
    let col = col_of(s);
    row != 0 && row != 7 && (at(row + pawn_dir(c), col + 1, t) || at(row + pawn_dir(c), col - 1, t))
}

/// The four tables of pawn moves, by square: pushes and attacks of each side.
pub struct PawnAttacks {
    pub white_forward_moves: Vec<u64>,
    pub white_diagonal_moves: Vec<u64>,
    pub black_forward_moves: Vec<u64>,
    pub black_diagonal_moves: Vec<u64>,
}

/// The table holds, for each square, the squares of `f` from it.
pub open spec fn table_of(v: Seq<u64>, f: spec_fn(int, int) -> bool) -> bool {
    &&& v.len() == 64
    &&& forall|s: int, t: u64| 0 <= s < 64 && t < 64 ==> (#[trigger] has_bit(v[s], t) <==> f(s, t as int))
}

impl PawnAttacks {
    /// The pawn tables of both sides.
    pub fn init() -> (r: Self)
        ensures
            table_of(r.white_forward_moves@, |s: int, t: int| forward_target(WHITE, s, t)),
            table_of(r.white_diagonal_moves@, |s: int, t: int| diagonal_target(WHITE, s, t)),
            table_of(r.black_forward_moves@, |s: int, t: int| forward_target(BLACK, s, t)),
            table_of(r.black_diagonal_moves@, |s: int, t: int| diagonal_target(BLACK, s, t)),
    {
        let mut w_forward: Vec<u64> = Vec::new();
        let mut w_diagonal: Vec<u64> = Vec::new();
        let mut b_forward: Vec<u64> = Vec::new();
        let mut b_diagonal: Vec<u64> = Vec::new();
        let mut row: i8 = 0;
        while row < 8
            invariant
                0 <= row <= 8,
                w_forward@.len() == row * 8,
                w_diagonal@.len() == row * 8,
                b_forward@.len() == row * 8,
                b_diagonal@.len() == row * 8,
                forall|s: int, t: u64| 0 <= s < row * 8 && t < 64 ==> (#[trigger] has_bit(w_forward@[s], t) <==> forward_target(WHITE, s, t as int)),
                forall|s: int, t: u64| 0 <= s < row * 8 && t < 64 ==> (#[trigger] has_bit(w_diagonal@[s], t) <==> diagonal_target(WHITE, s, t as int)),
                forall|s: int, t: u64| 0 <= s < row * 8 && t < 64 ==> (#[trigger] has_bit(b_forward@[s], t) <==> forward_target(BLACK, s, t as int)),
                forall|s: int, t: u64| 0 <= s < row * 8 && t < 64 ==> (#[trigger] has_bit(b_diagonal@[s], t) <==> diagonal_target(BLACK, s, t as int)),
            decreases 8 - row,
        {
            let mut col: i8 = 0;
            while col < 8
                invariant
                    0 <= row < 8,
                    0 <= col <= 8,
                    w_forward@.len() == row * 8 + col,
                    w_diagonal@.len() == row * 8 + col,
                    b_forward@.len() == row * 8 + col,
                    b_diagonal@.len() == row * 8 + col,
                    forall|s: int, t: u64| 0 <= s < row * 8 + col && t < 64 ==> (#[trigger] has_bit(w_forward@[s], t) <==> forward_target(WHITE, s, t as int)),
                    forall|s: int, t: u64| 0 <= s < row * 8 + col && t < 64 ==> (#[trigger] has_bit(w_diagonal@[s], t) <==> diagonal_target(WHITE, s, t as int)),
                    forall|s: int, t: u64| 0 <= s < row * 8 + col && t < 64 ==> (#[trigger] has_bit(b_forward@[s], t) <==> forward_target(BLACK, s, t as int)),
                    forall|s: int, t: u64| 0 <= s < row * 8 + col && t < 64 ==> (#[trigger] has_bit(b_diagonal@[s], t) <==> diagonal_target(BLACK, s, t as int)),
                decreases 8 - col,
            {
                let ghost s = row * 8 + col;
                proof {
                    assert(row_of(s as int) == row && col_of(s as int) == col);
                }
                w_forward.push(forward_move(row, col, WHITE));
                w_diagonal.push(diagonal_move(row, col, WHITE));
                b_forward.push(forward_move(row, col, BLACK));
                b_diagonal.push(diagonal_move(row, col, BLACK));
                col = col + 1;
            }
            row = row + 1;
        }
        PawnAttacks {
            white_forward_moves: w_forward,
            white_diagonal_moves: w_diagonal,
            black_forward_moves: b_forward,
            black_diagonal_moves: b_diagonal,
        }
    }
}

/// The table of king steps, by square.
pub struct KingAttacks {
    pub king_attacks: Vec<u64>,
}

impl KingAttacks {
    /// The squares a king steps to from each square.
    pub fn init() -> (r: Self)
        ensures
            table_of(r.king_attacks@, |s: int, t: int| king_target(row_of(s), col_of(s), t)),
    {
        let mut v: Vec<u64> = Vec::new();
        let mut s: usize = 0;
        while s < 64
            invariant
                s <= 64,
                v@.len() == s,
                forall|q: int, t: u64| 0 <= q < s && t < 64 ==> (#[trigger] has_bit(v@[q], t) <==> king_target(row_of(q), col_of(q), t as int)),
            decreases 64 - s,
        {
            v.push(king_attacks((s / 8) as i8, (s % 8) as i8));
            s = s + 1;
        }
        KingAttacks { king_attacks: v }
    }
}

/// The table of knight jumps, by square.
pub struct KnightAttacks {
    pub knight_attacks: Vec<u64>,
}

impl KnightAttacks {
    /// The squares a knight jumps to from each square.
    pub fn init() -> (r: Self)
        ensures
            table_of(r.knight_attacks@, |s: int, t: int| knight_target(row_of(s), col_of(s), t)),
    {
        let mut v: Vec<u64> = Vec::new();
        let mut s: usize = 0;
        while s < 64
            invariant
                s <= 64,
                v@.len() == s,
                forall|q: int, t: u64| 0 <= q < s && t < 64 ==> (#[trigger] has_bit(v@[q], t) <==> knight_target(row_of(q), col_of(q), t as int)),
            decreases 64 - s,
        {
            v.push(knight_attacks((s / 8) as i8, (s % 8) as i8));
            s = s + 1;
        }
        KnightAttacks { knight_attacks: v }
    }
}

/// The table of rays of the eight directions, by direction index and square.
pub struct Rays {
    pub rays: [[u64; 64]; 8],
}

/// The ray tables hold, for each direction and square, the squares of the ray.
pub open spec fn rays_ok(r: [[u64; 64]; 8]) -> bool {
    forall|d: int, s: int, t: u64| 0 <= d < 8 && 0 <= s < 64 && t < 64 ==> (#[trigger] has_bit(r[d][s], t) <==> ray_target(
        row_of(s),
        col_of(s),
        dir_dr(DIRECTIONS@[d]),
        dir_dc(DIRECTIONS@[d]),
        t as int,
    ))
}

/// The rays of the eight directions from every square.
pub fn ray_init() -> (r: [[u64; 64]; 8])
    ensures
        rays_ok(r),
{
    let mut rays = [[0u64; 64]; 8];
    let mut d: usize = 0;
    while d < 8
        invariant
            d <= 8,
            forall|e: int, s: int, t: u64| 0 <= e < d && 0 <= s < 64 && t < 64 ==> (#[trigger] has_bit(rays[e][s], t) <==> ray_target(
                row_of(s),
                col_of(s),
                dir_dr(DIRECTIONS@[e]),
                dir_dc(DIRECTIONS@[e]),
                t as int,
            )),
        decreases 8 - d,
    {
        let dir = DIRECTIONS[d];
        let mut row_arr = [0u64; 64];
        let mut s: usize = 0;
        while s < 64
            invariant
                d < 8,
                s <= 64,
                dir == DIRECTIONS@[d as int],
                forall|q: int, t: u64| 0 <= q < s && t < 64 ==> (#[trigger] has_bit(row_arr[q], t) <==> ray_target(
                    row_of(q),
                    col_of(q),
                    dir_dr(dir),
                    dir_dc(dir),
                    t as int,
                )),
            decreases 64 - s,
        {
            row_arr[s] = rays_att_bitboard(dir, (s / 8) as i8, (s % 8) as i8);
            s = s + 1;
        }
        rays[d] = row_arr;
        d = d + 1;
    }
    rays
}

/// All tables of piece moves.
pub struct Attacks {
    pub king: [u64; 64],
    pub knight: [u64; 64],
    pub pawn: PawnAttacks,
    pub rays: [[u64; 64]; 8],
}

impl Attacks {
    /// The king, knight, pawn and ray tables.
    pub fn init() -> (r: Self)
        ensures
            forall|s: int, t: u64| 0 <= s < 64 && t < 64 ==> (#[trigger] has_bit(r.king[s], t) <==> king_target(row_of(s), col_of(s), t as int)),
            forall|s: int, t: u64| 0 <= s < 64 && t < 64 ==> (#[trigger] has_bit(r.knight[s], t) <==> knight_target(row_of(s), col_of(s), t as int)),
            table_of(r.pawn.white_forward_moves@, |s: int, t: int| forward_target(WHITE, s, t)),
            table_of(r.pawn.white_diagonal_moves@, |s: int, t: int| diagonal_target(WHITE, s, t)),
            table_of(r.pawn.black_forward_moves@, |s: int, t: int| forward_target(BLACK, s, t)),
            table_of(r.pawn.black_diagonal_moves@, |s: int, t: int| diagonal_target(BLACK, s, t)),
            rays_ok(r.rays),
    {
        let mut king = [0u64; 64];
        let mut knight = [0u64; 64];
        let mut s: usize = 0;
        while s < 64
            invariant
                s <= 64,
                forall|q: int, t: u64| 0 <= q < s && t < 64 ==> (#[trigger] has_bit(king[q], t) <==> king_target(row_of(q), col_of(q), t as int)),
                forall|q: int, t: u64| 0 <= q < s && t < 64 ==> (#[trigger] has_bit(knight[q], t) <==> knight_target(row_of(q), col_of(q), t as int)),
            decreases 64 - s,
        {
            king[s] = king_att_bitboard((s / 8) as i8, (s % 8) as i8);
            knight[s] = knight_att_bitboard((s / 8) as i8, (s % 8) as i8);
            s = s + 1;
        }
        Attacks { king, knight, pawn: PawnAttacks::init(), rays: ray_init() }
    }
}

/// The nearest square of `bitboard` met when walking in direction `dir`, from the low
/// squares up when the direction is forward, from the high ones down otherwise; `None` for
/// the empty bitboard.
pub fn first_hit(dir: Dir, bitboard: u64) -> (r: Option<usize>)
    ensures
        bitboard == 0 ==> r is None,
        bitboard != 0 && dir_dr(dir) * 8 + dir_dc(dir) > 0 ==> r is Some && r->0 < 64 && has_bit(bitboard, r->0 as u64) && forall|j: u64| j < r->0 ==> !#[trigger] has_bit(bitboard, j),
        bitboard != 0 && dir_dr(dir) * 8 + dir_dc(dir) <= 0 ==> r is Some && r->0 < 64 && has_bit(bitboard, r->0 as u64) && forall|j: u64| r->0 < j < 64 ==> !#[trigger] has_bit(bitboard, j),
{
    if bitboard == 0 {
        None
    } else if dir.is_forward() {
        Some(bit_scan_lsb(bitboard))
    } else {
        Some(bit_scan_msb(bitboard))
    }
}

/// The direction goes up the board: its squares have growing indices.
pub open spec fn ray_forward(dir: Dir) -> bool {
    dir_dr(dir) * 8 + dir_dc(dir) > 0
}

/// The ray `ray` cut at the first pieces it meets, met from the low squares up when `fwd`
/// holds and from the high ones down otherwise: a piece of `own` and the squares beyond it
/// are removed, as are the squares beyond a piece of `enemy`, `ray_family` giving the squares
/// beyond each square. For a ray of the ray tables this is the set of squares up to the
/// nearest piece, that piece kept only when it is an enemy (`lemma_blocked_ray_cuts`).
pub open spec fn blocked_spec(fwd: bool, ray_family: [u64; 64], ray: u64, own: u64, enemy: u64) -> u64 {
    let own_hit = if ray & own == 0 {
        None
    } else {
        Some(if fwd {
            lowest_sq(ray & own)
        } else {
            highest_sq(ray & own)
        })
    };
    let enemy_hit = if ray & enemy == 0 {
        None
    } else {
        Some(if fwd {
            lowest_sq(ray & enemy)
        } else {
            highest_sq(ray & enemy)
        })
    };
    match (own_hit, enemy_hit) {
        (None, None) => ray,
        (None, Some(e)) => ray ^ ray_family[e],
        (Some(o), None) => ray ^ (ray_family[o] | (1u64 << o as u64)),
        (Some(o), Some(e)) => ray ^ (ray_family[o] | (1u64 << o as u64) | ray_family[e]),
    }
}

/// The ray `ray` cut at the first pieces it meets: a piece of `own` and the squares beyond
/// it are removed, as are the squares beyond a piece of `enemy`; `ray_family` holds the
/// rays of the same direction from each square.
pub fn blocked_ray_att(dir: Dir, ray_family: &[u64; 64], ray: u64, own: u64, enemy: u64) -> (r: u64)
    ensures
        r == blocked_spec(ray_forward(dir), *ray_family, ray, own, enemy),
{
    let first_own_hit = first_hit(dir, ray & own);
    let first_enemy_hit = first_hit(dir, ray & enemy);
    proof {
        let fwd = dir_dr(dir) * 8 + dir_dc(dir) > 0;
        if let Some(o) = first_own_hit {
            if fwd {
                lemma_lowest_is(ray & own, o as int);
            } else {
                lemma_highest_is(ray & own, o as int);
            }
        }
        if let Some(e) = first_enemy_hit {
            if fwd {
                lemma_lowest_is(ray & enemy, e as int);
            } else {
                lemma_highest_is(ray & enemy, e as int);
            }
        }
    }
    match (first_own_hit, first_enemy_hit) {
        (None, None) => ray,
        (None, Some(enemy_idx)) => ray ^ ray_family[enemy_idx],
        (Some(own_idx), None) => ray ^ (ray_family[own_idx] | (1u64 << own_idx as u64)),
        (Some(own_idx), Some(enemy_idx)) => ray ^ (ray_family[own_idx] | (1u64 << own_idx as u64) | ray_family[enemy_idx]),
    }
}

/// `s` is a square of `b` and no lower square is.
pub open spec fn lowest_of(b: u64, s: int) -> bool {
    0 <= s < 64 && has_bit(b, s as u64) && forall|j: u64| j < s ==> !#[trigger] has_bit(b, j)
}

/// `s` is a square of `b` and no higher square is.
pub open spec fn highest_of(b: u64, s: int) -> bool {
    0 <= s < 64 && has_bit(b, s as u64) && forall|j: u64| s < j < 64 ==> !#[trigger] has_bit(b, j)
}

/// The lowest square of a non-empty bitboard.
pub open spec fn lowest_sq(b: u64) -> int {
    choose|s: int| #[trigger] lowest_of(b, s)
}

/// The highest square of a non-empty bitboard.
pub open spec fn highest_sq(b: u64) -> int {
    choose|s: int| #[trigger] highest_of(b, s)
}

/// A square of `b` below which `b` holds nothing is its lowest square.
pub proof fn lemma_lowest_is(b: u64, s: int)
    requires
        0 <= s < 64,
        has_bit(b, s as u64),
        forall|j: u64| j < s ==> !#[trigger] has_bit(b, j),
    ensures
        s == lowest_sq(b),
{
    assert(lowest_of(b, s));
    let c = lowest_sq(b);
    assert(0 <= c < 64 && has_bit(b, c as u64) && forall|j: u64| j < c ==> !#[trigger] has_bit(b, j));
    if c < s {
        assert(!has_bit(b, c as u64));
    } else if s < c {
        assert(!has_bit(b, s as u64));
    }
}

/// A square of `b` above which `b` holds nothing is its highest square.
pub proof fn lemma_highest_is(b: u64, s: int)
    requires
        0 <= s < 64,
        has_bit(b, s as u64),
        forall|j: u64| s < j < 64 ==> !#[trigger] has_bit(b, j),
    ensures
        s == highest_sq(b),
{
    assert(highest_of(b, s));
    let c = highest_sq(b);
    assert(0 <= c < 64 && has_bit(b, c as u64) && forall|j: u64| c < j < 64 ==> !#[trigger] has_bit(b, j));
    if c < s {
        assert(!has_bit(b, s as u64));
    } else if s < c {
        assert(!has_bit(b, c as u64));
    }
}

/// A non-empty bitboard has a lowest square.
pub proof fn lemma_lowest_exists(b: u64, n: u64)
    requires
        n <= 64,
        exists|i: u64| i < n && #[trigger] has_bit(b, i),
    ensures
        lowest_of(b, lowest_sq(b)),
    decreases n,
{
    if exists|i: u64| i < n - 1 && #[trigger] has_bit(b, i) {
        lemma_lowest_exists(b, (n - 1) as u64);
    } else {
        let i = choose|i: u64| i < n && #[trigger] has_bit(b, i);
        assert(i == n - 1);
        lemma_lowest_is(b, i as int);
    }
}

/// A non-empty bitboard has a highest square.
pub proof fn lemma_highest_exists(b: u64, n: u64)
    requires
        n <= 64,
        exists|i: u64| n <= i < 64 && #[trigger] has_bit(b, i),
    ensures
        highest_of(b, highest_sq(b)),
    decreases 64 - n,
{
    if exists|i: u64| n + 1 <= i < 64 && #[trigger] has_bit(b, i) {
        lemma_highest_exists(b, (n + 1) as u64);
    } else {
        let i = choose|i: u64| n <= i < 64 && #[trigger] has_bit(b, i);
        assert(i == n);
        lemma_highest_is(b, i as int);
    }
}

/// The squares of a ray come one after the other: one square lies at one distance only, and
/// the farther square is the higher one when the direction goes up the board, the lower one
/// otherwise.
pub proof fn lemma_ray_order(row: int, col: int, dr: int, dc: int, k1: int, k2: int, t1: int, t2: int)
    requires
        -1 <= dr <= 1,
        -1 <= dc <= 1,
        !(dr == 0 && dc == 0),
        ray_at(row, col, dr, dc, k1, t1),
        ray_at(row, col, dr, dc, k2, t2),
    ensures
        t1 == t2 ==> k1 == k2,
        k1 < k2 && dr * 8 + dc > 0 ==> t1 < t2,
        k1 < k2 && dr * 8 + dc < 0 ==> t1 > t2,
{
}

/// The squares of a ray before a square of the ray lie on the board.
pub proof fn lemma_ray_between(row: int, col: int, dr: int, dc: int, j: int, k: int, t: int)
    requires
        inside(row, col),
        -1 <= dr <= 1,
        -1 <= dc <= 1,
        0 <= j <= k,
        ray_at(row, col, dr, dc, k, t),
    ensures
        ray_at(row, col, dr, dc, j, ray_sq(row, col, dr, dc, j)),
{
}

/// A ray has at most seven squares.
pub proof fn lemma_ray_length(row: int, col: int, dr: int, dc: int, k: int, t: int)
    requires
        inside(row, col),
        -1 <= dr <= 1,
        -1 <= dc <= 1,
        !(dr == 0 && dc == 0),
        k >= 0,
        ray_at(row, col, dr, dc, k, t),
    ensures
        k < 8,
{
}

/// The ray from a square `e` of the ray from (row, col) continues that ray.
pub proof fn lemma_ray_continues(row: int, col: int, dr: int, dc: int, ke: int, e: int, k: int, t: int)
    requires
        -1 <= dr <= 1,
        -1 <= dc <= 1,
        ke >= 0,
        k >= 0,
        ray_at(row, col, dr, dc, ke, e),
    ensures
        ray_at(row_of(e), col_of(e), dr, dc, k, t) <==> ray_at(row, col, dr, dc, ke + k, t),
{
}

/// On the whole ray of direction `d` from `s`, with no piece of the mover, the cut ray holds
/// exactly the squares that a sliding piece on `s` reaches in that direction over `occ`.
pub proof fn lemma_blocked_ray_slides(rays: [[u64; 64]; 8], d: int, s: int, occ: u64)
    requires
        rays_ok(rays),
        0 <= d < 8,
        0 <= s < 64,
    ensures
        forall|t: u64| t < 64 ==> #[trigger] has_bit(blocked_spec(ray_forward(DIRECTIONS@[d]), rays[d], rays[d][s], 0, occ), t)
            == slide_target(row_of(s), col_of(s), dir_dr(DIRECTIONS@[d]), dir_dc(DIRECTIONS@[d]), occ, t as int),
{
    lemma_blocked_ray_cuts(rays, d, s, 0, occ);
    lemma_bit_consts();
    assert(0u64 | occ == occ) by (bit_vector);
}

/// The first square of `b` met on the ray of direction `d` from `s`.
pub open spec fn ray_first(rays: [[u64; 64]; 8], d: int, s: int, b: u64) -> int {
    if ray_forward(DIRECTIONS@[d]) {
        lowest_sq(rays[d][s] & b)
    } else {
        highest_sq(rays[d][s] & b)
    }
}

/// The first square of `b` on the ray of direction `d` from `s`, met walking out from `s`,
/// lies at the distance returned; no square of `b` lies on the ray before it, and the ray from
/// it holds exactly the squares of the ray beyond it.
proof fn lemma_first_on_ray(rays: [[u64; 64]; 8], d: int, s: int, b: u64) -> (ke: int)
    requires
        rays_ok(rays),
        0 <= d < 8,
        0 <= s < 64,
        rays[d][s] & b != 0,
    ensures
        0 <= ray_first(rays, d, s, b) < 64,
        1 <= ke < 8,
        ray_at(row_of(s), col_of(s), dir_dr(DIRECTIONS@[d]), dir_dc(DIRECTIONS@[d]), ke, ray_first(rays, d, s, b)),
        has_bit(b, ray_first(rays, d, s, b) as u64),
        forall|j: int| 1 <= j < ke ==> !#[trigger] has_bit(b, ray_sq(row_of(s), col_of(s), dir_dr(DIRECTIONS@[d]), dir_dc(DIRECTIONS@[d]), j) as u64),
        forall|t: u64| t < 64 ==> (#[trigger] has_bit(rays[d][ray_first(rays, d, s, b)], t) <==> exists|k: int| ke < k < 8 && #[trigger] ray_at(row_of(s), col_of(s), dir_dr(DIRECTIONS@[d]), dir_dc(DIRECTIONS@[d]), k, t as int)),
{
    let dir = DIRECTIONS@[d];
    let dr = dir_dr(dir);
    let dc = dir_dc(dir);
    let fwd = dr * 8 + dc > 0;
    let row = row_of(s);
    let col = col_of(s);
    let ray = rays[d][s];
    assert(-1 <= dr <= 1 && -1 <= dc <= 1 && !(dr == 0 && dc == 0));
    let x = ray & b;
    lemma_bit_ops(ray, b);
    crate::bits::lemma_nonzero_has_bit(x);
    if fwd {
        lemma_lowest_exists(x, 64);
    } else {
        lemma_highest_exists(x, 0);
    }
    let e = ray_first(rays, d, s, b);
    assert(0 <= e < 64 && has_bit(x, e as u64));
    assert(ray_target(row, col, dr, dc, e));
    let ke = choose|k: int| 1 <= k < 8 && #[trigger] ray_at(row, col, dr, dc, k, e);
    assert forall|j: int| 1 <= j < ke implies !#[trigger] has_bit(b, ray_sq(row, col, dr, dc, j) as u64) by {
        lemma_ray_between(row, col, dr, dc, j, ke, e);
        let q = ray_sq(row, col, dr, dc, j);
        assert(ray_target(row, col, dr, dc, q));
        assert(has_bit(ray, q as u64));
        lemma_ray_order(row, col, dr, dc, j, ke, q, e);
        if has_bit(b, q as u64) {
            assert(has_bit(x, q as u64));
        }
    }
    assert forall|t: u64| t < 64 implies (#[trigger] has_bit(rays[d][e], t) <==> exists|k: int| ke < k < 8 && #[trigger] ray_at(row, col, dr, dc, k, t as int)) by {
        if has_bit(rays[d][e], t) {
            let k2 = choose|k: int| 1 <= k < 8 && #[trigger] ray_at(row_of(e), col_of(e), dr, dc, k, t as int);
            lemma_ray_continues(row, col, dr, dc, ke, e, k2, t as int);
            lemma_ray_length(row, col, dr, dc, ke + k2, t as int);
            assert(ray_at(row, col, dr, dc, ke + k2, t as int));
        }
        if exists|k: int| ke < k < 8 && #[trigger] ray_at(row, col, dr, dc, k, t as int) {
            let k = choose|k: int| ke < k < 8 && #[trigger] ray_at(row, col, dr, dc, k, t as int);
            lemma_ray_continues(row, col, dr, dc, ke, e, k - ke, t as int);
            assert(ray_at(row_of(e), col_of(e), dr, dc, k - ke, t as int));
            assert(ray_target(row_of(e), col_of(e), dr, dc, t as int));
        }
    }
    ke
}

/// The cut ray is the ray without the squares cut at its first pieces.
proof fn lemma_cut_parts(fwd: bool, fam: [u64; 64], ray: u64, own: u64, enemy: u64, o: int, e: int, t: u64)
    requires
        t < 64,
        0 <= o < 64,
        0 <= e < 64,
        ray & own != 0 ==> o == (if fwd { lowest_sq(ray & own) } else { highest_sq(ray & own) }),
        ray & enemy != 0 ==> e == (if fwd { lowest_sq(ray & enemy) } else { highest_sq(ray & enemy) }),
    ensures
        has_bit(blocked_spec(fwd, fam, ray, own, enemy), t) == (has_bit(ray, t) != (
            (ray & own != 0 && (has_bit(fam[o], t) || t == o)) || (ray & enemy != 0 && has_bit(fam[e], t)))),
{
    lemma_bit_consts();
    let so = 1u64 << o as u64;
    lemma_bit_ops(fam[o], so);
    lemma_bit_ops(fam[o] | so, fam[e]);
    lemma_bit_ops(ray, fam[e]);
    lemma_bit_ops(ray, fam[o] | so);
    lemma_bit_ops(ray, (fam[o] | so) | fam[e]);
}

/// One square of the cut ray, by its distance along the ray.
#[verifier::rlimit(50)]
proof fn lemma_cut_square(rays: [[u64; 64]; 8], d: int, s: int, own: u64, enemy: u64, t: u64)
    requires
        rays_ok(rays),
        0 <= d < 8,
        0 <= s < 64,
        t < 64,
    ensures
        has_bit(blocked_spec(ray_forward(DIRECTIONS@[d]), rays[d], rays[d][s], own, enemy), t)
            == (slide_target(row_of(s), col_of(s), dir_dr(DIRECTIONS@[d]), dir_dc(DIRECTIONS@[d]), own | enemy, t as int)
            && !has_bit(own, t)),
{
    let dir = DIRECTIONS@[d];
    let dr = dir_dr(dir);
    let dc = dir_dc(dir);
    let fwd = ray_forward(dir);
    let row = row_of(s);
    let col = col_of(s);
    let ray = rays[d][s];
    let fam = rays[d];
    let occ = own | enemy;
    assert(-1 <= dr <= 1 && -1 <= dc <= 1 && !(dr == 0 && dc == 0));
    lemma_bit_consts();
    lemma_bit_ops(ray, own);
    lemma_bit_ops(ray, enemy);
    lemma_bit_ops(own, enemy);
    let has_o = ray & own != 0;
    let has_e = ray & enemy != 0;
    let ko: int = if has_o { lemma_first_on_ray(rays, d, s, own) } else { 8 };
    let ke: int = if has_e { lemma_first_on_ray(rays, d, s, enemy) } else { 8 };
    let o: int = if has_o { ray_first(rays, d, s, own) } else { 0 };
    let e: int = if has_e { ray_first(rays, d, s, enemy) } else { 0 };
    lemma_cut_parts(fwd, fam, ray, own, enemy, o, e, t);
    if has_bit(ray, t) {
        assert(ray_target(row, col, dr, dc, t as int));
        let k = choose|k: int| 1 <= k < 8 && #[trigger] ray_at(row, col, dr, dc, k, t as int);
        if has_o {
            if has_bit(fam[o], t) {
                let k2 = choose|k2: int| ko < k2 < 8 && #[trigger] ray_at(row, col, dr, dc, k2, t as int);
                lemma_ray_order(row, col, dr, dc, k, k2, t as int, t as int);
            } else if ko < k {
                assert(ray_at(row, col, dr, dc, k, t as int));
            }
            if t as int == o {
                lemma_ray_order(row, col, dr, dc, k, ko, t as int, o);
            } else if k == ko {
                assert(ray_at(row, col, dr, dc, ko, o));
            }
        }
        if has_e {
            if has_bit(fam[e], t) {
                let k2 = choose|k2: int| ke < k2 < 8 && #[trigger] ray_at(row, col, dr, dc, k2, t as int);
                lemma_ray_order(row, col, dr, dc, k, k2, t as int, t as int);
            } else if ke < k {
                assert(ray_at(row, col, dr, dc, k, t as int));
            }
        }
        let cut = (has_o && (has_bit(fam[o], t) || t == o)) || (has_e && has_bit(fam[e], t));
        assert(cut == ((has_o && k >= ko) || (has_e && k > ke)));
        if (!has_o || k <= ko) && (!has_e || k <= ke) {
            assert forall|j: int| 1 <= j < k implies !#[trigger] has_bit(occ, ray_sq(row, col, dr, dc, j) as u64) by {
                let q = ray_sq(row, col, dr, dc, j) as u64;
                lemma_ray_between(row, col, dr, dc, j, k, t as int);
                assert(ray_target(row, col, dr, dc, q as int));
                assert(has_bit(ray, q));
                assert(has_bit(occ, q) == (has_bit(own, q) || has_bit(enemy, q)));
                if has_bit(own, q) {
                    assert(has_bit(ray & own, q));
                }
                if has_bit(enemy, q) {
                    assert(has_bit(ray & enemy, q));
                }
            }
            assert(path_clear(row, col, dr, dc, occ, k));
            assert(slide_target(row, col, dr, dc, occ, t as int));
        } else {
            if slide_target(row, col, dr, dc, occ, t as int) {
                let k1 = choose|k1: int| 1 <= k1 < 8 && #[trigger] ray_at(row, col, dr, dc, k1, t as int) && path_clear(row, col, dr, dc, occ, k1);
                lemma_ray_order(row, col, dr, dc, k, k1, t as int, t as int);
                if has_o && ko < k {
                    assert(ray_sq(row, col, dr, dc, ko) == o);
                    assert(has_bit(occ, o as u64));
                    assert(!has_bit(occ, ray_sq(row, col, dr, dc, ko) as u64));
                } else {
                    assert(ray_sq(row, col, dr, dc, ke) == e);
                    assert(has_bit(occ, e as u64));
                    assert(!has_bit(occ, ray_sq(row, col, dr, dc, ke) as u64));
                }
            }
        }
        if has_bit(own, t) {
            assert(has_bit(ray & own, t));
            assert(has_o);
            if k < ko {
                assert(ray_sq(row, col, dr, dc, k) == t as int);
                assert(!has_bit(own, ray_sq(row, col, dr, dc, k) as u64));
            }
        }
        if has_o && k == ko {
            assert(ray_sq(row, col, dr, dc, ko) == o);
            assert(ray_sq(row, col, dr, dc, k) == t as int);
            assert(has_bit(own, t));
        }
        assert(has_bit(blocked_spec(fwd, fam, ray, own, enemy), t) == !cut);
        assert(slide_target(row, col, dr, dc, occ, t as int) == ((!has_o || k <= ko) && (!has_e || k <= ke)));
        assert((!has_o || k <= ko) ==> (has_bit(own, t) == (has_o && k == ko)));
    } else {
        if has_o && t as int == o {
            assert(ray_target(row, col, dr, dc, o));
        }
        if has_o && has_bit(fam[o], t) {
            let k2 = choose|k2: int| ko < k2 < 8 && #[trigger] ray_at(row, col, dr, dc, k2, t as int);
            assert(ray_target(row, col, dr, dc, t as int));
        }
        if has_e && has_bit(fam[e], t) {
            let k2 = choose|k2: int| ke < k2 < 8 && #[trigger] ray_at(row, col, dr, dc, k2, t as int);
            assert(ray_target(row, col, dr, dc, t as int));
        }
        if slide_target(row, col, dr, dc, occ, t as int) {
            let k1 = choose|k1: int| 1 <= k1 < 8 && #[trigger] ray_at(row, col, dr, dc, k1, t as int) && path_clear(row, col, dr, dc, occ, k1);
            assert(ray_target(row, col, dr, dc, t as int));
        }
        assert(!has_bit(blocked_spec(fwd, fam, ray, own, enemy), t));
    }
}

/// The whole ray of direction `d` from `s`, cut at the pieces it meets, holds exactly the
/// squares that a sliding piece on `s` reaches in that direction over the pieces of both
/// sides, those of its own side left out: the squares up to the nearest piece, that piece
/// kept only when it belongs to the other side.
pub proof fn lemma_blocked_ray_cuts(rays: [[u64; 64]; 8], d: int, s: int, own: u64, enemy: u64)
    requires
        rays_ok(rays),
        0 <= d < 8,
        0 <= s < 64,
    ensures
        forall|t: u64| t < 64 ==> #[trigger] has_bit(blocked_spec(ray_forward(DIRECTIONS@[d]), rays[d], rays[d][s], own, enemy), t)
            == (slide_target(row_of(s), col_of(s), dir_dr(DIRECTIONS@[d]), dir_dc(DIRECTIONS@[d]), own | enemy, t as int)
            && !has_bit(own, t)),
{
    assert forall|t: u64| t < 64 implies #[trigger] has_bit(blocked_spec(ray_forward(DIRECTIONS@[d]), rays[d], rays[d][s], own, enemy), t)
        == (slide_target(row_of(s), col_of(s), dir_dr(DIRECTIONS@[d]), dir_dc(DIRECTIONS@[d]), own | enemy, t as int)
        && !has_bit(own, t)) by {
        lemma_cut_square(rays, d, s, own, enemy, t);
    }
}

/// The squares of the rook rays from `s` that a blocker can stand on: each ray without its
/// last square at the board's edge.
pub open spec fn rook_mask_target(s: int, t: int) -> bool {
    let (row, col) = (row_of(s), col_of(s));
    ||| ray_target(row, col, 1, 0, t) && t / 8 != 7
    ||| ray_target(row, col, -1, 0, t) && t / 8 != 0
    ||| ray_target(row, col, 0, 1, t) && t % 8 != 7
    ||| ray_target(row, col, 0, -1, t) && t % 8 != 0
}

/// The squares of the bishop rays from `s` that a blocker can stand on: each ray without its
/// last square at the board's edge.
pub open spec fn bishop_mask_target(s: int, t: int) -> bool {
    let (row, col) = (row_of(s), col_of(s));
    ||| ray_target(row, col, 1, 1, t) && t / 8 != 7 && t % 8 != 7
    ||| ray_target(row, col, 1, -1, t) && t / 8 != 7 && t % 8 != 0
    ||| ray_target(row, col, -1, 1, t) && t / 8 != 0 && t % 8 != 7
    ||| ray_target(row, col, -1, -1, t) && t / 8 != 0 && t % 8 != 0
}

/// A sliding piece meets only squares of its ray that come before the last one; a mask holding
/// those squares keeps what the piece reaches.
pub proof fn lemma_slide_masked(row: int, col: int, dr: int, dc: int, occ: u64, m: u64)
    requires
        inside(row, col),
        -1 <= dr <= 1,
        -1 <= dc <= 1,
        forall|j: int| 1 <= j < 7 && inside(row + mstep(dr, j + 1), col + mstep(dc, j + 1)) ==> #[trigger] has_bit(
            m,
            ray_sq(row, col, dr, dc, j) as u64,
        ),
    ensures
        forall|t: int| #[trigger] slide_target(row, col, dr, dc, occ & m, t) == slide_target(row, col, dr, dc, occ, t),
{
    lemma_bit_ops(occ, m);
    assert forall|t: int| #[trigger] slide_target(row, col, dr, dc, occ & m, t) == slide_target(row, col, dr, dc, occ, t) by {
        assert forall|k: int| 1 <= k < 8 && #[trigger] ray_at(row, col, dr, dc, k, t) implies path_clear(row, col, dr, dc, occ & m, k)
            == path_clear(row, col, dr, dc, occ, k) by {
            assert forall|j: int| 1 <= j < k implies #[trigger] has_bit(occ & m, ray_sq(row, col, dr, dc, j) as u64) == has_bit(
                occ,
                ray_sq(row, col, dr, dc, j) as u64,
            ) by {
                lemma_ray_between(row, col, dr, dc, j + 1, k, t);
                lemma_ray_between(row, col, dr, dc, j, k, t);
                assert(has_bit(m, ray_sq(row, col, dr, dc, j) as u64));
            }
            if path_clear(row, col, dr, dc, occ & m, k) {
                assert forall|j: int| 1 <= j < k implies !#[trigger] has_bit(occ, ray_sq(row, col, dr, dc, j) as u64) by {
                    assert(!has_bit(occ & m, ray_sq(row, col, dr, dc, j) as u64));
                }
            }
            if path_clear(row, col, dr, dc, occ, k) {
                assert forall|j: int| 1 <= j < k implies !#[trigger] has_bit(occ & m, ray_sq(row, col, dr, dc, j) as u64) by {
                    assert(!has_bit(occ, ray_sq(row, col, dr, dc, j) as u64));
                }
            }
        }
        if slide_target(row, col, dr, dc, occ & m, t) {
            let k = choose|k: int| 1 <= k < 8 && #[trigger] ray_at(row, col, dr, dc, k, t) && path_clear(row, col, dr, dc, occ & m, k);
            assert(path_clear(row, col, dr, dc, occ, k));
        }
        if slide_target(row, col, dr, dc, occ, t) {
            let k = choose|k: int| 1 <= k < 8 && #[trigger] ray_at(row, col, dr, dc, k, t) && path_clear(row, col, dr, dc, occ, k);
            assert(path_clear(row, col, dr, dc, occ & m, k));
        }
    }
}

/// A slider on `s` that moves along a ray of the mask `m` of `s` meets only squares of `m`.
proof fn lemma_dir_masked(s: int, occ: u64, m: u64, dr: int, dc: int, bishop: bool)
    requires
        0 <= s < 64,
        -1 <= dr <= 1,
        -1 <= dc <= 1,
        bishop ==> dr != 0 && dc != 0,
        !bishop ==> (dr == 0) != (dc == 0),
        !bishop ==> forall|t: u64| t < 64 ==> (#[trigger] has_bit(m, t) <==> rook_mask_target(s, t as int)),
        bishop ==> forall|t: u64| t < 64 ==> (#[trigger] has_bit(m, t) <==> bishop_mask_target(s, t as int)),
    ensures
        forall|t: int| #[trigger] slide_target(row_of(s), col_of(s), dr, dc, occ & m, t) == slide_target(row_of(s), col_of(s), dr, dc, occ, t),
{
    let row = row_of(s);
    let col = col_of(s);
    assert forall|j: int| 1 <= j < 7 && inside(row + mstep(dr, j + 1), col + mstep(dc, j + 1)) implies #[trigger] has_bit(
        m,
        ray_sq(row, col, dr, dc, j) as u64,
    ) by {
        let q = ray_sq(row, col, dr, dc, j);
        assert(ray_at(row, col, dr, dc, j, q));
        assert(ray_target(row, col, dr, dc, q));
        if bishop {
            assert(bishop_mask_target(s, q));
        } else {
            assert(rook_mask_target(s, q));
        }
    }
    lemma_slide_masked(row, col, dr, dc, occ, m);
}

/// A rook reaches the same squares over the pieces on its mask as over all pieces.
pub proof fn lemma_rook_masked(s: int, occ: u64, m: u64)
    requires
        0 <= s < 64,
        forall|t: u64| t < 64 ==> (#[trigger] has_bit(m, t) <==> rook_mask_target(s, t as int)),
    ensures
        forall|t: int| #[trigger] rook_target(s, occ & m, t) == rook_target(s, occ, t),
{
    lemma_dir_masked(s, occ, m, 1, 0, false);
    lemma_dir_masked(s, occ, m, -1, 0, false);
    lemma_dir_masked(s, occ, m, 0, 1, false);
    lemma_dir_masked(s, occ, m, 0, -1, false);
}

/// A bishop reaches the same squares over the pieces on its mask as over all pieces.
pub proof fn lemma_bishop_masked(s: int, occ: u64, m: u64)
    requires
        0 <= s < 64,
        forall|t: u64| t < 64 ==> (#[trigger] has_bit(m, t) <==> bishop_mask_target(s, t as int)),
    ensures
        forall|t: int| #[trigger] bishop_target(s, occ & m, t) == bishop_target(s, occ, t),
{
    lemma_dir_masked(s, occ, m, 1, 1, true);
    lemma_dir_masked(s, occ, m, 1, -1, true);
    lemma_dir_masked(s, occ, m, -1, 1, true);
    lemma_dir_masked(s, occ, m, -1, -1, true);
}

/// The rook rays from `pos` without their squares at the board's edge.
pub fn gen_rook_mov(pos: usize) -> (r: u64)
    requires
        pos < 64,
    ensures
        forall|t: u64| t < 64 ==> (#[trigger] has_bit(r, t) <==> rook_mask_target(pos as int, t as int)),
{
    let (row, col) = ((pos / 8) as i8, (pos % 8) as i8);
    let (rn, rs, re, rw) = (
        rays_att_bitboard(Dir::NORTH, row, col),
        rays_att_bitboard(Dir::SOUTH, row, col),
        rays_att_bitboard(Dir::EAST, row, col),
        rays_att_bitboard(Dir::WEST, row, col),
    );
    let (k7, k0, f7, f0) = (rank_bitboard(7), rank_bitboard(0), file_bitboard(7), file_bitboard(0));
    let n = rn & !k7;
    let so = rs & !k0;
    let e = re & !f7;
    let w = rw & !f0;
    let attacks = n | so | e | w;
    proof {
        assert forall|t: u64| t < 64 implies (#[trigger] has_bit(attacks, t) <==> rook_mask_target(pos as int, t as int)) by {
            lemma_bit_ops(n | so | e, w);
            lemma_bit_ops(n | so, e);
            lemma_bit_ops(n, so);
            lemma_bit_ops(rn, !k7);
            lemma_bit_ops(rs, !k0);
            lemma_bit_ops(re, !f7);
            lemma_bit_ops(rw, !f0);
            lemma_bit_ops(k7, 0);
            lemma_bit_ops(k0, 0);
            lemma_bit_ops(f7, 0);
            lemma_bit_ops(f0, 0);
        }
    }
    attacks
}

/// The bishop rays from `pos` without their squares at the board's edge.
pub fn gen_bishop_mov(pos: usize) -> (r: u64)
    requires
        pos < 64,
    ensures
        forall|t: u64| t < 64 ==> (#[trigger] has_bit(r, t) <==> bishop_mask_target(pos as int, t as int)),
{
    let (row, col) = ((pos / 8) as i8, (pos % 8) as i8);
    let (k7, k0, g7, g0) = (rank_bitboard(7), rank_bitboard(0), file_bitboard(7), file_bitboard(0));
    let r7 = !k7;
    let r0 = !k0;
    let f7 = !g7;
    let f0 = !g0;
    let (a, b, c, d) = (
        rays_att_bitboard(Dir::NORTHEAST, row, col),
        rays_att_bitboard(Dir::NORTHWEST, row, col),
        rays_att_bitboard(Dir::SOUTHEAST, row, col),
        rays_att_bitboard(Dir::SOUTHWEST, row, col),
    );
    let ne = a & r7 & f7;
    let nw = b & r7 & f0;
    let se = c & r0 & f7;
    let sw = d & r0 & f0;
    let attacks = ne | nw | se | sw;
    proof {
        assert forall|t: u64| t < 64 implies (#[trigger] has_bit(attacks, t) <==> bishop_mask_target(pos as int, t as int)) by {
            lemma_bit_ops(ne | nw | se, sw);
            lemma_bit_ops(ne | nw, se);
            lemma_bit_ops(ne, nw);
            lemma_bit_ops(a & r7, f7);
            lemma_bit_ops(b & r7, f0);
            lemma_bit_ops(c & r0, f7);
            lemma_bit_ops(d & r0, f0);
            lemma_bit_ops(a, r7);
            lemma_bit_ops(b, r7);
            lemma_bit_ops(c, r0);
            lemma_bit_ops(d, r0);
            lemma_bit_ops(k7, 0);
            lemma_bit_ops(k0, 0);
            lemma_bit_ops(g7, 0);
            lemma_bit_ops(g0, 0);
        }
    }
    attacks
}

/// The squares a rook on `s` reaches on an empty board: those of its rank and of its file,
/// `s` itself left out.
pub open spec fn rook_line_target(s: int, t: int) -> bool {
    t != s && (row_of(t) == row_of(s) || col_of(t) == col_of(s))
}

/// The squares a bishop on `s` reaches on an empty board: those of its two diagonals, `s`
/// itself left out.
pub open spec fn bishop_line_target(s: int, t: int) -> bool {
    t != s && (row_of(t) - row_of(s) == col_of(t) - col_of(s) || row_of(t) - row_of(s) == col_of(s)
        - col_of(t))
}

/// The four rook rays from `s` cover its rank and file.
proof fn lemma_rook_line(s: int, t: int)
    requires
        0 <= s < 64,
        0 <= t < 64,
    ensures
        rook_line_target(s, t) <==> (ray_target(row_of(s), col_of(s), 1, 0, t) || ray_target(
            row_of(s),
            col_of(s),
            -1,
            0,
            t,
        ) || ray_target(row_of(s), col_of(s), 0, 1, t) || ray_target(row_of(s), col_of(s), 0, -1, t)),
{
    let (row, col) = (row_of(s), col_of(s));
    let (tr, tc) = (row_of(t), col_of(t));
    if rook_line_target(s, t) {
        if tr == row {
            if tc > col {
                assert(ray_at(row, col, 0, 1, tc - col, t));
            } else {
                assert(ray_at(row, col, 0, -1, col - tc, t));
            }
        } else if tr > row {
            assert(ray_at(row, col, 1, 0, tr - row, t));
        } else {
            assert(ray_at(row, col, -1, 0, row - tr, t));
        }
    }
    if ray_target(row, col, 1, 0, t) {
        let k = choose|k: int| 1 <= k < 8 && #[trigger] ray_at(row, col, 1, 0, k, t);
        lemma_at(row + k, col, t);
    }
    if ray_target(row, col, -1, 0, t) {
        let k = choose|k: int| 1 <= k < 8 && #[trigger] ray_at(row, col, -1, 0, k, t);
        lemma_at(row - k, col, t);
    }
    if ray_target(row, col, 0, 1, t) {
        let k = choose|k: int| 1 <= k < 8 && #[trigger] ray_at(row, col, 0, 1, k, t);
        lemma_at(row, col + k, t);
    }
    if ray_target(row, col, 0, -1, t) {
        let k = choose|k: int| 1 <= k < 8 && #[trigger] ray_at(row, col, 0, -1, k, t);
        lemma_at(row, col - k, t);
    }
}

/// The four bishop rays from `s` cover its diagonals.
proof fn lemma_bishop_line(s: int, t: int)
    requires
        0 <= s < 64,
        0 <= t < 64,
    ensures
        bishop_line_target(s, t) <==> (ray_target(row_of(s), col_of(s), 1, 1, t) || ray_target(
            row_of(s),
            col_of(s),
            1,
            -1,
            t,
        ) || ray_target(row_of(s), col_of(s), -1, 1, t) || ray_target(row_of(s), col_of(s), -1, -1, t)),
{
    let (row, col) = (row_of(s), col_of(s));
    let (tr, tc) = (row_of(t), col_of(t));
    if bishop_line_target(s, t) {
        if tr - row == tc - col {
            if tr > row {
                assert(ray_at(row, col, 1, 1, tr - row, t));
            } else {
                assert(ray_at(row, col, -1, -1, row - tr, t));
            }
        } else {
            if tr > row {
                assert(ray_at(row, col, 1, -1, tr - row, t));
            } else {
                assert(ray_at(row, col, -1, 1, row - tr, t));
            }
        }
    }
    if ray_target(row, col, 1, 1, t) {
        let k = choose|k: int| 1 <= k < 8 && #[trigger] ray_at(row, col, 1, 1, k, t);
        lemma_at(row + k, col + k, t);
    }
    if ray_target(row, col, 1, -1, t) {
        let k = choose|k: int| 1 <= k < 8 && #[trigger] ray_at(row, col, 1, -1, k, t);
        lemma_at(row + k, col - k, t);
    }
    if ray_target(row, col, -1, 1, t) {
        let k = choose|k: int| 1 <= k < 8 && #[trigger] ray_at(row, col, -1, 1, k, t);
        lemma_at(row - k, col + k, t);
    }
    if ray_target(row, col, -1, -1, t) {
        let k = choose|k: int| 1 <= k < 8 && #[trigger] ray_at(row, col, -1, -1, k, t);
        lemma_at(row - k, col - k, t);
    }
}

/// The squares a rook on `sq` could move to on an empty board; the occupancy and the color
/// play no part.
pub fn get_rook_lookup(sq: usize, _own: u64, _enemy: u64, _clr: Color) -> (r: u64)
    requires
        sq < 64,
    ensures
        forall|t: u64| t < 64 ==> (#[trigger] has_bit(r, t) <==> rook_line_target(sq as int, t as int)),
{
    let (row, col) = ((sq / 8) as i8, (sq % 8) as i8);
    let n = rays_att_bitboard(Dir::NORTH, row, col);
    let so = rays_att_bitboard(Dir::SOUTH, row, col);
    let e = rays_att_bitboard(Dir::EAST, row, col);
    let w = rays_att_bitboard(Dir::WEST, row, col);
    let r = n | so | e | w;
    proof {
        assert forall|t: u64| t < 64 implies (#[trigger] has_bit(r, t) <==> rook_line_target(sq as int, t as int)) by {
            lemma_bit_ops(n | so | e, w);
            lemma_bit_ops(n | so, e);
            lemma_bit_ops(n, so);
            lemma_rook_line(sq as int, t as int);
        }
    }
    r
}

/// The squares a bishop on `sq` could move to on an empty board; the occupancy and the color
/// play no part.
pub fn get_bishop_lookup(sq: usize, _own: u64, _enemy: u64, _clr: Color) -> (r: u64)
    requires
        sq < 64,
    ensures
        forall|t: u64| t < 64 ==> (#[trigger] has_bit(r, t) <==> bishop_line_target(sq as int, t as int)),
{
    let (row, col) = ((sq / 8) as i8, (sq % 8) as i8);
    let a = rays_att_bitboard(Dir::NORTHEAST, row, col);
    let b = rays_att_bitboard(Dir::NORTHWEST, row, col);
    let c = rays_att_bitboard(Dir::SOUTHEAST, row, col);
    let d = rays_att_bitboard(Dir::SOUTHWEST, row, col);
    let r = a | b | c | d;
    proof {
        assert forall|t: u64| t < 64 implies (#[trigger] has_bit(r, t) <==> bishop_line_target(sq as int, t as int)) by {
            lemma_bit_ops(a | b | c, d);
            lemma_bit_ops(a | b, c);
            lemma_bit_ops(a, b);
            lemma_bishop_line(sq as int, t as int);
        }
    }
    r
}

/// The squares a queen on `sq` could move to on an empty board: those of the bishop and of
/// the rook.
pub fn get_queen_lookup(sq: usize, own: u64, enemy: u64, color: Color) -> (r: u64)
    requires
        sq < 64,
    ensures
        forall|t: u64| t < 64 ==> (#[trigger] has_bit(r, t) <==> bishop_line_target(sq as int, t as int) || rook_line_target(sq as int, t as int)),
{
    let b = get_bishop_lookup(sq, own, enemy, color);
    let r = get_rook_lookup(sq, own, enemy, color);
    proof {
        lemma_bit_ops(b, r);
    }
    b | r
}

} // verus!
