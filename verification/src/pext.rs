use vstd::prelude::*;
use crate::bits::{has_bit, count_bits, popcount, lemma_bit_consts, lemma_bit_ops, lemma_bit_shift, lemma_bits_ext, lemma_empty_is_zero, lemma_count_bits_bound, BitboardTrait};
use crate::attacks::{DIRECTIONS, dir_dr, dir_dc, dir_index, slide_target, rook_target, bishop_target};
use crate::tables::{Attacks, rays_ok, blocked_ray_att, lemma_blocked_ray_slides, gen_rook_mov, gen_bishop_mov, rook_mask_target, bishop_mask_target,
    lemma_rook_masked, lemma_bishop_masked};

verus! {

/// `r` holds the low bits of `x` laid out on the squares of `mask`: the square of `mask`
/// with `j` squares of `mask` below it is set when bit `j` of `x` is; no other square is.
pub open spec fn deposited(x: u64, mask: u64, r: u64) -> bool {
    forall|i: u64| i < 64 ==> #[trigger] has_bit(r, i) == (has_bit(mask, i) && has_bit(x, count_bits(mask, i as nat) as u64))
}

/// `r` holds the squares of `b` that lie on `mask`, packed into the low bits: bit `j` of `r`
/// tells whether `b` holds the square of `mask` with `j` squares of `mask` below it.
pub open spec fn extracted(b: u64, mask: u64, r: u64) -> bool {
    &&& forall|i: u64| i < 64 && #[trigger] has_bit(mask, i) ==> has_bit(r, count_bits(mask, i as nat) as u64) == has_bit(b, i)
    &&& forall|j: u64| popcount(mask) <= j < 64 ==> !#[trigger] has_bit(r, j)
}

/// A square of the mask below `i` is counted before `i`.
proof fn lemma_count_below(m: u64, j: u64, i: u64)
    requires
        j < i <= 64,
        has_bit(m, j),
    ensures
        count_bits(m, j as nat) < count_bits(m, i as nat),
    decreases i - j,
{
    if j + 1 < i {
        lemma_count_below(m, j, (i - 1) as u64);
    }
}

/// Lays the low bits of `occupancy` out on the squares of `mask`, from the lowest square up.
pub fn insert_bits(mask: u64, occupancy: u64) -> (r: u64)
    ensures
        deposited(occupancy, mask, r),
{
    let mut result: u64 = 0;
    let mut bit: u64 = 0;
    let mut i: u64 = 0;
    proof {
        lemma_bit_consts();
    }
    while i < 64
        invariant
            i <= 64,
            bit == count_bits(mask, i as nat),
            bit <= i,
            forall|j: u64| j < i ==> #[trigger] has_bit(result, j) == (has_bit(mask, j) && has_bit(occupancy, count_bits(mask, j as nat) as u64)),
            forall|j: u64| i <= j < 64 ==> !#[trigger] has_bit(result, j),
        decreases 64 - i,
    {
        if (mask >> i) & 1 == 1 {
            if (occupancy >> bit) & 1 == 1 {
                let ghost before = result;
                result = result | (1u64 << i);
                proof {
                    lemma_bit_ops(before, 1u64 << i);
                    lemma_bit_consts();
                }
            }
            bit = bit + 1;
        }
        i = i + 1;
    }
    result
}

/// Packs the squares of `bitboard` that lie on `mask` into the low bits, in the order of the
/// squares of `mask`.
pub fn pext(bitboard: u64, mask: u64) -> (r: u64)
    ensures
        extracted(bitboard, mask, r),
{
    let mut result: u64 = 0;
    let mut bit: u64 = 0;
    let mut i: u64 = 0;
    proof {
        lemma_bit_consts();
    }
    while i < 64
        invariant
            i <= 64,
            bit == count_bits(mask, i as nat),
            bit <= i,
            forall|j: u64| j < i && #[trigger] has_bit(mask, j) ==> has_bit(result, count_bits(mask, j as nat) as u64) == has_bit(bitboard, j),
            forall|j: u64| bit <= j < 64 ==> !#[trigger] has_bit(result, j),
        decreases 64 - i,
    {
        if (mask >> i) & 1 == 1 {
            let ghost before = result;
            if (bitboard >> i) & 1 == 1 {
                result = result | (1u64 << bit);
                proof {
                    lemma_bit_ops(before, 1u64 << bit);
                    lemma_bit_consts();
                }
            }
            proof {
                assert forall|j: u64| j < i + 1 && #[trigger] has_bit(mask, j) implies has_bit(result, count_bits(mask, j as nat) as u64) == has_bit(bitboard, j) by {
                    if j < i {
                        lemma_count_below(mask, j, i);
                    }
                }
            }
            bit = bit + 1;
        }
        i = i + 1;
    }
    result
}

/// Lays the low bits of `bitboard` out on the squares of `mask`.
pub fn pdep(bitboard: u64, mask: u64) -> (r: u64)
    ensures
        deposited(bitboard, mask, r),
{
    insert_bits(mask, bitboard)
}

/// Laying out again what was packed from the squares of `mask` gives the squares of `x` on
/// `mask`.
pub proof fn lemma_deposit_extracted(x: u64, mask: u64, e: u64, d: u64)
    requires
        extracted(x, mask, e),
        deposited(e, mask, d),
    ensures
        d == x & mask,
{
    lemma_bit_ops(x, mask);
    assert forall|i: u64| i < 64 implies #[trigger] has_bit(d, i) == has_bit(x & mask, i) by {
        if has_bit(mask, i) {
            assert(has_bit(e, count_bits(mask, i as nat) as u64) == has_bit(x, i));
        }
    }
    lemma_bits_ext(d, x & mask);
}

/// One more square counted.
proof fn lemma_count_step(b: u64, n: nat)
    ensures
        count_bits(b, n + 1) == count_bits(b, n) + if has_bit(b, n as u64) {
            1nat
        } else {
            0nat
        },
{
}

/// Within one row, a bitboard whose squares lie on the row or on the column of `s` holds
/// the whole row only when it is the row of `s`, and otherwise one square at most.
proof fn lemma_line_row(b: u64, s: int, k: int, j: int)
    requires
        0 <= s < 64,
        0 < k <= 8,
        0 <= j <= 8,
        forall|t: u64| t < 64 && #[trigger] has_bit(b, t) ==> (t / 8 == s / 8 || t % 8 == s % 8),
    ensures
        count_bits(b, (8 * (k - 1) + j) as nat) <= count_bits(b, (8 * (k - 1)) as nat) + if k - 1 == s / 8 {
            j
        } else if j > s % 8 {
            1
        } else {
            0
        },
    decreases j,
{
    if j > 0 {
        let base = 8 * (k - 1);
        lemma_line_row(b, s, k, j - 1);
        lemma_count_step(b, (base + j - 1) as nat);
        assert((base + j - 1) / 8 == k - 1);
        assert((base + j - 1) % 8 == j - 1);
    }
}

/// A bitboard whose squares lie on the row or on the column of `s` holds at most one square
/// in each other row.
proof fn lemma_line_count(b: u64, s: int, k: int)
    requires
        0 <= s < 64,
        0 <= k <= 8,
        forall|t: u64| t < 64 && #[trigger] has_bit(b, t) ==> (t / 8 == s / 8 || t % 8 == s % 8),
    ensures
        count_bits(b, (8 * k) as nat) <= k + if k > s / 8 {
            7int
        } else {
            0int
        },
    decreases k,
{
    if k > 0 {
        lemma_line_count(b, s, k - 1);
        lemma_line_row(b, s, k, 8);
    }
}

/// Within one row, a bitboard whose squares lie on the diagonals through `s` holds at most
/// two squares.
proof fn lemma_diagonal_row(b: u64, s: int, k: int, j: int)
    requires
        0 <= s < 64,
        0 < k <= 8,
        0 <= j <= 8,
        forall|t: u64| t < 64 && #[trigger] has_bit(b, t) ==> (t / 8 - s / 8 == t % 8 - s % 8 || t / 8 - s / 8 == s % 8 - t % 8),
    ensures
        count_bits(b, (8 * (k - 1) + j) as nat) <= count_bits(b, (8 * (k - 1)) as nat) + (if s % 8 + (k - 1 - s / 8) < j {
            1int
        } else {
            0int
        }) + (if s % 8 - (k - 1 - s / 8) < j {
            1int
        } else {
            0int
        }),
    decreases j,
{
    if j > 0 {
        let base = 8 * (k - 1);
        lemma_diagonal_row(b, s, k, j - 1);
        lemma_count_step(b, (base + j - 1) as nat);
        assert((base + j - 1) / 8 == k - 1);
        assert((base + j - 1) % 8 == j - 1);
    }
}

/// A bitboard whose squares lie on the diagonals through `s` holds at most two squares in
/// each row.
proof fn lemma_diagonal_count(b: u64, s: int, k: int)
    requires
        0 <= s < 64,
        0 <= k <= 8,
        forall|t: u64| t < 64 && #[trigger] has_bit(b, t) ==> (t / 8 - s / 8 == t % 8 - s % 8 || t / 8 - s / 8 == s % 8 - t % 8),
    ensures
        count_bits(b, (8 * k) as nat) <= 2 * k,
    decreases k,
{
    if k > 0 {
        lemma_diagonal_count(b, s, k - 1);
        lemma_diagonal_row(b, s, k, 8);
    }
}

/// A rook mask holds at most fifteen squares.
proof fn lemma_rook_mask_size(s: int, m: u64)
    requires
        0 <= s < 64,
        is_rook_mask(s, m),
    ensures
        popcount(m) <= 15,
{
    assert forall|t: u64| t < 64 && #[trigger] has_bit(m, t) implies (t / 8 == s / 8 || t % 8 == s % 8) by {
        assert(rook_mask_target(s, t as int));
    }
    lemma_line_count(m, s, 8);
}

/// A bishop mask holds at most sixteen squares.
proof fn lemma_bishop_mask_size(s: int, m: u64)
    requires
        0 <= s < 64,
        is_bishop_mask(s, m),
    ensures
        popcount(m) <= 16,
{
    assert forall|t: u64| t < 64 && #[trigger] has_bit(m, t) implies (t / 8 - s / 8 == t % 8 - s % 8 || t / 8 - s / 8 == s % 8 - t % 8) by {
        assert(bishop_mask_target(s, t as int));
    }
    lemma_diagonal_count(m, s, 8);
}

/// `m` holds the squares of the rook rays from `s` that a blocker can stand on.
pub open spec fn is_rook_mask(s: int, m: u64) -> bool {
    forall|t: u64| t < 64 ==> (#[trigger] has_bit(m, t) <==> rook_mask_target(s, t as int))
}

/// `m` holds the squares of the bishop rays from `s` that a blocker can stand on.
pub open spec fn is_bishop_mask(s: int, m: u64) -> bool {
    forall|t: u64| t < 64 ==> (#[trigger] has_bit(m, t) <==> bishop_mask_target(s, t as int))
}

/// A slider on `sq` reaches `t` over the pieces of `occ`: a bishop when `diagonal` holds, a
/// rook otherwise.
pub open spec fn slider_reach(sq: int, occ: u64, t: int, diagonal: bool) -> bool {
    if diagonal {
        bishop_target(sq, occ, t)
    } else {
        rook_target(sq, occ, t)
    }
}

/// `m` is the mask of the slider on `s`: a bishop's when `diagonal` holds, a rook's otherwise.
pub open spec fn is_mask(s: int, m: u64, diagonal: bool) -> bool {
    if diagonal {
        is_bishop_mask(s, m)
    } else {
        is_rook_mask(s, m)
    }
}

/// The mask of the slider on `s`.
pub open spec fn mask_of(s: int, diagonal: bool) -> u64 {
    choose|m: u64| is_mask(s, m, diagonal)
}

/// The squares that the packed occupancy `k` lays out on the mask `m`.
pub open spec fn deposit_of(k: u64, m: u64) -> u64 {
    choose|d: u64| deposited(k, m, d)
}

/// `part` holds, for each packed occupancy `k` of the mask `m` of `sq`, the squares that the
/// slider on `sq` reaches over the pieces laid out by `k` on `m`.
pub open spec fn part_ok(part: Seq<u64>, sq: int, m: u64, diagonal: bool) -> bool {
    &&& popcount(m) <= 16
    &&& part.len() == (1u64 << (popcount(m) as u64))
    &&& forall|k: int, t: u64| 0 <= k < part.len() && t < 64 ==> (#[trigger] has_bit(part[k], t) == slider_reach(
        sq,
        deposit_of(k as u64, m),
        t as int,
        diagonal,
    ))
}

/// Some direction among the first `n` of `DIRECTIONS`, diagonal when `diagonal` holds and
/// straight otherwise, takes a slider on (row, col) to `t` over the pieces of `occ`.
pub open spec fn reach_upto(row: int, col: int, occ: u64, t: int, n: int, diagonal: bool) -> bool
    decreases n,
{
    if n <= 0 {
        false
    } else {
        let d = DIRECTIONS@[n - 1];
        reach_upto(row, col, occ, t, n - 1, diagonal) || ((dir_dr(d) != 0 && dir_dc(d) != 0) == diagonal && slide_target(
            row,
            col,
            dir_dr(d),
            dir_dc(d),
            occ,
            t,
        ))
    }
}

/// Two bitboards laid out from the same packed occupancy on the same mask are equal.
proof fn lemma_deposited_unique(x: u64, m: u64, a: u64, b: u64)
    requires
        deposited(x, m, a),
        deposited(x, m, b),
    ensures
        a == b,
{
    lemma_bits_ext(a, b);
}

/// What was packed from `x` on the mask `m` lays out again as the squares of `x` on `m`.
proof fn lemma_deposit_of_extracted(x: u64, m: u64, e: u64)
    requires
        extracted(x, m, e),
    ensures
        deposit_of(e, m) == x & m,
{
    lemma_bit_ops(x, m);
    assert(deposited(e, m, x & m)) by {
        assert forall|i: u64| i < 64 implies #[trigger] has_bit(x & m, i) == (has_bit(m, i) && has_bit(e, count_bits(m, i as nat) as u64)) by {
            if has_bit(m, i) {
                assert(has_bit(e, count_bits(m, i as nat) as u64) == has_bit(x, i));
            }
        }
    }
    lemma_deposited_unique(e, m, x & m, deposit_of(e, m));
}

/// A number with no bit from `n` up lies below `2^n`.
proof fn lemma_below_shift(x: u64, n: u64)
    by (bit_vector)
    requires
        n < 64,
        x >> n == 0,
    ensures
        x < (1u64 << n),
{
}

/// Each count below the number of squares of `m` under `n` is the count of squares of `m`
/// below one of them.
proof fn lemma_count_hit(m: u64, n: nat, j: nat)
    requires
        n <= 64,
        j < count_bits(m, n),
    ensures
        exists|i: u64| i < n && #[trigger] has_bit(m, i) && count_bits(m, i as nat) == j,
    decreases n,
{
    if n > 0 {
        let p = (n - 1) as nat;
        if j < count_bits(m, p) {
            lemma_count_hit(m, p, j);
            let i = choose|i: u64| i < p && #[trigger] has_bit(m, i) && count_bits(m, i as nat) == j;
            assert(i < n && has_bit(m, i) && count_bits(m, i as nat) == j);
        } else {
            assert(has_bit(m, p as u64) && count_bits(m, p) == j);
        }
    }
}

/// The squares laid out below `n` are as many as the low bits of `x` they come from.
proof fn lemma_deposit_counts(x: u64, m: u64, d: u64, n: nat)
    requires
        deposited(x, m, d),
        n <= 64,
    ensures
        count_bits(d, n) == count_bits(x, count_bits(m, n)),
    decreases n,
{
    if n > 0 {
        let p = (n - 1) as nat;
        lemma_deposit_counts(x, m, d, p);
        lemma_count_bits_bound(m, p);
        let c = count_bits(m, p);
        assert(has_bit(d, p as u64) == (has_bit(m, p as u64) && has_bit(x, c as u64)));
        if has_bit(m, p as u64) {
            assert(count_bits(x, c + 1) == count_bits(x, c) + if has_bit(x, c as u64) { 1nat } else { 0nat });
        }
    }
}

/// Bits of `x` from `k` up add nothing to its count when there are none.
proof fn lemma_count_high_zero(x: u64, k: nat, n: nat)
    requires
        k <= n <= 64,
        forall|j: u64| k <= j < 64 ==> !#[trigger] has_bit(x, j),
    ensures
        count_bits(x, n) == count_bits(x, k),
    decreases n,
{
    if n > k {
        lemma_count_high_zero(x, k, (n - 1) as nat);
        assert(!has_bit(x, (n - 1) as u64));
    }
}

/// Packing again the squares that `x` was laid out on over `mask` gives back `x`, when `x`
/// has no bit from the number of squares of `mask` up; what was laid out lies on `mask` and
/// holds as many squares as `x` has bits.
pub proof fn lemma_extract_deposited(x: u64, mask: u64, d: u64, e: u64)
    requires
        forall|j: u64| popcount(mask) <= j < 64 ==> !#[trigger] has_bit(x, j),
        deposited(x, mask, d),
        extracted(d, mask, e),
    ensures
        e == x,
        d & mask == d,
        popcount(d) == popcount(x),
{
    assert forall|i: u64| i < 64 implies #[trigger] has_bit(e, i) == has_bit(x, i) by {
        if i < popcount(mask) {
            lemma_count_hit(mask, 64, i as nat);
            let s = choose|s: u64| s < 64 && #[trigger] has_bit(mask, s) && count_bits(mask, s as nat) == i;
            assert(has_bit(e, count_bits(mask, s as nat) as u64) == has_bit(d, s));
        }
    }
    lemma_bits_ext(e, x);
    lemma_bit_ops(d, mask);
    lemma_bits_ext(d & mask, d);
    lemma_deposit_counts(x, mask, d, 64);
    lemma_count_bits_bound(mask, 64);
    lemma_count_high_zero(x, popcount(mask), 64);
}

/// A packed occupancy of the mask `m` lies below `2^popcount(m)`.
proof fn lemma_extracted_below(x: u64, m: u64, e: u64)
    requires
        extracted(x, m, e),
        popcount(m) < 64,
    ensures
        e < (1u64 << (popcount(m) as u64)),
{
    let n = popcount(m) as u64;
    lemma_bit_shift(e, n);
    assert forall|i: u64| i < 64 implies !#[trigger] has_bit(e >> n, i) by {
        if i + n < 64 {
            assert(!has_bit(e, (i + n) as u64));
        }
    }
    lemma_empty_is_zero(e >> n);
    lemma_below_shift(e, n);
}

/// The squares that a slider on `sq` reaches over the pieces of `extracted`: the union of
/// its rays of the slider's kind, each cut by the ray tables.
fn slide_moves(attacks: &Attacks, sq: usize, extracted: u64, diagonal: bool) -> (r: u64)
    requires
        rays_ok(attacks.rays),
        sq < 64,
    ensures
        forall|t: u64| t < 64 ==> #[trigger] has_bit(r, t) == slider_reach(sq as int, extracted, t as int, diagonal),
{
    let ghost row = sq as int / 8;
    let ghost col = sq as int % 8;
    let mut moves: u64 = 0;
    let mut i: usize = 0;
    proof {
        lemma_bit_consts();
    }
    while i < 8
        invariant
            i <= 8,
            rays_ok(attacks.rays),
            sq < 64,
            row == sq as int / 8,
            col == sq as int % 8,
            forall|t: u64| t < 64 ==> #[trigger] has_bit(moves, t) == reach_upto(row, col, extracted, t as int, i as int, diagonal),
        decreases 8 - i,
    {
        let dir = DIRECTIONS[i];
        let keep = if diagonal {
            dir.is_diagonal()
        } else {
            dir.is_orthogonal()
        };
        if keep {
            let d = dir.idx();
            assert(d == i);
            let ray = attacks.rays[d][sq];
            let cut = blocked_ray_att(DIRECTIONS[d], &attacks.rays[d], ray, 0, extracted);
            proof {
                lemma_blocked_ray_slides(attacks.rays, i as int, sq as int, extracted);
                lemma_bit_ops(moves, cut);
            }
            moves = moves | cut;
        }
        i = i + 1;
    }
    proof {
        reveal_with_fuel(reach_upto, 9);
    }
    moves
}

/// The lookup table of the slider on `sq` with mask `mask`: one entry for each packed
/// occupancy of the mask.
fn gen_part(attacks: &Attacks, sq: usize, mask: u64, diagonal: bool) -> (part: Vec<u64>)
    requires
        rays_ok(attacks.rays),
        sq < 64,
        popcount(mask) <= 16,
    ensures
        part_ok(part@, sq as int, mask, diagonal),
{
    let n: u64 = 1u64 << (mask.count() as u64);
    let mut part: Vec<u64> = Vec::new();
    let mut occ: u64 = 0;
    while occ < n
        invariant
            rays_ok(attacks.rays),
            sq < 64,
            popcount(mask) <= 16,
            n == 1u64 << (popcount(mask) as u64),
            occ <= n,
            part@.len() == occ,
            forall|k: int, t: u64| 0 <= k < occ && t < 64 ==> (#[trigger] has_bit(part@[k], t) == slider_reach(
                sq as int,
                deposit_of(k as u64, mask),
                t as int,
                diagonal,
            )),
        decreases n - occ,
    {
        let extracted = insert_bits(mask, occ);
        let moves = slide_moves(attacks, sq, extracted, diagonal);
        proof {
            lemma_deposited_unique(occ, mask, extracted, deposit_of(occ, mask));
        }
        part.push(moves);
        occ = occ + 1;
    }
    part
}

/// The rook mask of `sq`, as the mask of the slider.
fn rook_mask(sq: usize) -> (m: u64)
    requires
        sq < 64,
    ensures
        m == mask_of(sq as int, false),
        is_rook_mask(sq as int, m),
        popcount(m) <= 15,
{
    let m = gen_rook_mov(sq);
    proof {
        assert(is_mask(sq as int, m, false));
        let c = mask_of(sq as int, false);
        lemma_bits_ext(m, c);
        lemma_rook_mask_size(sq as int, m);
    }
    m
}

/// The bishop mask of `sq`, as the mask of the slider.
fn bishop_mask(sq: usize) -> (m: u64)
    requires
        sq < 64,
    ensures
        m == mask_of(sq as int, true),
        is_bishop_mask(sq as int, m),
        popcount(m) <= 16,
{
    let m = gen_bishop_mov(sq);
    proof {
        assert(is_mask(sq as int, m, true));
        let c = mask_of(sq as int, true);
        lemma_bits_ext(m, c);
        lemma_bishop_mask_size(sq as int, m);
    }
    m
}

/// For each square, the rook lookup table: what a rook reaches over each packed occupancy of
/// its mask.
pub fn gen_pext_table_rook() -> (r: Vec<Vec<u64>>)
    ensures
        r@.len() == 64,
        forall|sq: int| 0 <= sq < 64 ==> part_ok(#[trigger] r@[sq]@, sq, mask_of(sq, false), false),
{
    let attacks = Attacks::init();
    let mut lookup_table: Vec<Vec<u64>> = Vec::new();
    let mut sq: usize = 0;
    while sq < 64
        invariant
            sq <= 64,
            rays_ok(attacks.rays),
            lookup_table@.len() == sq,
            forall|q: int| 0 <= q < sq ==> part_ok(#[trigger] lookup_table@[q]@, q, mask_of(q, false), false),
        decreases 64 - sq,
    {
        let mask = rook_mask(sq);
        lookup_table.push(gen_part(&attacks, sq, mask, false));
        sq = sq + 1;
    }
    lookup_table
}

/// For each square, the bishop lookup table: what a bishop reaches over each packed
/// occupancy of its mask.
fn gen_pext_table_bishop() -> (r: Vec<Vec<u64>>)
    ensures
        r@.len() == 64,
        forall|sq: int| 0 <= sq < 64 ==> part_ok(#[trigger] r@[sq]@, sq, mask_of(sq, true), true),
{
    let attacks = Attacks::init();
    let mut lookup_table: Vec<Vec<u64>> = Vec::new();
    let mut sq: usize = 0;
    while sq < 64
        invariant
            sq <= 64,
            rays_ok(attacks.rays),
            lookup_table@.len() == sq,
            forall|q: int| 0 <= q < sq ==> part_ok(#[trigger] lookup_table@[q]@, q, mask_of(q, true), true),
        decreases 64 - sq,
    {
        let mask = bishop_mask(sq);
        lookup_table.push(gen_part(&attacks, sq, mask, true));
        sq = sq + 1;
    }
    lookup_table
}

/// The masks and the lookup tables of the sliding pieces.
pub struct SlideTables {
    pub rook_masks: [u64; 64],
    pub bishop_masks: [u64; 64],
    pub rook_tables: Vec<Vec<u64>>,
    pub bishop_tables: Vec<Vec<u64>>,
}

impl SlideTables {
    /// Each mask is the mask of its square and each table holds what the slider reaches.
    pub open spec fn tables_ok(&self) -> bool {
        &&& self.rook_tables@.len() == 64
        &&& self.bishop_tables@.len() == 64
        &&& forall|sq: int| 0 <= sq < 64 ==> #[trigger] self.rook_masks[sq] == mask_of(sq, false) && is_rook_mask(sq, self.rook_masks[sq]) && part_ok(
            self.rook_tables@[sq]@,
            sq,
            mask_of(sq, false),
            false,
        )
        &&& forall|sq: int| 0 <= sq < 64 ==> #[trigger] self.bishop_masks[sq] == mask_of(sq, true) && is_bishop_mask(sq, self.bishop_masks[sq]) && part_ok(
            self.bishop_tables@[sq]@,
            sq,
            mask_of(sq, true),
            true,
        )
    }

    /// The masks of all squares and their lookup tables.
    pub fn init() -> (r: Self)
        ensures
            r.tables_ok(),
    {
        let mut rook_masks = [0u64; 64];
        let mut bishop_masks = [0u64; 64];
        let mut sq: usize = 0;
        while sq < 64
            invariant
                sq <= 64,
                forall|q: int| 0 <= q < sq ==> #[trigger] rook_masks[q] == mask_of(q, false) && is_rook_mask(q, rook_masks[q]),
                forall|q: int| 0 <= q < sq ==> #[trigger] bishop_masks[q] == mask_of(q, true) && is_bishop_mask(q, bishop_masks[q]),
            decreases 64 - sq,
        {
            rook_masks[sq] = rook_mask(sq);
            bishop_masks[sq] = bishop_mask(sq);
            sq = sq + 1;
        }
        SlideTables { rook_masks, bishop_masks, rook_tables: gen_pext_table_rook(), bishop_tables: gen_pext_table_bishop() }
    }

    /// The squares that a bishop (when `is_bishop` holds) or a rook on `sq` reaches, the
    /// pieces `own` and `enemy` standing on the board, without the squares of `own`: looked
    /// up by the squares of the mask that the pieces occupy.
    pub fn gen_slide_mv(&self, sq: usize, own: u64, enemy: u64, is_bishop: bool) -> (r: u64)
        requires
            self.tables_ok(),
            sq < 64,
        ensures
            forall|t: u64| t < 64 ==> #[trigger] has_bit(r, t) == (slider_reach(sq as int, own | enemy, t as int, is_bishop) && !has_bit(
                own,
                t,
            )),
    {
        let mask = if is_bishop {
            self.bishop_masks[sq]
        } else {
            self.rook_masks[sq]
        };
        let occupancy = own | enemy;
        let key = pext(occupancy, mask);
        proof {
            assert(self.rook_masks[sq as int] == mask_of(sq as int, false));
            assert(self.bishop_masks[sq as int] == mask_of(sq as int, true));
            lemma_extracted_below(occupancy, mask, key);
            assert(key < 65536) by {
                assert(popcount(mask) <= 16);
                assert((1u64 << (popcount(mask) as u64)) <= 65536) by {
                    let p = popcount(mask) as u64;
                    assert(p <= 16 ==> (1u64 << p) <= 65536) by (bit_vector);
                }
            }
            lemma_deposit_of_extracted(occupancy, mask, key);
            if is_bishop {
                lemma_bishop_masked(sq as int, occupancy, mask);
            } else {
                lemma_rook_masked(sq as int, occupancy, mask);
            }
        }
        let entry = if is_bishop {
            self.bishop_tables[sq][key as usize]
        } else {
            self.rook_tables[sq][key as usize]
        };
        proof {
            lemma_bit_ops(entry, !own);
            lemma_bit_ops(own, 0);
        }
        entry & !own
    }
}

} // verus!
