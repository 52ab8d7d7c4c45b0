use vstd::prelude::*;

verus! {

broadcast use vstd::std_specs::bits::axiom_u64_trailing_zeros,
    vstd::std_specs::bits::axiom_u64_leading_zeros;

/// A bitboard: bit `i` stands for square `i` (a1 = 0, h8 = 63).
pub type Bitboard = u64;

/// Bit `i` of the bitboard `b` is set.
pub open spec fn has_bit(b: u64, i: u64) -> bool {
    (b >> i) & 1u64 == 1u64
}

/// Number of set bits of `b` among its `n` lowest bits.
pub open spec fn count_bits(b: u64, n: nat) -> nat
    decreases n,
{
    if n == 0 {
        0
    } else {
        count_bits(b, (n - 1) as nat) + if has_bit(b, (n - 1) as u64) {
            1nat
        } else {
            0nat
        }
    }
}

/// Number of occupied squares of a bitboard.
pub open spec fn popcount(b: u64) -> nat {
    count_bits(b, 64)
}

/// The bitboard that holds the single square `s`.
pub open spec fn sq_bb(s: u64) -> u64 {
    1u64 << s
}

proof fn bv_ops(a: u64, b: u64, i: u64)
    by (bit_vector)
    requires
        i < 64,
    ensures
        ((a | b) >> i) & 1u64 == 1u64 <==> ((a >> i) & 1u64 == 1u64 || (b >> i) & 1u64 == 1u64),
        ((a & b) >> i) & 1u64 == 1u64 <==> ((a >> i) & 1u64 == 1u64 && (b >> i) & 1u64 == 1u64),
        ((a ^ b) >> i) & 1u64 == 1u64 <==> ((a >> i) & 1u64 == 1u64) != ((b >> i) & 1u64
            == 1u64),
        ((!a) >> i) & 1u64 == 1u64 <==> !((a >> i) & 1u64 == 1u64),
{
}

proof fn bv_single(s: u64, i: u64)
    by (bit_vector)
    requires
        i < 64,
        s < 64,
    ensures
        ((1u64 << s) >> i) & 1u64 == 1u64 <==> s == i,
        (0u64 >> i) & 1u64 != 1u64,
        (0xffff_ffff_ffff_ffffu64 >> i) & 1u64 == 1u64,
{
}

proof fn bv_shift(a: u64, k: u64, i: u64)
    by (bit_vector)
    requires
        i < 64,
        k < 64,
    ensures
        ((a << k) >> i) & 1u64 == 1u64 <==> (i >= k && (a >> ((i - k) as u64)) & 1u64 == 1u64),
        ((a >> k) >> i) & 1u64 == 1u64 <==> (i + k < 64 && (a >> ((i + k) as u64)) & 1u64 == 1u64),
{
}

proof fn bv_xor_zero(a: u64, b: u64)
    by (bit_vector)
    ensures
        a ^ b == 0 ==> a == b,
{
}

proof fn bv_clear_smaller(a: u64, r: u64)
    by (bit_vector)
    requires
        r < 64,
        (a >> r) & 1u64 == 1u64,
    ensures
        a & !(1u64 << r) < a,
{
}

/// Bitwise operations act on each square independently.
pub proof fn lemma_bit_ops(a: u64, b: u64)
    ensures
        forall|i: u64| i < 64 ==> (#[trigger] has_bit(a | b, i) <==> (has_bit(a, i) || has_bit(b, i))),
        forall|i: u64| i < 64 ==> (#[trigger] has_bit(a & b, i) <==> (has_bit(a, i) && has_bit(b, i))),
        forall|i: u64| i < 64 ==> (#[trigger] has_bit(a ^ b, i) <==> (has_bit(a, i) != has_bit(b, i))),
        forall|i: u64| i < 64 ==> (#[trigger] has_bit(!a, i) <==> !has_bit(a, i)),
{
    assert forall|i: u64| i < 64 implies (#[trigger] has_bit(a | b, i) <==> (has_bit(a, i)
        || has_bit(b, i))) by {
        bv_ops(a, b, i);
    }
    assert forall|i: u64| i < 64 implies (#[trigger] has_bit(a & b, i) <==> (has_bit(a, i)
        && has_bit(b, i))) by {
        bv_ops(a, b, i);
    }
    assert forall|i: u64| i < 64 implies (#[trigger] has_bit(a ^ b, i) <==> (has_bit(a, i)
        != has_bit(b, i))) by {
        bv_ops(a, b, i);
    }
    assert forall|i: u64| i < 64 implies (#[trigger] has_bit(!a, i) <==> !has_bit(a, i)) by {
        bv_ops(a, b, i);
    }
}

/// The single-square bitboard, the empty and the full bitboard.
pub proof fn lemma_bit_consts()
    ensures
        forall|s: u64, i: u64| s < 64 && i < 64 ==> (#[trigger] has_bit(1u64 << s, i) <==> s == i),
        forall|i: u64| i < 64 ==> !#[trigger] has_bit(0u64, i),
        forall|i: u64| i < 64 ==> #[trigger] has_bit(0xffff_ffff_ffff_ffffu64, i),
{
    assert forall|s: u64, i: u64| s < 64 && i < 64 implies (#[trigger] has_bit(1u64 << s, i)
        <==> s == i) by {
        bv_single(s, i);
    }
    assert forall|i: u64| i < 64 implies !#[trigger] has_bit(0u64, i) by {
        bv_single(0, i);
    }
    assert forall|i: u64| i < 64 implies #[trigger] has_bit(0xffff_ffff_ffff_ffffu64, i) by {
        bv_single(0, i);
    }
}

/// Shifting a bitboard moves every square by the shift amount.
pub proof fn lemma_bit_shift(a: u64, k: u64)
    requires
        k < 64,
    ensures
        forall|i: u64| i < 64 ==> (#[trigger] has_bit(a << k, i) <==> (i >= k && has_bit(a, (i - k) as u64))),
        forall|i: u64| i < 64 ==> (#[trigger] has_bit(a >> k, i) <==> (i + k < 64 && has_bit(a, (i + k) as u64))),
{
    assert forall|i: u64| i < 64 implies (#[trigger] has_bit(a << k, i) <==> (i >= k && has_bit(
        a,
        (i - k) as u64,
    ))) by {
        bv_shift(a, k, i);
    }
    assert forall|i: u64| i < 64 implies (#[trigger] has_bit(a >> k, i) <==> (i + k < 64
        && has_bit(a, (i + k) as u64))) by {
        bv_shift(a, k, i);
    }
}

/// A non-empty bitboard holds a square.
pub proof fn lemma_nonzero_has_bit(a: u64)
    requires
        a != 0,
    ensures
        exists|i: u64| i < 64 && #[trigger] has_bit(a, i),
{
    let t = vstd::std_specs::bits::u64_trailing_zeros(a) as u64;
    assert(has_bit(a, t));
}

/// Two bitboards that hold the same squares are equal.
pub proof fn lemma_bits_ext(a: u64, b: u64)
    requires
        forall|i: u64| i < 64 ==> #[trigger] has_bit(a, i) == has_bit(b, i),
    ensures
        a == b,
{
    lemma_bit_ops(a, b);
    if a ^ b != 0 {
        lemma_nonzero_has_bit(a ^ b);
        let i = choose|i: u64| i < 64 && #[trigger] has_bit(a ^ b, i);
        assert(has_bit(a, i) == has_bit(b, i));
    }
    bv_xor_zero(a, b);
}

/// A bitboard with no square is zero.
pub proof fn lemma_empty_is_zero(a: u64)
    requires
        forall|i: u64| i < 64 ==> !#[trigger] has_bit(a, i),
    ensures
        a == 0,
{
    lemma_bit_consts();
    lemma_bits_ext(a, 0);
}

pub proof fn lemma_count_bits_bound(b: u64, n: nat)
    ensures
        count_bits(b, n) <= n,
    decreases n,
{
    if n > 0 {
        lemma_count_bits_bound(b, (n - 1) as nat);
    }
}

pub trait BitboardTrait: Sized {
    fn get_lsb(&self) -> usize;

    fn get_msb(&self) -> usize;

    fn is_set(&self, sq: usize) -> bool;

    fn set_bit(&mut self, sq: usize)
        requires
            sq < 64,
    ;

    fn clear_bit(&mut self, sq: usize)
        requires
            sq < 64,
    ;

    fn count(&self) -> usize;

    fn pop_lsb(&mut self) -> usize;

    fn next(&mut self) -> Option<usize>;

    fn init(sq: usize) -> Self;
}

impl BitboardTrait for u64 {
    /// Index of the lowest occupied square, 64 for the empty bitboard.
    fn get_lsb(&self) -> (r: usize)
        ensures
            *self == 0 ==> r == 64,
            *self != 0 ==> r < 64 && has_bit(*self, r as u64) && forall|j: u64|
                j < r ==> !#[trigger] has_bit(*self, j),
    {
        self.trailing_zeros() as usize
    }

    /// Index of the highest occupied square, 0 for the empty bitboard.
    fn get_msb(&self) -> (r: usize)
        ensures
            *self == 0 ==> r == 0,
            *self != 0 ==> r < 64 && has_bit(*self, r as u64) && forall|j: u64|
                r < j < 64 ==> !#[trigger] has_bit(*self, j),
    {
        let lz = self.leading_zeros();
        if lz >= 64 {
            0
        } else {
            proof {
                assert(has_bit(*self, (63 - lz) as u64)) by {
                    let x = (*self >> (63 - lz) as u64) & 1u64;
                    assert(x != 0u64 ==> x == 1u64) by (bit_vector)
                        requires x == (*self >> (63 - lz) as u64) & 1u64;
                }
            }
            63 - lz as usize
        }
    }

    /// The square `sq` is occupied.
    fn is_set(&self, sq: usize) -> (r: bool)
        ensures
            r == (sq < 64 && has_bit(*self, sq as u64)),
    {
        if sq >= 64 {
            false
        } else {
            (*self >> sq as u64) & 1 == 1
        }
    }

    /// Adds the square `sq`.
    fn set_bit(&mut self, sq: usize)
        ensures
            *final(self) == *old(self) | sq_bb(sq as u64),
            forall|i: u64| i < 64 ==> #[trigger] has_bit(*final(self), i) == (i == sq || has_bit(*old(self), i)),
    {
        proof {
            lemma_bit_ops(*self, 1u64 << sq as u64);
            lemma_bit_consts();
        }
        *self = *self | (1u64 << sq as u64);
    }

    /// Removes the square `sq`.
    fn clear_bit(&mut self, sq: usize)
        ensures
            *final(self) == *old(self) & !sq_bb(sq as u64),
            forall|i: u64| i < 64 ==> #[trigger] has_bit(*final(self), i) == (i != sq && has_bit(*old(self), i)),
    {
        proof {
            lemma_bit_ops(*self, !(1u64 << sq as u64));
            lemma_bit_ops(1u64 << sq as u64, 0);
            lemma_bit_consts();
        }
        *self = *self & !(1u64 << sq as u64);
    }

    /// Number of occupied squares.
    fn count(&self) -> (r: usize)
        ensures
            r == popcount(*self),
    {
        let mut c: usize = 0;
        let mut i: u64 = 0;
        while i < 64
            invariant
                i <= 64,
                c == count_bits(*self, i as nat),
            decreases 64 - i,
        {
            proof {
                lemma_count_bits_bound(*self, i as nat);
            }
            if (*self >> i) & 1 == 1 {
                c = c + 1;
            }
            i = i + 1;
        }
        c
    }

    /// Removes the lowest occupied square and returns its index (64 for the empty bitboard).
    fn pop_lsb(&mut self) -> (r: usize)
        ensures
            *old(self) == 0 ==> r == 64 && *final(self) == 0,
            *old(self) != 0 ==> r < 64,
            *old(self) != 0 ==> *final(self) < *old(self),
            *old(self) != 0 ==> has_bit(*old(self), r as u64),
            forall|j: u64| j < r ==> !#[trigger] has_bit(*old(self), j),
            forall|i: u64| i < 64 ==> #[trigger] has_bit(*final(self), i) == (i != r && has_bit(*old(self), i)),
    {
        proof {
            lemma_bit_consts();
        }
        let r = self.get_lsb();
        if r < 64 {
            let ghost before = *self;
            self.clear_bit(r);
            proof {
                bv_clear_smaller(before, r as u64);
            }
        }
        r
    }

    /// Iterates over the squares from the lowest: removes and returns the lowest one.
    fn next(&mut self) -> (r: Option<usize>)
        ensures
            *old(self) == 0 ==> r.is_none() && *final(self) == 0,
            *old(self) != 0 ==> r.is_some() && r.unwrap() < 64 && has_bit(*old(self), r.unwrap() as u64)
                && (forall|j: u64| j < r.unwrap() ==> !#[trigger] has_bit(*old(self), j))
                && (forall|i: u64| i < 64 ==> #[trigger] has_bit(*final(self), i) == (i != r.unwrap() && has_bit(*old(self), i))),
    {
        if *self == 0 {
            None
        } else {
            Some(self.pop_lsb())
        }
    }

    /// The bitboard of the single square `sq`.
    fn init(sq: usize) -> (r: u64)
        ensures
            sq < 64 ==> forall|i: u64| i < 64 ==> #[trigger] has_bit(r, i) == (i == sq),
            sq >= 64 ==> r == 0,
    {
        if sq >= 64 {
            0
        } else {
            proof {
                lemma_bit_consts();
            }
            1u64 << sq as u64
        }
    }
}


/// Row (rank) of a square.
pub open spec fn row_of(s: int) -> int {
    s / 8
}

/// Column (file) of a square.
pub open spec fn col_of(s: int) -> int {
    s % 8
}

/// The point (row, col) lies on the board.
pub open spec fn inside(row: int, col: int) -> bool {
    0 <= row < 8 && 0 <= col < 8
}

proof fn bv_file_rank(f: u64, i: u64)
    by (bit_vector)
    requires
        f < 8,
        i < 64,
    ensures
        ((0x0101010101010101u64 << f) >> i) & 1u64 == 1u64 <==> i % 8 == f,
        ((0xFFu64 << (f * 8)) >> i) & 1u64 == 1u64 <==> i / 8 == f,
{
}

/// The bitboard of the file (column) `f`.
pub fn file_bitboard(f: usize) -> (r: u64)
    requires
        f < 8,
    ensures
        forall|i: u64| i < 64 ==> #[trigger] has_bit(r, i) == (i % 8 == f),
{
    proof {
        assert forall|i: u64| i < 64 implies #[trigger] has_bit(0x0101010101010101u64 << f as u64, i)
            == (i % 8 == f) by {
            bv_file_rank(f as u64, i);
        }
    }
    0x0101010101010101u64 << f as u64
}

/// The bitboard of the rank (row) `r`.
pub fn rank_bitboard(rank: usize) -> (r: u64)
    requires
        rank < 8,
    ensures
        forall|i: u64| i < 64 ==> #[trigger] has_bit(r, i) == (i / 8 == rank),
{
    proof {
        assert forall|i: u64| i < 64 implies #[trigger] has_bit(0xFFu64 << (rank as u64 * 8), i)
            == (i / 8 == rank) by {
            bv_file_rank(rank as u64, i);
        }
    }
    0xFFu64 << (rank as u64 * 8)
}

/// Files of the board, from a to h.
#[derive(Debug, PartialEq, Eq, Clone, Copy, Structural)]
pub enum File {
    A,
    B,
    C,
    D,
    E,
    F,
    G,
    H,
}

/// Ranks of the board, from one to eight.
#[derive(Debug, PartialEq, Eq, Clone, Copy, Structural)]
pub enum Rank {
    One,
    Two,
    Three,
    Four,
    Five,
    Six,
    Seven,
    Eight,
}

pub open spec fn rank_index(r: Rank) -> int {
    match r {
        Rank::One => 0,
        Rank::Two => 1,
        Rank::Three => 2,
        Rank::Four => 3,
        Rank::Five => 4,
        Rank::Six => 5,
        Rank::Seven => 6,
        Rank::Eight => 7,
    }
}

pub open spec fn file_index(f: File) -> int {
    match f {
        File::A => 0,
        File::B => 1,
        File::C => 2,
        File::D => 3,
        File::E => 4,
        File::F => 5,
        File::G => 6,
        File::H => 7,
    }
}

impl Rank {
    /// The index of the rank, from 0 (rank one) to 7 (rank eight).
    pub fn idx(&self) -> (r: usize)
        ensures
            r == rank_index(*self),
    {
        match self {
            Rank::One => 0,
            Rank::Two => 1,
            Rank::Three => 2,
            Rank::Four => 3,
            Rank::Five => 4,
            Rank::Six => 5,
            Rank::Seven => 6,
            Rank::Eight => 7,
        }
    }
}

impl File {
    /// The index of the file, from 0 (file a) to 7 (file h).
    pub fn idx(&self) -> (r: usize)
        ensures
            r == file_index(*self),
    {
        match self {
            File::A => 0,
            File::B => 1,
            File::C => 2,
            File::D => 3,
            File::E => 4,
            File::F => 5,
            File::G => 6,
            File::H => 7,
        }
    }
}

/// The rank of the square `sq`.
pub fn get_bit_rank(sq: usize) -> (r: Rank)
    requires
        sq < 64,
    ensures
        rank_index(r) == sq / 8,
{
    match sq / 8 {
        0 => Rank::One,
        1 => Rank::Two,
        2 => Rank::Three,
        3 => Rank::Four,
        4 => Rank::Five,
        5 => Rank::Six,
        6 => Rank::Seven,
        _ => Rank::Eight,
    }
}

/// Row (rank index) of the square.
pub fn get_rank(sq: usize) -> (r: usize)
    ensures
        r == sq / 8,
{
    sq / 8
}

/// Column (file index) of the square.
pub fn get_file(sq: usize) -> (r: usize)
    ensures
        r == sq % 8,
{
    sq % 8
}

/// Square index of the point (row, col).
pub fn position_to_idx(row: i8, col: i8, _unused: Option<bool>) -> (r: i8)
    requires
        -16 <= row <= 15,
        -128 <= row * 8 + col <= 127,
    ensures
        r == row * 8 + col,
{
    row * 8 + col
}

/// The (row, col) point of the square `idx`.
pub fn idx_to_position(idx: usize, _unused: Option<bool>) -> (r: (usize, usize))
    ensures
        r.0 == idx / 8,
        r.1 == idx % 8,
{
    (idx / 8, idx % 8)
}

/// The point (row, col) lies on the board.
pub fn is_inside_board_bounds_row_col(row: i8, col: i8) -> (r: bool)
    ensures
        r == inside(row as int, col as int),
{
    0 <= row && row < 8 && 0 <= col && col < 8
}

/// Adds the point (row, col) to the bitboard when it lies on the board.
pub fn set_bit(bitboard: u64, row: i8, col: i8) -> (r: u64)
    ensures
        forall|i: u64| i < 64 ==> #[trigger] has_bit(r, i) == (has_bit(bitboard, i) || (inside(row as int, col as int) && i == row * 8 + col)),
{
    proof {
        lemma_bit_consts();
    }
    if is_inside_board_bounds_row_col(row, col) {
        let s = (row * 8 + col) as u64;
        proof {
            lemma_bit_ops(bitboard, 1u64 << s);
        }
        bitboard | (1u64 << s)
    } else {
        bitboard
    }
}

/// Index of the lowest occupied square, 64 for the empty bitboard.
pub fn bit_scan_lsb(bitboard: u64) -> (r: usize)
    ensures
        bitboard == 0 ==> r == 64,
        bitboard != 0 ==> r < 64 && has_bit(bitboard, r as u64) && forall|j: u64|
            j < r ==> !#[trigger] has_bit(bitboard, j),
{
    bitboard.get_lsb()
}

/// Index of the highest occupied square, 0 for the empty bitboard.
pub fn bit_scan_msb(bitboard: u64) -> (r: usize)
    ensures
        bitboard == 0 ==> r == 0,
        bitboard != 0 ==> r < 64 && has_bit(bitboard, r as u64) && forall|j: u64|
            r < j < 64 ==> !#[trigger] has_bit(bitboard, j),
{
    bitboard.get_msb()
}

/// The occupied squares of the bitboard, in increasing order.
pub fn extract_all_bits(bitboard: u64) -> (r: Vec<usize>)
    ensures
        forall|i: int, j: int| 0 <= i < j < r.len() ==> r[i] < r[j],
        forall|i: int| 0 <= i < r.len() ==> r[i] < 64 && has_bit(bitboard, r[i] as u64),
        forall|s: u64| s < 64 && has_bit(bitboard, s) ==> r@.contains(s as usize),
        r.len() == popcount(bitboard),
{
    let mut v: Vec<usize> = Vec::new();
    let mut i: usize = 0;
    while i < 64
        invariant
            i <= 64,
            v.len() == count_bits(bitboard, i as nat),
            forall|a: int, b: int| 0 <= a < b < v.len() ==> v[a] < v[b],
            forall|a: int| 0 <= a < v.len() ==> v[a] < i && has_bit(bitboard, v[a] as u64),
            forall|s: u64| s < i && has_bit(bitboard, s) ==> v@.contains(s as usize),
        decreases 64 - i,
    {
        if (bitboard >> i as u64) & 1 == 1 {
            proof {
                lemma_count_bits_bound(bitboard, i as nat);
            }
            let ghost old_v = v@;
            v.push(i);
            proof {
                assert(v@ == old_v.push(i));
                assert forall|s: u64| s < i + 1 && has_bit(bitboard, s) implies v@.contains(s as usize) by {
                    if s < i {
                        let k = choose|k: int| 0 <= k < old_v.len() && old_v[k] == s as usize;
                        assert(v@[k] == s as usize);
                    } else {
                        assert(v@[v.len() - 1] == s as usize);
                    }
                }
            }
        }
        i = i + 1;
    }
    v
}

/// The squares of the four central files are those of files 2 to 5.
pub proof fn lemma_center_files(t: u64)
    requires
        t < 64,
    ensures
        has_bit(0x3C3C_3C3C_3C3C_3C3Cu64, t) == (2 <= t % 8 <= 5),
{
    assert(has_bit(0x3C3C_3C3C_3C3C_3C3Cu64, t) == (2 <= t % 8 <= 5)) by (bit_vector)
        requires
            t < 64,
    ;
}

} // verus!
