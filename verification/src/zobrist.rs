use vstd::prelude::*;
use vstd::wrapping::u64_specs::{wrapping_add, wrapping_mul};
use crate::board::{Board, BoardState};
use crate::piece::{Piece, BLACK};

verus! {

/// Mixing function of the zobrist key generator (splitmix64).
pub open spec fn mix_spec(x: u64) -> u64 {
    let z1 = wrapping_mul(x ^ (x >> 30u64), 0xBF58476D1CE4E5B9u64);
    let z2 = wrapping_mul(z1 ^ (z1 >> 27u64), 0x94D049BB133111EBu64);
    z2 ^ (z2 >> 31u64)
}

/// The `i`-th pseudo random key of the zobrist key table.
pub open spec fn zobrist_spec(i: u64) -> u64 {
    mix_spec(wrapping_add(0x2545F4914F6CDD1Du64, wrapping_mul(i, 0x9E3779B97F4A7C15u64)))
}

/// Table position of the key of `piece` on `sq`.
pub open spec fn piece_key_index(sq: int, piece: int) -> int {
    sq * 14 + piece
}

/// Key of `piece` standing on `sq`.
pub open spec fn piece_key(sq: int, piece: int) -> u64 {
    zobrist_spec(piece_key_index(sq, piece) as u64)
}

/// Key of the side to move when it is black.
pub open spec fn side_key() -> u64 {
    zobrist_spec(896)
}

/// Key of a set of castling rights.
pub open spec fn castle_key(castling: int) -> u64 {
    zobrist_spec((897 + castling) as u64)
}

/// Key of an en passant square.
pub open spec fn ep_key(sq: int) -> u64 {
    zobrist_spec((913 + sq) as u64)
}

/// The `i`-th pseudo random key of the zobrist key table.
pub fn zobrist_value(i: u64) -> (r: u64)
    ensures
        r == zobrist_spec(i),
{
    let x = 0x2545F4914F6CDD1Du64.wrapping_add(i.wrapping_mul(0x9E3779B97F4A7C15u64));
    let z1 = (x ^ (x >> 30u64)).wrapping_mul(0xBF58476D1CE4E5B9u64);
    let z2 = (z1 ^ (z1 >> 27u64)).wrapping_mul(0x94D049BB133111EBu64);
    z2 ^ (z2 >> 31u64)
}

/// Key of `piece` standing on `sq`.
pub fn piece_key_value(sq: usize, piece: usize) -> (r: u64)
    requires
        sq < 64,
        piece < 14,
    ensures
        r == piece_key(sq as int, piece as int),
{
    zobrist_value((sq * 14 + piece) as u64)
}

/// Key of the side to move when it is black.
pub fn side_key_value() -> (r: u64)
    ensures
        r == side_key(),
{
    zobrist_value(896)
}

/// Key of a set of castling rights.
pub fn castle_key_value(castling: u8) -> (r: u64)
    requires
        castling < 16,
    ensures
        r == castle_key(castling as int),
{
    zobrist_value(897 + castling as u64)
}

/// Key of an en passant square.
pub fn ep_key_value(sq: u8) -> (r: u64)
    requires
        sq < 64,
    ensures
        r == ep_key(sq as int),
{
    zobrist_value(913 + sq as u64)
}


/// Key contribution of what stands on square `i`.
pub open spec fn cell_key(i: int, cell: Option<u8>) -> u64 {
    match cell {
        Some(p) => piece_key(i, p as int),
        None => 0,
    }
}

/// Combined key of the pieces on the first `n` squares.
pub open spec fn squares_hash(sq: Seq<Option<u8>>, n: int) -> u64
    decreases n,
{
    if n <= 0 {
        0
    } else {
        squares_hash(sq, n - 1) ^ cell_key(n - 1, sq[n - 1])
    }
}

/// Key of the side to move.
pub open spec fn color_key(color: u8) -> u64 {
    if color == BLACK {
        side_key()
    } else {
        0
    }
}

/// Key of the en passant square, if any.
pub open spec fn opt_ep_key(ep: Option<u8>) -> u64 {
    match ep {
        Some(e) => ep_key(e as int),
        None => 0,
    }
}

/// The zobrist key of a position: its pieces, side to move, castling rights and
/// en passant square.
pub open spec fn position_hash(b: &Board) -> u64 {
    squares_hash(b.squares@, 64) ^ color_key(b.state.color) ^ castle_key(b.state.castling as int)
        ^ opt_ep_key(b.state.ep)
}

/// The key of empty squares is zero.
pub proof fn lemma_hash_empty(sq: Seq<Option<u8>>, n: int)
    requires
        n <= sq.len(),
        forall|i: int| 0 <= i < n ==> #[trigger] sq[i] is None,
    ensures
        squares_hash(sq, n) == 0,
    decreases n,
{
    if n > 0 {
        lemma_hash_empty(sq, n - 1);
        lemma_xor(0, 0, 0);
    }
}

/// Algebra of exclusive or.
pub proof fn lemma_xor(a: u64, b: u64, c: u64)
    by (bit_vector)
    ensures
        (a ^ b) ^ c == a ^ (b ^ c),
        a ^ b == b ^ a,
        a ^ a == 0,
        a ^ 0 == a,
{
}

/// Changing what stands on one square changes the key by the keys of the old and new contents.
pub proof fn lemma_squares_hash_update(sq: Seq<Option<u8>>, k: int, x: Option<u8>, n: int)
    requires
        0 <= k < sq.len(),
        n <= sq.len(),
    ensures
        k < n ==> squares_hash(sq.update(k, x), n) == squares_hash(sq, n) ^ cell_key(k, sq[k]) ^ cell_key(k, x),
        k >= n ==> squares_hash(sq.update(k, x), n) == squares_hash(sq, n),
    decreases n,
{
    if n > 0 {
        lemma_squares_hash_update(sq, k, x, n - 1);
        let h = squares_hash(sq, n - 1);
        let a = cell_key(k, sq[k]);
        let b = cell_key(k, x);
        let c = cell_key(n - 1, sq[n - 1]);
        if k < n - 1 {
            assert(sq.update(k, x)[n - 1] == sq[n - 1]);
            lemma_xor_swap(h, a, b, c);
        } else if k == n - 1 {
            assert(sq.update(k, x)[n - 1] == x);
            lemma_xor_swap(h, a, b, c);
        }
    }
}

proof fn lemma_xor_swap(h: u64, a: u64, b: u64, c: u64)
    by (bit_vector)
    ensures
        ((h ^ a) ^ b) ^ c == ((h ^ c) ^ a) ^ b,
        ((h ^ a) ^ a) ^ b == h ^ b,
{
}

pub trait ZobristKeysTrait {
    fn zb_reset_key(&mut self);

    fn zb_replace_piece(&mut self, from_sq: usize, to_sq: usize, piece: Piece);

    fn zb_toggle_piece(&mut self, sq: usize, piece: Piece)
        requires
            sq < 64,
            piece < 14,
    ;

    fn zb_clr(&mut self);

    fn zb_castling(&mut self);

    fn zb_ep(&mut self);
}


/// Taking the side, castling and en passant keys out of a position key leaves the key of the pieces.
pub proof fn lemma_xor_cancel3(h: u64, a: u64, b: u64, c: u64)
    by (bit_vector)
    ensures
        ((((((h ^ a) ^ b) ^ c) ^ a) ^ b) ^ c) == h,
{
}

impl ZobristKeysTrait for Board {
    /// Takes the keys of the side to move, the castling rights and the en passant square
    /// out of the position key.
    #[verifier::rlimit(30)]
    fn zb_reset_key(&mut self)
        ensures
            old(self).state.castling < 16 && (old(self).state.ep is Some ==> old(self).state.ep->0 < 64) ==> final(self).state.key == old(self).state.key ^ color_key(old(self).state.color) ^ castle_key(old(self).state.castling as int) ^ opt_ep_key(old(self).state.ep),
            final(self).state == (BoardState { key: final(self).state.key, ..old(self).state }),
            final(self).squares == old(self).squares,
            final(self).bitboard == old(self).bitboard,
            final(self).moves@ == old(self).moves@,
            final(self).history@ == old(self).history@,
            final(self).same_tables(old(self)),
    {
        self.zb_clr();
        self.zb_castling();
        self.zb_ep();
    }

    /// Leaves the key as it is.
    fn zb_replace_piece(&mut self, _from_sq: usize, _to_sq: usize, _piece: Piece)
        ensures
            final(self).state == old(self).state,
            final(self).squares == old(self).squares,
            final(self).bitboard == old(self).bitboard,
    {
    }

    /// Toggles the key of `piece` on `sq` in the position key.
    fn zb_toggle_piece(&mut self, sq: usize, piece: Piece)
        ensures
            final(self).state.key == old(self).state.key ^ piece_key(sq as int, piece as int),
            final(self).state == (BoardState { key: final(self).state.key, ..old(self).state }),
            final(self).squares == old(self).squares,
            final(self).bitboard == old(self).bitboard,
            final(self).moves@ == old(self).moves@,
            final(self).history@ == old(self).history@,
            final(self).same_tables(old(self)),
    {
        self.state.key = self.state.key ^ piece_key_value(sq, piece as usize);
    }

    /// Toggles the key of the side to move.
    fn zb_clr(&mut self)
        ensures
            final(self).state.key == old(self).state.key ^ color_key(old(self).state.color),
            final(self).state == (BoardState { key: final(self).state.key, ..old(self).state }),
            final(self).squares == old(self).squares,
            final(self).bitboard == old(self).bitboard,
            final(self).moves@ == old(self).moves@,
            final(self).history@ == old(self).history@,
            final(self).same_tables(old(self)),
    {
        if self.state.color == BLACK {
            self.state.key = self.state.key ^ side_key_value();
        } else {
            proof {
                lemma_xor(self.state.key, 0, 0);
            }
        }
    }

    /// Toggles the key of the castling rights.
    fn zb_castling(&mut self)
        ensures
            old(self).state.castling < 16 ==> final(self).state.key == old(self).state.key ^ castle_key(old(self).state.castling as int),
            final(self).state == (BoardState { key: final(self).state.key, ..old(self).state }),
            final(self).squares == old(self).squares,
            final(self).bitboard == old(self).bitboard,
            final(self).moves@ == old(self).moves@,
            final(self).history@ == old(self).history@,
            final(self).same_tables(old(self)),
    {
        if self.state.castling < 16 {
            self.state.key = self.state.key ^ castle_key_value(self.state.castling);
        }
    }

    /// Toggles the key of the en passant square, if any.
    fn zb_ep(&mut self)
        ensures
            (old(self).state.ep is Some ==> old(self).state.ep->0 < 64) ==> final(self).state.key == old(self).state.key ^ opt_ep_key(old(self).state.ep),
            final(self).state == (BoardState { key: final(self).state.key, ..old(self).state }),
            final(self).squares == old(self).squares,
            final(self).bitboard == old(self).bitboard,
            final(self).moves@ == old(self).moves@,
            final(self).history@ == old(self).history@,
            final(self).same_tables(old(self)),
    {
        if let Some(idx) = self.state.ep {
            if idx < 64 {
                self.state.key = self.state.key ^ ep_key_value(idx);
            }
        } else {
            proof {
                lemma_xor(self.state.key, 0, 0);
            }
        }
    }
}

} // verus!
