use vstd::prelude::*;
use crate::bits::{has_bit, BitboardTrait};
use crate::board::Board;
use crate::piece::{Piece, PieceTrait, piece_color, valid_piece, lemma_piece_swap};
use crate::bits::lemma_bits_ext;

verus! {

/// The square on the same file and the mirrored rank.
pub open spec fn flip_sq(s: int) -> int {
    (7 - s / 8) * 8 + s % 8
}

/// The same piece kind of the other side.
pub open spec fn piece_swap(p: u8) -> u8 {
    p ^ 1
}

/// The content of a square seen from the other side.
pub open spec fn swap_content(c: Option<Piece>) -> Option<Piece> {
    match c {
        Some(p) => Some(piece_swap(p)),
        None => None,
    }
}

/// `a` is `b` with its ranks mirrored.
pub open spec fn flipped(a: u64, b: u64) -> bool {
    forall|t: int| 0 <= t < 64 ==> (#[trigger] has_bit(a, t as u64) <==> has_bit(b, flip_sq(t) as u64))
}

/// `b` is the position `a` seen from the other side: ranks mirrored, colors swapped,
/// the other side to move; the rights, the key and the tables are kept.
pub open spec fn mirrored(a: &Board, b: &Board) -> bool {
    &&& forall|s: int| 0 <= s < 64 ==> #[trigger] b.squares[s] == swap_content(a.squares[flip_sq(s)])
    &&& forall|k: int| 0 <= k < 7 ==> flipped(#[trigger] b.bitboard[2 * k], a.bitboard[2 * k + 1])
    &&& forall|k: int| 0 <= k < 7 ==> flipped(#[trigger] b.bitboard[2 * k + 1], a.bitboard[2 * k])
    &&& b.state.color == (a.state.color ^ 1)
    &&& b.state.ep == match a.state.ep {
        Some(e) => Some(flip_sq(e as int) as u8),
        None => None,
    }
    &&& b.state.castling == a.state.castling
    &&& b.state.key == a.state.key
    &&& b.state.half_move == a.state.half_move
    &&& b.state.full_move == a.state.full_move
    &&& b.state.pk_key == a.state.pk_key
    &&& b.state.phase == a.state.phase
    &&& b.moves@ == a.moves@
    &&& b.history@ == a.history@
    &&& b.same_tables(a)
}

/// Mirroring a square twice gives it back, and keeps it on the board.
pub proof fn lemma_flip_sq(s: int)
    requires
        0 <= s < 64,
    ensures
        0 <= flip_sq(s) < 64,
        flip_sq(flip_sq(s)) == s,
{
}

/// The bitboard with its ranks mirrored: the byte order of the word reversed.
pub fn flip_vertical(bb: u64) -> (r: u64)
    ensures
        flipped(r, bb),
{
    let mut r: u64 = 0;
    let mut s: usize = 0;
    proof {
        crate::bits::lemma_bit_consts();
    }
    while s < 64
        invariant
            s <= 64,
            forall|q: int| 0 <= q < s ==> (has_bit(r, flip_sq(q) as u64) <==> #[trigger] has_bit(bb, q as u64)),
            forall|t: int| 0 <= t < 64 && #[trigger] has_bit(r, t as u64) ==> flip_sq(t) < s,
        decreases 64 - s,
    {
        let t = (7 - s / 8) * 8 + s % 8;
        proof {
            lemma_flip_sq(s as int);
        }
        if bb.is_set(s) {
            let ghost r0 = r;
            r.set_bit(t);
            proof {
                assert forall|q: int| 0 <= q <= s implies (has_bit(r, flip_sq(q) as u64) <==> #[trigger] has_bit(bb, q as u64)) by {
                    lemma_flip_sq(q);
                    assert(has_bit(r, flip_sq(q) as u64) == (flip_sq(q) == t || has_bit(r0, flip_sq(q) as u64)));
                }
                assert forall|u: int| 0 <= u < 64 && #[trigger] has_bit(r, u as u64) implies flip_sq(u) < s + 1 by {
                    lemma_flip_sq(u);
                    assert(has_bit(r, u as u64) == (u == t || has_bit(r0, u as u64)));
                }
            }
        } else {
            proof {
                assert forall|q: int| 0 <= q <= s implies (has_bit(r, flip_sq(q) as u64) <==> #[trigger] has_bit(bb, q as u64)) by {
                    lemma_flip_sq(q);
                    if q < s {
                    } else {
                        if has_bit(r, flip_sq(q) as u64) {
                            lemma_flip_sq(flip_sq(q));
                        }
                    }
                }
            }
        }
        s = s + 1;
    }
    proof {
        assert forall|t: int| 0 <= t < 64 implies (#[trigger] has_bit(r, t as u64) <==> has_bit(bb, flip_sq(t) as u64)) by {
            lemma_flip_sq(t);
            assert(has_bit(r, flip_sq(flip_sq(t)) as u64) <==> has_bit(bb, flip_sq(t) as u64));
        }
    }
    r
}

impl Board {
    /// Turns the position into the one seen from the other side: every piece moves to the
    /// mirrored rank and changes color, and the other side is to move.
    pub fn mirror(&mut self)
        requires
            old(self).state.ep is Some ==> old(self).state.ep->0 < 64,
        ensures
            mirrored(&*old(self), &*final(self)),
            old(self).pieces_ok() ==> final(self).pieces_ok(),
    {
        let ghost b0 = *self;
        let mut idx: usize = 0;
        while idx < 32
            invariant
                idx <= 32,
                forall|s: int| 0 <= s < idx ==> #[trigger] self.squares[s] == swap_content(b0.squares[flip_sq(s)]),
                forall|s: int| 0 <= s < idx ==> #[trigger] self.squares[flip_sq(s)] == swap_content(b0.squares[s]),
                forall|s: int| idx <= s < 32 ==> #[trigger] self.squares[s] == b0.squares[s],
                forall|s: int| idx <= s < 32 ==> #[trigger] self.squares[flip_sq(s)] == b0.squares[flip_sq(s)],
                self.bitboard == b0.bitboard,
                self.state == b0.state,
                self.moves@ == b0.moves@,
                self.history@ == b0.history@,
                self.same_tables(&b0),
            decreases 32 - idx,
        {
            let other = (7 - idx / 8) * 8 + idx % 8;
            proof {
                lemma_flip_sq(idx as int);
            }
            let first_piece = match self.squares[idx] {
                Some(p) => Some(p.opp()),
                None => None,
            };
            let second_piece = match self.squares[other] {
                Some(p) => Some(p.opp()),
                None => None,
            };
            self.squares[idx] = second_piece;
            self.squares[other] = first_piece;
            idx = idx + 1;
        }
        proof {
            assert forall|s: int| 0 <= s < 64 implies #[trigger] self.squares[s] == swap_content(b0.squares[flip_sq(s)]) by {
                lemma_flip_sq(s);
                if s >= 32 {
                    let q = flip_sq(s);
                    assert(self.squares[flip_sq(q)] == swap_content(b0.squares[q]));
                }
            }
        }
        let ghost b1 = *self;
        let mut k: usize = 0;
        while k < 7
            invariant
                k <= 7,
                forall|j: int| 0 <= j < k ==> flipped(#[trigger] self.bitboard[2 * j], b0.bitboard[2 * j + 1]),
                forall|j: int| 0 <= j < k ==> flipped(#[trigger] self.bitboard[2 * j + 1], b0.bitboard[2 * j]),
                forall|i: int| 2 * k <= i < 14 ==> #[trigger] self.bitboard[i] == b0.bitboard[i],
                self.squares == b1.squares,
                self.state == b0.state,
                self.moves@ == b0.moves@,
                self.history@ == b0.history@,
                self.same_tables(&b0),
            decreases 7 - k,
        {
            let bb = self.bitboard[2 * k];
            self.bitboard[2 * k] = flip_vertical(self.bitboard[2 * k + 1]);
            self.bitboard[2 * k + 1] = flip_vertical(bb);
            k = k + 1;
        }
        self.state.color = self.state.color.opp();
        self.state.ep = match self.state.ep {
            Some(sq) => Some(((7 - sq / 8) * 8 + sq % 8) as u8),
            None => None,
        };
        proof {
            if let Some(e) = b0.state.ep {
                lemma_flip_sq(e as int);
            }
            if b0.pieces_ok() {
                lemma_mirror_pieces(&b0, &*self);
            }
        }
    }
}

/// Mirroring keeps the squares and the bitboards in agreement.
proof fn lemma_mirror_pieces(a: &Board, b: &Board)
    requires
        a.pieces_ok(),
        forall|s: int| 0 <= s < 64 ==> #[trigger] b.squares[s] == swap_content(a.squares[flip_sq(s)]),
        forall|k: int| 0 <= k < 7 ==> flipped(#[trigger] b.bitboard[2 * k], a.bitboard[2 * k + 1]),
        forall|k: int| 0 <= k < 7 ==> flipped(#[trigger] b.bitboard[2 * k + 1], a.bitboard[2 * k]),
    ensures
        b.pieces_ok(),
{
    assert forall|s: int| 0 <= s < 64 && #[trigger] b.squares[s] is Some implies valid_piece(b.squares[s]->0) by {
        lemma_flip_sq(s);
        let q = a.squares[flip_sq(s)]->0;
        lemma_piece_swap(q);
    }
    assert forall|p: int, t: u64| 2 <= p < 14 && t < 64 implies (#[trigger] has_bit(b.bitboard[p], t) <==> b.squares[t as int] == Some(p as u8)) by {
        lemma_flip_sq(t as int);
        let f = flip_sq(t as int);
        let k = p / 2;
        if p % 2 == 0 {
            assert(flipped(b.bitboard[2 * k], a.bitboard[2 * k + 1]));
            assert(has_bit(b.bitboard[p], (t as int) as u64) <==> has_bit(a.bitboard[p + 1], f as u64));
        } else {
            assert(flipped(b.bitboard[2 * k + 1], a.bitboard[2 * k]));
            assert(has_bit(b.bitboard[p], (t as int) as u64) <==> has_bit(a.bitboard[p - 1], f as u64));
        }
        if let Some(q) = a.squares[f] {
            lemma_piece_swap(q);
        }
    }
    assert forall|c: int, t: u64| 0 <= c < 2 && t < 64 implies (#[trigger] has_bit(b.bitboard[c], t) <==> (b.squares[t as int] is Some && piece_color(b.squares[t as int]->0) == c)) by {
        lemma_flip_sq(t as int);
        let f = flip_sq(t as int);
        if c == 0 {
            assert(flipped(b.bitboard[2 * 0int], a.bitboard[2 * 0int + 1]));
            assert(has_bit(b.bitboard[c], (t as int) as u64) <==> has_bit(a.bitboard[1], f as u64));
        } else {
            assert(flipped(b.bitboard[2 * 0int + 1], a.bitboard[2 * 0int]));
            assert(has_bit(b.bitboard[c], (t as int) as u64) <==> has_bit(a.bitboard[0], f as u64));
        }
        if let Some(q) = a.squares[f] {
            lemma_piece_swap(q);
        }
    }
}

/// Mirroring twice gives back the pieces, the side to move and the en passant square.
pub proof fn lemma_mirror_twice(a: &Board, b: &Board, c: &Board)
    requires
        mirrored(a, b),
        mirrored(b, c),
        a.state.ep is Some ==> a.state.ep->0 < 64,
        a.state.color < 2,
    ensures
        c.squares == a.squares,
        c.bitboard == a.bitboard,
        c.state == a.state,
{
    assert forall|s: int| 0 <= s < 64 implies #[trigger] c.squares[s] == a.squares[s] by {
        lemma_flip_sq(s);
        if let Some(p) = a.squares[s] {
            assert((p ^ 1u8) ^ 1u8 == p) by (bit_vector);
        }
    }
    assert(c.squares =~= a.squares);
    assert forall|i: int| 0 <= i < 14 implies #[trigger] c.bitboard[i] == a.bitboard[i] by {
        let k = i / 2;
        assert forall|u: u64| u < 64 implies #[trigger] has_bit(c.bitboard[i], u) == has_bit(a.bitboard[i], u) by {
            let t = u as int;
            lemma_flip_sq(t);
            if i % 2 == 0 {
                assert(flipped(c.bitboard[2 * k], b.bitboard[2 * k + 1]));
                assert(flipped(b.bitboard[2 * k + 1], a.bitboard[2 * k]));
                assert(has_bit(c.bitboard[i], t as u64) == has_bit(b.bitboard[i + 1], flip_sq(t) as u64));
            } else {
                assert(flipped(c.bitboard[2 * k + 1], b.bitboard[2 * k]));
                assert(flipped(b.bitboard[2 * k], a.bitboard[2 * k + 1]));
                assert(has_bit(c.bitboard[i], t as u64) == has_bit(b.bitboard[i - 1], flip_sq(t) as u64));
            }
        }
        lemma_bits_ext(c.bitboard[i], a.bitboard[i]);
    }
    assert(c.bitboard =~= a.bitboard);
    if let Some(e) = a.state.ep {
        lemma_flip_sq(e as int);
    }
    let x = a.state.color;
    assert((x ^ 1u8) ^ 1u8 == x) by (bit_vector);
}


} // verus!
