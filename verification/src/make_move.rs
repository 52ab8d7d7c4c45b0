use vstd::prelude::*;
use crate::bits::{has_bit, sq_bb, lemma_bit_ops, lemma_bit_consts, BitboardTrait};
use crate::board::{Board, BoardState, cells_ok};
use crate::piece::{Piece, PieceTrait, Color, ColorTrait, valid_piece, piece_color, piece_kind, opp_color, PAWN, KING, ROOK, WHITE, BLACK, WHITE_PAWN, BLACK_PAWN};
use crate::zobrist::{piece_key, piece_key_value, squares_hash, cell_key, lemma_squares_hash_update, lemma_xor, lemma_xor_cancel3, color_key, castle_key, opt_ep_key, position_hash, ZobristKeysTrait};
use crate::castling::{Castling, cr_has, castle_right, castle_rook_home, castle_king_home, castle_color, rook_squares, castle_data, rook_sq, lemma_rights_bits, CastlingRightsTrait};
use crate::moves::{Move, Flag};
use crate::mv_gen::{sq_attacked, attacker_of, attackers, BoardGenMoveTrait};

verus! {

/// The bitboards after the squares of `m` are toggled in the bitboard of `p` and in that of its color.
pub open spec fn toggled(bb: Seq<u64>, p: int, m: u64) -> Seq<u64> {
    let b1 = bb.update(p, bb[p] ^ m);
    b1.update(p % 2, b1[p % 2] ^ m)
}

/// The bitboards after the square `s` is added to the bitboard of `p` and to that of its color.
pub open spec fn with_square(bb: Seq<u64>, p: int, s: u64) -> Seq<u64> {
    let b1 = bb.update(p, bb[p] | sq_bb(s));
    b1.update(p % 2, b1[p % 2] | sq_bb(s))
}

/// The bitboards after the square `s` is removed from the bitboard of `p` and from that of its color.
pub open spec fn without_square(bb: Seq<u64>, p: int, s: u64) -> Seq<u64> {
    let b1 = bb.update(p, bb[p] & !sq_bb(s));
    b1.update(p % 2, b1[p % 2] & !sq_bb(s))
}

/// Everything but the pieces, the bitboards and the key is as in `old`.
pub open spec fn only_pieces_changed(new: &Board, old: &Board) -> bool {
    &&& new.moves@ == old.moves@
    &&& new.history@ == old.history@
    &&& new.state == BoardState { key: new.state.key, ..old.state }
    &&& new.same_tables(old)
}

/// Square of the pawn taken en passant by the move.
pub open spec fn ep_victim(mv: Move) -> int {
    if piece_color(mv.piece) == WHITE {
        mv.to - 8
    } else {
        mv.to + 8
    }
}

/// The squares after the move is played on `s`.
pub open spec fn moved_squares(s: Seq<Option<u8>>, mv: Move) -> Seq<Option<u8>> {
    let from = mv.from as int;
    let to = mv.to as int;
    let p = mv.piece;
    let c = piece_color(p) as int;
    match mv.flag {
        Flag::Quiet | Flag::Capture(_) => s.update(from, None).update(to, Some(p)),
        Flag::EP => s.update(from, None).update(to, Some(p)).update(ep_victim(mv), None),
        Flag::Promotion(q, _) => s.update(from, None).update(to, Some(q)),
        Flag::KingCastle => s.update(from, None).update(to, Some(p)).update(rook_squares(c, 0).0, None).update(
            rook_squares(c, 0).1,
            Some((ROOK + c) as u8),
        ),
        Flag::QueenCastle => s.update(from, None).update(to, Some(p)).update(rook_squares(c, 1).0, None).update(
            rook_squares(c, 1).1,
            Some((ROOK + c) as u8),
        ),
        Flag::NullMove => s,
    }
}

/// A pawn move of two squares forward from its start row over an empty square.
pub open spec fn double_push_ok(b: &Board, mv: Move) -> bool {
    let from = mv.from as int;
    let to = mv.to as int;
    ||| (b.state.color == WHITE && to == from + 16 && from / 8 == 1 && b.squares[from + 8] is None)
    ||| (b.state.color == BLACK && to == from - 16 && from / 8 == 6 && b.squares[from - 8] is None)
}

/// The move can be played on the board: the moving piece of the side to move stands on `from`,
/// and the squares involved hold what the flag says.
pub open spec fn move_applicable(b: &Board, mv: Move) -> bool {
    let from = mv.from as int;
    let to = mv.to as int;
    let p = mv.piece;
    let c = b.state.color;
    &&& from < 64 && to < 64 && from != to
    &&& valid_piece(p) && piece_color(p) == c
    &&& b.squares[from] == Some(p)
    &&& (piece_kind(p) == PAWN && (from - to == 16 || to - from == 16) ==> mv.flag is Quiet && double_push_ok(b, mv))
    &&& match mv.flag {
        Flag::Quiet => b.squares[to] is None,
        Flag::Capture(q) => b.squares[to] == Some(q) && valid_piece(q) && piece_color(q) != c,
        Flag::EP => piece_kind(p) == PAWN && b.state.ep == Some(mv.to),
        Flag::Promotion(q, cap) => piece_kind(p) == PAWN && valid_piece(q) && piece_color(q) == c && match cap {
            None => b.squares[to] is None,
            Some(x) => b.squares[to] == Some(x) && valid_piece(x) && piece_color(x) != c,
        },
        Flag::KingCastle => p == KING + c && from == castle_king_home(2 * c) && to == from + 2 && b.squares[to] is None
            && b.squares[rook_squares(c as int, 0).0] == Some((ROOK + c) as u8) && b.squares[rook_squares(c as int, 0).1] is None,
        Flag::QueenCastle => p == KING + c && from == castle_king_home(2 * c) && to == from - 2 && b.squares[to] is None
            && b.squares[rook_squares(c as int, 1).0] == Some((ROOK + c) as u8) && b.squares[rook_squares(c as int, 1).1] is None,
        Flag::NullMove => false,
    }
}

/// The castling rights that remain after the pieces stand as in the bitboards `bb`: a right
/// stays while its king and rook are on their home squares; other bits are kept.
pub open spec fn rights_after(old_rights: u8, bb: Seq<u64>, new_rights: u8) -> bool {
    &&& new_rights >> 4u8 == old_rights >> 4u8
    &&& forall|i: int| 0 <= i < 4 ==> (#[trigger] cr_has(new_rights, castle_right(i)) <==> (cr_has(old_rights, castle_right(i))
        && has_bit(bb[ROOK + castle_color(i)], castle_rook_home(i) as u64) && has_bit(bb[KING + castle_color(i)], castle_king_home(i) as u64)))
}

/// The en passant square after the move: the square a pawn passed over when moving two squares.
pub open spec fn ep_after(mv: Move) -> Option<u8> {
    if piece_kind(mv.piece) == PAWN && (mv.from - mv.to == 16 || mv.to - mv.from == 16) {
        Some((mv.to + 16 * piece_color(mv.piece) - 8) as u8)
    } else {
        None
    }
}

/// The half move clock after the move: reset by pawn moves, captures and promotions.
pub open spec fn half_move_after(h: u8, mv: Move) -> u8 {
    if piece_kind(mv.piece) == PAWN || mv.flag is Capture || mv.flag is EP || mv.flag is Promotion {
        0
    } else {
        (h + 1) as u8
    }
}

/// The state after the move, given the bitboards after it and the length of the history after it.
pub open spec fn state_after(old: BoardState, mv: Move, bb: Seq<u64>, hist_len: int, new: BoardState) -> bool {
    &&& new.color == opp_color(old.color)
    &&& rights_after(old.castling, bb, new.castling)
    &&& new.ep == ep_after(mv)
    &&& new.half_move == half_move_after(old.half_move, mv)
    &&& new.full_move == ((hist_len as u16) / 2 + 1) as u16
    &&& new.pk_key == old.pk_key
    &&& new.phase == old.phase
}

/// `new` is `old` after the move `mv`.
#[verifier::opaque]
pub open spec fn made(old: &Board, mv: Move, new: &Board) -> bool {
    &&& new.squares@ == moved_squares(old.squares@, mv)
    &&& new.wf()
    &&& new.history@ == old.history@.push(old.state)
    &&& new.moves@ == old.moves@.push(mv)
    &&& state_after(old.state, mv, new.bitboard@, new.history@.len() as int, new.state)
    &&& (old.state.key == position_hash(old) ==> new.state.key == position_hash(new))
    &&& new.same_tables(old)
}

/// `new` holds the same position, moves and history as `old`.
pub open spec fn same_position(new: &Board, old: &Board) -> bool {
    &&& new.squares == old.squares
    &&& new.bitboard == old.bitboard
    &&& new.state == old.state
    &&& new.moves@ == old.moves@
    &&& new.history@ == old.history@
    &&& new.same_tables(old)
}

/// The squares before the move `mv` was played, given the squares after it.
pub open spec fn unmoved_squares(s: Seq<Option<u8>>, mv: Move) -> Seq<Option<u8>> {
    let from = mv.from as int;
    let to = mv.to as int;
    let p = mv.piece;
    let c = piece_color(p) as int;
    match mv.flag {
        Flag::Quiet => s.update(to, None).update(from, Some(p)),
        Flag::Capture(q) => s.update(to, None).update(from, Some(p)).update(to, Some(q)),
        Flag::EP => s.update(to, None).update(from, Some(p)).update(ep_victim(mv), Some((PAWN + 1 - c) as u8)),
        Flag::Promotion(q, cap) => match cap {
            Some(x) => s.update(to, None).update(to, Some(x)).update(from, Some(p)),
            None => s.update(to, None).update(from, Some(p)),
        },
        Flag::KingCastle => s.update(to, None).update(from, Some(p)).update(rook_squares(c, 0).1, None).update(
            rook_squares(c, 0).0,
            Some((ROOK + c) as u8),
        ),
        Flag::QueenCastle => s.update(to, None).update(from, Some(p)).update(rook_squares(c, 1).1, None).update(
            rook_squares(c, 1).0,
            Some((ROOK + c) as u8),
        ),
        Flag::NullMove => s,
    }
}

/// Taking back `mv` on the board never puts a piece on an occupied square nor takes one
/// from an empty square.
pub open spec fn undo_safe(b: &Board, mv: Move) -> bool {
    let from = mv.from as int;
    let to = mv.to as int;
    let c = piece_color(mv.piece) as int;
    &&& from < 64 && to < 64 && mv.piece < 14
    &&& match mv.flag {
        Flag::Capture(q) => q < 14 && from != to,
        Flag::EP => 8 <= to + 16 * c && ep_victim(mv) < 64 && ep_victim(mv) != from && (ep_victim(mv) == to
            || b.squares[ep_victim(mv)] is None),
        Flag::Promotion(q, cap) => q < 14 && b.squares[to] is Some && (match cap {
            Some(x) => x < 14,
            None => true,
        }) && (if from == to {
            cap is None
        } else {
            b.squares[from] is None
        }),
        _ => true,
    }
}

/// The squares `s` look as they do right after `mv` was played: the moved pieces stand on
/// their target squares and the squares they left are empty.
pub open spec fn undo_fits(s: Seq<Option<Piece>>, mv: Move) -> bool {
    let from = mv.from as int;
    let to = mv.to as int;
    let p = mv.piece;
    let c = piece_color(p) as int;
    &&& from < 64 && to < 64 && from != to && valid_piece(p)
    &&& s[from] is None
    &&& match mv.flag {
        Flag::Quiet => s[to] == Some(p),
        Flag::Capture(q) => s[to] == Some(p) && valid_piece(q),
        Flag::EP => s[to] == Some(p) && 0 <= ep_victim(mv) < 64 && ep_victim(mv) != from && ep_victim(mv) != to
            && s[ep_victim(mv)] is None,
        Flag::Promotion(q, cap) => s[to] == Some(q) && valid_piece(q) && match cap {
            Some(x) => valid_piece(x),
            None => true,
        },
        Flag::KingCastle => s[to] == Some(p) && s[rook_squares(c, 0).1] == Some((ROOK + c) as u8)
            && s[rook_squares(c, 0).0] is None && rook_squares(c, 0).0 != from && rook_squares(c, 0).0 != to
            && rook_squares(c, 0).1 != from && rook_squares(c, 0).1 != to,
        Flag::QueenCastle => s[to] == Some(p) && s[rook_squares(c, 1).1] == Some((ROOK + c) as u8)
            && s[rook_squares(c, 1).0] is None && rook_squares(c, 1).0 != from && rook_squares(c, 1).0 != to
            && rook_squares(c, 1).1 != from && rook_squares(c, 1).1 != to,
        Flag::NullMove => true,
    }
}

/// The board looks as it does right after `mv` was played.
pub open spec fn undo_ok(b: &Board, mv: Move) -> bool {
    undo_fits(b.squares@, mv)
}

/// `new` is `old` with its last move taken back (or `old` itself when no move was played).
pub open spec fn undone(old: &Board, new: &Board) -> bool {
    if old.moves@.len() == 0 {
        same_position(new, old)
    } else {
        let mv = old.moves@.last();
        &&& new.squares@ == unmoved_squares(old.squares@, mv)
        &&& new.state == old.history@.last()
        &&& new.moves@ == old.moves@.drop_last()
        &&& new.history@ == old.history@.drop_last()
        &&& new.same_tables(old)
        &&& (old.pieces_ok() && undo_ok(old, mv) ==> new.pieces_ok())
    }
}

/// `s` is the lowest square of the bitboard `b`.
pub open spec fn is_lowest(b: u64, s: u64) -> bool {
    &&& s < 64
    &&& has_bit(b, s)
    &&& forall|j: u64| j < s ==> !#[trigger] has_bit(b, j)
}

/// With the pieces as in `bb`, the king of the side `c` (the lowest one, should there be
/// several) is attacked.
pub open spec fn bb_king_attacked(bb: [u64; 14], c: u8) -> bool {
    exists|s: u64| #[trigger] is_lowest(bb[KING + c], s) && sq_attacked(bb, s as int, c)
}

/// The king of the side `c` (the lowest one, should there be several) is attacked.
pub open spec fn king_attacked(b: &Board, c: u8) -> bool {
    bb_king_attacked(b.bitboard, c)
}

/// The move can be made on the board: the position is consistent, the move fits it and the
/// side to move has a king.
#[verifier::opaque]
pub open spec fn can_make_spec(b: &Board, mv: Move) -> bool {
    &&& b.wf()
    &&& move_applicable(b, mv)
    &&& b.has_king(b.state.color as int)
    &&& b.state.half_move < 255
}

/// The pieces of the move can be moved on the board.
#[verifier::opaque]
pub open spec fn pieces_ready(b: &Board, mv: Move) -> bool {
    &&& b.pieces_ok()
    &&& b.ep_ok()
    &&& move_applicable(b, mv)
}

/// The state can be advanced by the move without overflow.
pub open spec fn state_ready_spec(b: &Board, mv: Move) -> bool {
    &&& b.state.half_move < 255
    &&& mv.piece < 16
    &&& (piece_kind(mv.piece) == PAWN && (mv.from - mv.to == 16 || mv.to - mv.from == 16) ==> 8 <= mv.to + 16
        * piece_color(mv.piece) <= 255)
}

/// The last move can be taken back without breaking a rule of the board.
pub open spec fn can_undo_spec(b: &Board) -> bool {
    &&& (b.moves@.len() == 0) == (b.history@.len() == 0)
    &&& b.moves@.len() > 0 ==> undo_safe(b, b.moves@.last())
}

pub trait BoardMoveTrait {
    /// The square `sq` holds no piece.
    spec fn sq_empty_at(&self, sq: int) -> bool;

    /// The move can be made on the board.
    spec fn can_make(&self, mv: Move) -> bool;

    /// The state can be advanced by the move.
    spec fn state_ready(&self, mv: Move) -> bool;

    /// The last move can be taken back.
    spec fn can_undo(&self) -> bool;

    /// Some state has been saved.
    spec fn has_history(&self) -> bool;

    fn make_move(&mut self, mv: &Move) -> bool
        requires
            old(self).can_make(*mv),
    ;

    fn undo_move(&mut self)
        requires
            old(self).can_undo(),
    ;

    fn make_state(&mut self, mv: &Move)
        requires
            old(self).state_ready(*mv),
    ;

    fn undo_state(&mut self)
        requires
            old(self).has_history(),
    ;

    fn quiet_mv(&mut self, from_sq: usize, to_sq: usize, piece: Piece)
        requires
            from_sq < 64,
            to_sq < 64,
            piece < 14,
    ;

    fn add_piece(&mut self, sq: usize, piece: Piece)
        requires
            sq < 64,
            piece < 14,
            old(self).sq_empty_at(sq as int),
    ;

    fn clear_piece(&mut self, sq: usize, piece: Piece)
        requires
            sq < 64,
            piece < 14,
            !old(self).sq_empty_at(sq as int),
    ;
}

pub(crate) proof fn lemma_pieces_after_toggle(old_sq: [Option<Piece>; 64], old_bb: [u64; 14], new_sq: [Option<Piece>; 64], new_bb: [u64; 14], from: u64, to: u64, p: u8)
    requires
        cells_ok(old_sq, old_bb),
        valid_piece(p),
        from < 64,
        to < 64,
        from != to,
        old_sq[from as int] == Some(p),
        old_sq[to as int] is None,
        new_sq@ == old_sq@.update(from as int, None).update(to as int, Some(p)),
        new_bb@ == toggled(old_bb@, p as int, sq_bb(to) | sq_bb(from)),
    ensures
        cells_ok(new_sq, new_bb),
{
    lemma_bit_consts();
    lemma_bit_ops(sq_bb(to), sq_bb(from));
    let m = sq_bb(to) | sq_bb(from);
    let c = p % 2;
    lemma_bit_ops(old_bb[p as int], m);
    lemma_bit_ops(old_bb[c as int], m);
    assert forall|q: int, s: u64| 2 <= q < 14 && s < 64 implies (#[trigger] has_bit(new_bb[q], s) <==> new_sq[s as int] == Some(q as u8)) by {
        if q == p {
            assert(new_bb[q] == old_bb[q] ^ m);
        } else {
            assert(new_bb[q] == old_bb[q]);
        }
    }
    assert forall|k: int, s: u64| 0 <= k < 2 && s < 64 implies (#[trigger] has_bit(new_bb[k], s) <==> (new_sq[s as int] is Some && piece_color(new_sq[s as int]->0) == k)) by {
        if k == c {
            assert(new_bb[k] == old_bb[k] ^ m);
        } else {
            assert(new_bb[k] == old_bb[k]);
        }
    }
}

pub(crate) proof fn lemma_pieces_after_add(old_sq: [Option<Piece>; 64], old_bb: [u64; 14], new_sq: [Option<Piece>; 64], new_bb: [u64; 14], s0: u64, p: u8)
    requires
        cells_ok(old_sq, old_bb),
        valid_piece(p),
        s0 < 64,
        old_sq[s0 as int] is None,
        new_sq@ == old_sq@.update(s0 as int, Some(p)),
        new_bb@ == with_square(old_bb@, p as int, s0),
    ensures
        cells_ok(new_sq, new_bb),
{
    lemma_bit_consts();
    let m = sq_bb(s0);
    let c = p % 2;
    lemma_bit_ops(old_bb[p as int], m);
    lemma_bit_ops(old_bb[c as int], m);
    assert forall|q: int, s: u64| 2 <= q < 14 && s < 64 implies (#[trigger] has_bit(new_bb[q], s) <==> new_sq[s as int] == Some(q as u8)) by {
        if q == p {
            assert(new_bb[q] == old_bb[q] | m);
        } else {
            assert(new_bb[q] == old_bb[q]);
        }
    }
    assert forall|k: int, s: u64| 0 <= k < 2 && s < 64 implies (#[trigger] has_bit(new_bb[k], s) <==> (new_sq[s as int] is Some && piece_color(new_sq[s as int]->0) == k)) by {
        if k == c {
            assert(new_bb[k] == old_bb[k] | m);
        } else {
            assert(new_bb[k] == old_bb[k]);
        }
    }
}

pub(crate) proof fn lemma_pieces_after_clear(old_sq: [Option<Piece>; 64], old_bb: [u64; 14], new_sq: [Option<Piece>; 64], new_bb: [u64; 14], s0: u64, p: u8)
    requires
        cells_ok(old_sq, old_bb),
        s0 < 64,
        old_sq[s0 as int] == Some(p),
        new_sq@ == old_sq@.update(s0 as int, None),
        new_bb@ == without_square(old_bb@, p as int, s0),
    ensures
        cells_ok(new_sq, new_bb),
{
    lemma_bit_consts();
    let m = sq_bb(s0);
    let c = p % 2;
    lemma_bit_ops(m, m);
    lemma_bit_ops(old_bb[p as int], !m);
    lemma_bit_ops(old_bb[c as int], !m);
    assert forall|q: int, s: u64| 2 <= q < 14 && s < 64 implies (#[trigger] has_bit(new_bb[q], s) <==> new_sq[s as int] == Some(q as u8)) by {
        if q == p {
            assert(new_bb[q] == old_bb[q] & !m);
        } else {
            assert(new_bb[q] == old_bb[q]);
        }
    }
    assert forall|k: int, s: u64| 0 <= k < 2 && s < 64 implies (#[trigger] has_bit(new_bb[k], s) <==> (new_sq[s as int] is Some && piece_color(new_sq[s as int]->0) == k)) by {
        if k == c {
            assert(new_bb[k] == old_bb[k] & !m);
        } else {
            assert(new_bb[k] == old_bb[k]);
        }
    }
}

impl BoardMoveTrait for Board {
    open spec fn sq_empty_at(&self, sq: int) -> bool {
        self.squares[sq] is None
    }

    open spec fn can_make(&self, mv: Move) -> bool {
        can_make_spec(self, mv)
    }

    open spec fn state_ready(&self, mv: Move) -> bool {
        state_ready_spec(self, mv)
    }

    open spec fn can_undo(&self) -> bool {
        can_undo_spec(self)
    }

    open spec fn has_history(&self) -> bool {
        self.history@.len() > 0
    }

    /// Plays the move. When it leaves the mover's king attacked, the move is taken back and
    /// `false` is returned.
    fn make_move(&mut self, mv: &Move) -> (r: bool)
        ensures
            r ==> made(old(self), *mv, final(self)) && !king_attacked(final(self), old(self).state.color),
            r ==> final(self).has_king(old(self).state.color as int) && can_undo_spec(final(self)),
            !r ==> same_position(final(self), old(self)) && exists|b1: Board| made(old(self), *mv, &b1) && king_attacked(&b1, old(self).state.color),
    {
        let ghost b0 = *old(self);
        let st = self.state;
        self.history.push(st);
        self.moves.push(*mv);
        self.zb_reset_key();
        let ghost prep = *self;
        proof {
            lemma_prepared(&b0, self, *mv);
        }
        self.move_pieces(mv);
        let ghost mid = *self;
        self.make_state(mv);
        let ghost b1 = *self;
        proof {
            assert(prep.history@ == b0.history@.push(b0.state));
            assert(prep.state == (BoardState { key: prep.state.key, ..b0.state }));
            assert(mid.squares@ == moved_squares(prep.squares@, *mv));
            assert(state_after(mid.state, *mv, mid.bitboard@, mid.history@.len() as int, b1.state));
            assert(prep.same_tables(&b0));
            assert(b1.same_tables(&mid));
            lemma_made(&b0, &prep, &mid, &b1, *mv);
        }
        let c = mv.piece.color();
        assert(c == b0.state.color);
        if !self.king_safe(c) {
            assert(king_attacked(&b1, c));
            self.undo_move();
            let ghost b2 = *self;
            proof {
                lemma_undo_after_make(&b0, *mv, &b1, &b2);
                assert(made(&b0, *mv, &b1) && king_attacked(&b1, b0.state.color));
            }
            return false;
        }
        true
    }

    /// Takes back the last move and restores the state before it.
    fn undo_move(&mut self)
        ensures
            undone(old(self), final(self)),
    {
        let m = self.moves.pop();
        let st = self.history.pop();
        match (m, st) {
            (Some(mv), Some(s)) => {
                self.unmove_pieces(&mv);
                self.state = s;
            },
            (None, None) => {},
            _ => {
                proof {
                    assert(false);
                }
            },
        }
    }

    /// Advances the state after the pieces of `mv` have moved: side to move, castling rights,
    /// en passant square, clocks and the keys of these.
    fn make_state(&mut self, mv: &Move)
        ensures
            final(self).squares == old(self).squares,
            final(self).bitboard == old(self).bitboard,
            final(self).moves@ == old(self).moves@,
            final(self).history@ == old(self).history@,
            final(self).same_tables(old(self)),
            state_after(old(self).state, *mv, old(self).bitboard@, old(self).history@.len() as int, final(self).state),
            old(self).state.castling < 16 && (final(self).state.ep is Some ==> final(self).state.ep->0 < 64) ==> final(self).state.key
                == old(self).state.key ^ color_key(final(self).state.color) ^ castle_key(final(self).state.castling as int) ^ opt_ep_key(final(self).state.ep),
    {
        let ghost s0 = self.state;
        self.state.color = self.state.color.opposite();
        self.zb_clr();
        self.state.castling = rights_update(self.state.castling, &self.bitboard);
        self.zb_castling();
        let diff = if mv.from > mv.to {
            mv.from - mv.to
        } else {
            mv.to - mv.from
        };
        if mv.piece.is_pawn() && diff == 16 {
            self.state.ep = Some(mv.to + 16 * mv.piece.color() - 8);
        } else {
            self.state.ep = None;
        }
        self.zb_ep();
        let keep = !(mv.piece.is_pawn() || mv.flag.is_capture() || mv.flag.is_promo());
        self.state.half_move = if keep {
            self.state.half_move + 1
        } else {
            0
        };
        self.state.full_move = (self.history.len() as u16) / 2 + 1;
    }

    /// Drops the last saved state.
    fn undo_state(&mut self)
        ensures
            final(self).history@ == old(self).history@.drop_last(),
            final(self).squares == old(self).squares,
            final(self).bitboard == old(self).bitboard,
            final(self).state == old(self).state,
            final(self).moves@ == old(self).moves@,
            final(self).same_tables(old(self)),
    {
        self.history.pop();
    }

    /// Moves `piece` from `from_sq` to the empty square `to_sq`.
    fn quiet_mv(&mut self, from_sq: usize, to_sq: usize, piece: Piece)
        ensures
            final(self).squares@ == old(self).squares@.update(from_sq as int, None).update(to_sq as int, Some(piece)),
            final(self).bitboard@ == toggled(old(self).bitboard@, piece as int, sq_bb(to_sq as u64) | sq_bb(from_sq as u64)),
            final(self).state.key == old(self).state.key ^ piece_key(from_sq as int, piece as int) ^ piece_key(to_sq as int, piece as int),
            only_pieces_changed(final(self), old(self)),
            old(self).pieces_ok() && valid_piece(piece) && from_sq != to_sq && old(self).squares[from_sq as int] == Some(piece) && old(self).squares[to_sq as int] is None ==> final(self).pieces_ok(),
            old(self).state.key == squares_hash(old(self).squares@, 64) && from_sq != to_sq && old(self).squares[from_sq as int] == Some(piece)
                && old(self).squares[to_sq as int] is None ==> final(self).state.key == squares_hash(final(self).squares@, 64),
    {
        let ghost old_b = *old(self);
        self.squares[from_sq] = None;
        self.squares[to_sq] = Some(piece);
        let m = (1u64 << to_sq as u64) | (1u64 << from_sq as u64);
        let c = piece.color() as usize;
        proof {
            crate::piece::lemma_piece_color_mod(piece);
        }
        self.bitboard[piece as usize] = self.bitboard[piece as usize] ^ m;
        self.bitboard[c] = self.bitboard[c] ^ m;
        self.state.key = self.state.key ^ piece_key_value(from_sq, piece as usize);
        self.state.key = self.state.key ^ piece_key_value(to_sq, piece as usize);
        proof {
            if old_b.pieces_ok() && valid_piece(piece) && from_sq != to_sq && old_b.squares[from_sq as int] == Some(piece) && old_b.squares[to_sq as int] is None {
                lemma_pieces_after_toggle(old_b.squares, old_b.bitboard, self.squares, self.bitboard, from_sq as u64, to_sq as u64, piece);
            }
            if from_sq != to_sq && old_b.squares[from_sq as int] == Some(piece) && old_b.squares[to_sq as int] is None {
                let s1 = old_b.squares@.update(from_sq as int, None);
                lemma_hash_take(old_b.squares@, from_sq as int, piece);
                lemma_hash_put(s1, to_sq as int, piece);
            }
        }
    }

    /// Puts `piece` on the empty square `sq`.
    fn add_piece(&mut self, sq: usize, piece: Piece)
        ensures
            final(self).squares@ == old(self).squares@.update(sq as int, Some(piece)),
            final(self).bitboard@ == with_square(old(self).bitboard@, piece as int, sq as u64),
            final(self).state.key == old(self).state.key ^ piece_key(sq as int, piece as int),
            only_pieces_changed(final(self), old(self)),
            old(self).pieces_ok() && valid_piece(piece) ==> final(self).pieces_ok(),
            old(self).state.key == squares_hash(old(self).squares@, 64) ==> final(self).state.key == squares_hash(final(self).squares@, 64),
    {
        let ghost old_b = *old(self);
        self.squares[sq] = Some(piece);
        let c = piece.color() as usize;
        proof {
            crate::piece::lemma_piece_color_mod(piece);
        }
        let mut b = self.bitboard[piece as usize];
        b.set_bit(sq);
        self.bitboard[piece as usize] = b;
        let mut b2 = self.bitboard[c];
        b2.set_bit(sq);
        self.bitboard[c] = b2;
        self.state.key = self.state.key ^ piece_key_value(sq, piece as usize);
        proof {
            if old_b.pieces_ok() && valid_piece(piece) {
                lemma_pieces_after_add(old_b.squares, old_b.bitboard, self.squares, self.bitboard, sq as u64, piece);
            }
            lemma_hash_put(old_b.squares@, sq as int, piece);
        }
    }

    /// Takes `piece` off the square `sq`, which holds a piece.
    fn clear_piece(&mut self, sq: usize, piece: Piece)
        ensures
            final(self).squares@ == old(self).squares@.update(sq as int, None),
            final(self).bitboard@ == without_square(old(self).bitboard@, piece as int, sq as u64),
            final(self).state.key == old(self).state.key ^ piece_key(sq as int, piece as int),
            only_pieces_changed(final(self), old(self)),
            old(self).pieces_ok() && old(self).squares[sq as int] == Some(piece) ==> final(self).pieces_ok(),
            old(self).state.key == squares_hash(old(self).squares@, 64) && old(self).squares[sq as int] == Some(piece) ==> final(self).state.key
                == squares_hash(final(self).squares@, 64),
    {
        let ghost old_b = *old(self);
        self.squares[sq] = None;
        let c = piece.color() as usize;
        proof {
            crate::piece::lemma_piece_color_mod(piece);
        }
        let mut b = self.bitboard[piece as usize];
        b.clear_bit(sq);
        self.bitboard[piece as usize] = b;
        let mut b2 = self.bitboard[c];
        b2.clear_bit(sq);
        self.bitboard[c] = b2;
        self.state.key = self.state.key ^ piece_key_value(sq, piece as usize);
        proof {
            if old_b.pieces_ok() && old_b.squares[sq as int] == Some(piece) {
                lemma_pieces_after_clear(old_b.squares, old_b.bitboard, self.squares, self.bitboard, sq as u64, piece);
            }
            if old_b.squares[sq as int] == Some(piece) {
                lemma_hash_take(old_b.squares@, sq as int, piece);
            }
        }
    }
}

/// The castling rights `castling` keeps once the pieces stand as in `bb`: a right stays while its
/// king and rook are on their home squares.
pub(crate) fn rights_update(castling: Castling, bb: &[u64; 14]) -> (r: Castling)
    ensures
        rights_after(castling, bb@, r),
        castling < 16 ==> r < 16,
{
    let ghost c0 = castling;
    let mut castling = castling;
    let mut i: usize = 0;
    while i < 4
        invariant
            0 <= i <= 4,
            castling >> 4u8 == c0 >> 4u8,
            forall|j: int| 0 <= j < i ==> (#[trigger] cr_has(castling, castle_right(j)) <==> (cr_has(c0, castle_right(j))
                && has_bit(bb[ROOK + castle_color(j)], castle_rook_home(j) as u64) && has_bit(bb[KING + castle_color(j)], castle_king_home(j) as u64))),
            forall|j: int| i <= j < 4 ==> (#[trigger] cr_has(castling, castle_right(j)) <==> cr_has(c0, castle_right(j))),
        decreases 4 - i,
    {
        let (rsq, ksq, right, clr) = castle_data(i);
        let ghost before = castling;
        if !(castling.is_set(right) && bb[(ROOK + clr) as usize].is_set(rsq) && bb[(KING + clr) as usize].is_set(ksq)) {
            castling.clear(right);
            proof {
                lemma_clear_one(before, i as int);
            }
        }
        i = i + 1;
    }
    proof {
        lemma_clear_right(c0);
        lemma_clear_right(castling);
    }
    castling
}

/// Clearing one right keeps the others and the bits above the four rights.
proof fn lemma_clear_right(x: u8)
    by (bit_vector)
    ensures
        (x & !1u8) & 1u8 == 0,
        (x & !2u8) & 2u8 == 0,
        (x & !4u8) & 4u8 == 0,
        (x & !8u8) & 8u8 == 0,
        (x & !1u8) & 2u8 == x & 2u8,
        (x & !1u8) & 4u8 == x & 4u8,
        (x & !1u8) & 8u8 == x & 8u8,
        (x & !2u8) & 1u8 == x & 1u8,
        (x & !2u8) & 4u8 == x & 4u8,
        (x & !2u8) & 8u8 == x & 8u8,
        (x & !4u8) & 1u8 == x & 1u8,
        (x & !4u8) & 2u8 == x & 2u8,
        (x & !4u8) & 8u8 == x & 8u8,
        (x & !8u8) & 1u8 == x & 1u8,
        (x & !8u8) & 2u8 == x & 2u8,
        (x & !8u8) & 4u8 == x & 4u8,
        (x & !1u8) >> 4u8 == x >> 4u8,
        (x & !2u8) >> 4u8 == x >> 4u8,
        (x & !4u8) >> 4u8 == x >> 4u8,
        (x & !8u8) >> 4u8 == x >> 4u8,
        x < 16 <==> x >> 4u8 == 0,
{
}

/// Clearing the right with index `i` removes it and keeps the other rights and the bits
/// above them.
proof fn lemma_clear_one(x: u8, i: int)
    requires
        0 <= i < 4,
    ensures
        forall|j: int| 0 <= j < 4 ==> (#[trigger] cr_has(x & !castle_right(i), castle_right(j)) <==> (j != i && cr_has(x, castle_right(j)))),
        (x & !castle_right(i)) >> 4u8 == x >> 4u8,
{
    lemma_clear_right(x);
    assert forall|j: int| 0 <= j < 4 implies (#[trigger] cr_has(x & !castle_right(i), castle_right(j)) <==> (j != i && cr_has(x, castle_right(j)))) by {
        if i == 0 {
            if j == 0 {} else if j == 1 {} else if j == 2 {} else {}
        } else if i == 1 {
            if j == 0 {} else if j == 1 {} else if j == 2 {} else {}
        } else if i == 2 {
            if j == 0 {} else if j == 1 {} else if j == 2 {} else {}
        } else {
            if j == 0 {} else if j == 1 {} else if j == 2 {} else {}
        }
    }
}

/// Putting a piece on an empty square adds its key to the key of the squares.
proof fn lemma_hash_put(sq: Seq<Option<u8>>, k: int, p: u8)
    requires
        sq.len() == 64,
        0 <= k < 64,
        sq[k] is None,
    ensures
        squares_hash(sq.update(k, Some(p)), 64) == squares_hash(sq, 64) ^ piece_key(k, p as int),
{
    lemma_squares_hash_update(sq, k, Some(p), 64);
    lemma_xor(squares_hash(sq, 64), 0, 0);
}

/// Taking a piece off its square removes its key from the key of the squares.
proof fn lemma_hash_take(sq: Seq<Option<u8>>, k: int, p: u8)
    requires
        sq.len() == 64,
        0 <= k < 64,
        sq[k] == Some(p),
    ensures
        squares_hash(sq.update(k, None), 64) == squares_hash(sq, 64) ^ piece_key(k, p as int),
{
    lemma_squares_hash_update(sq, k, None, 64);
    lemma_xor(squares_hash(sq, 64) ^ piece_key(k, p as int), 0, 0);
}

/// With the pieces as in `bb`, the king of the side `c` (its lowest one) is not attacked.
pub(crate) fn king_safe_on(bb: &[u64; 14], c: Color) -> (r: bool)
    requires
        c < 2,
        bb[KING + c] != 0,
    ensures
        r == !bb_king_attacked(*bb, c),
{
    let ksq = bb[(KING + c) as usize].get_lsb();
    let att = attackers(bb, ksq, c);
    proof {
        assert(is_lowest(bb[KING + c], ksq as u64));
        if att != 0 {
            crate::bits::lemma_nonzero_has_bit(att);
            let t = choose|t: u64| t < 64 && #[trigger] has_bit(att, t);
            assert(attacker_of(*bb, ksq as int, c, t));
        } else {
            lemma_bit_consts();
            assert forall|t: u64| t < 64 implies !#[trigger] attacker_of(*bb, ksq as int, c, t) by {
                assert(!has_bit(att, t));
            }
            assert forall|s: u64| #[trigger] is_lowest(bb[KING + c], s) implies s == ksq as u64 by {
                if s < ksq as u64 {
                    assert(!has_bit(bb[KING + c], s));
                } else if s > ksq as u64 {
                    assert(!has_bit(bb[KING + c], ksq as u64));
                }
            }
        }
    }
    att == 0
}

impl Board {
    /// The king of the side `c` (its lowest one) is not attacked.
    pub(crate) fn king_safe(&self, c: Color) -> (r: bool)
        requires
            c < 2,
            self.has_king(c as int),
        ensures
            r == !king_attacked(self, c),
    {
        king_safe_on(&self.bitboard, c)
    }

    /// Moves the pieces as `mv` says.
    fn move_pieces(&mut self, mv: &Move)
        requires
            pieces_ready(old(self), *mv),
        ensures
            final(self).squares@ == moved_squares(old(self).squares@, *mv),
            final(self).pieces_ok(),
            only_pieces_changed(final(self), old(self)),
            old(self).state.key == squares_hash(old(self).squares@, 64) ==> final(self).state.key == squares_hash(final(self).squares@, 64),
    {
        let ghost b0 = *old(self);
        proof {
            reveal(pieces_ready);
        }
        let from = mv.from as usize;
        let to = mv.to as usize;
        match mv.flag {
            Flag::Quiet => {
                self.quiet_mv(from, to, mv.piece);
            },
            Flag::Capture(piece) => {
                self.clear_piece(to, piece);
                self.quiet_mv(from, to, mv.piece);
                assert(self.squares@ == moved_squares(b0.squares@, *mv));
            },
            Flag::EP => {
                self.quiet_mv(from, to, mv.piece);
                let c = mv.piece.color();
                self.clear_piece((mv.to + 16 * c - 8) as usize, PAWN + c.opposite());
            },
            Flag::Promotion(promotion, cap_piece) => {
                self.clear_piece(from, mv.piece);
                if let Some(piece) = cap_piece {
                    self.clear_piece(to, piece);
                }
                self.add_piece(to, promotion);
                assert(self.squares@ == moved_squares(b0.squares@, *mv));
            },
            Flag::KingCastle => {
                let c = mv.piece.color();
                let sq = rook_sq(c, 0);
                self.quiet_mv(from, to, mv.piece);
                self.quiet_mv(sq.0, sq.1, ROOK + c);
            },
            Flag::QueenCastle => {
                let c = mv.piece.color();
                let sq = rook_sq(c, 1);
                self.quiet_mv(from, to, mv.piece);
                self.quiet_mv(sq.0, sq.1, ROOK + c);
            },
            Flag::NullMove => {},
        }
    }

    /// Takes back the pieces of `mv`.
    fn unmove_pieces(&mut self, mv: &Move)
        requires
            undo_safe(old(self), *mv),
        ensures
            final(self).squares@ == unmoved_squares(old(self).squares@, *mv),
            only_pieces_changed(final(self), old(self)),
            old(self).pieces_ok() && undo_ok(old(self), *mv) ==> final(self).pieces_ok(),
    {
        let from = mv.from as usize;
        let to = mv.to as usize;
        match mv.flag {
            Flag::Quiet => {
                self.quiet_mv(to, from, mv.piece);
            },
            Flag::Capture(piece) => {
                self.quiet_mv(to, from, mv.piece);
                self.add_piece(to, piece);
            },
            Flag::EP => {
                self.quiet_mv(to, from, mv.piece);
                let c = mv.piece.color();
                self.add_piece((mv.to + 16 * c - 8) as usize, PAWN + c.opposite());
            },
            Flag::Promotion(promotion, cap_piece) => {
                self.clear_piece(to, promotion);
                if let Some(piece) = cap_piece {
                    self.add_piece(to, piece);
                }
                self.add_piece(from, mv.piece);
            },
            Flag::KingCastle => {
                let c = mv.piece.color();
                let sq = rook_sq(c, 0);
                self.quiet_mv(to, from, mv.piece);
                self.quiet_mv(sq.1, sq.0, ROOK + c);
            },
            Flag::QueenCastle => {
                let c = mv.piece.color();
                let sq = rook_sq(c, 1);
                self.quiet_mv(to, from, mv.piece);
                self.quiet_mv(sq.1, sq.0, ROOK + c);
            },
            Flag::NullMove => {},
        }
    }
}

/// After the state is saved, the move recorded and the keys of side, rights and en passant
/// square taken out, the move still fits the board and the key is that of the pieces.
proof fn lemma_prepared(b0: &Board, b: &Board, mv: Move)
    requires
        can_make_spec(b0, mv),
        b.squares == b0.squares,
        b.bitboard == b0.bitboard,
        b.state == (BoardState { key: b.state.key, ..b0.state }),
        b0.state.castling < 16 && (b0.state.ep is Some ==> b0.state.ep->0 < 64) ==> b.state.key == b0.state.key ^ color_key(b0.state.color)
            ^ castle_key(b0.state.castling as int) ^ opt_ep_key(b0.state.ep),
    ensures
        pieces_ready(b, mv),
        state_ready_spec(b, mv) ,
        b0.state.key == position_hash(b0) ==> b.state.key == squares_hash(b.squares@, 64),
        b0.state.color < 2,
        b0.state.color == piece_color(mv.piece),
        mv.piece < 14,
{
    reveal(can_make_spec);
    reveal(pieces_ready);
    if b0.state.key == position_hash(b0) {
        lemma_xor_cancel3(squares_hash(b0.squares@, 64), color_key(b0.state.color), castle_key(b0.state.castling as int), opt_ep_key(b0.state.ep));
    }
}

/// Rights that survive only while king and rook stay home are consistent with the board.
proof fn lemma_made_castling_ok(old_rights: u8, b1: &Board)
    requires
        old_rights < 16,
        b1.pieces_ok(),
        rights_after(old_rights, b1.bitboard@, b1.state.castling),
    ensures
        b1.castling_ok(),
        b1.state.castling < 16,
{
    lemma_clear_right(old_rights);
    lemma_clear_right(b1.state.castling);
    assert forall|i: int| 0 <= i < 4 && #[trigger] cr_has(b1.state.castling, castle_right(i)) implies b1.squares[castle_rook_home(i)]
        == Some((ROOK + castle_color(i)) as u8) && b1.squares[castle_king_home(i)] == Some((KING + castle_color(i)) as u8) by {
        assert(has_bit(b1.bitboard[ROOK + castle_color(i)], castle_rook_home(i) as u64));
        assert(has_bit(b1.bitboard[KING + castle_color(i)], castle_king_home(i) as u64));
    }
}

/// The en passant square set by a double pawn push is consistent with the board after it.
proof fn lemma_made_ep_ok(b0: &Board, mv: Move, b1: &Board)
    requires
        can_make_spec(b0, mv),
        b1.squares@ == moved_squares(b0.squares@, mv),
        b1.state.color == opp_color(b0.state.color),
        b1.state.ep == ep_after(mv),
    ensures
        b1.ep_ok(),
{
    reveal(can_make_spec);
    let from = mv.from as int;
    let to = mv.to as int;
    if piece_kind(mv.piece) == PAWN && (from - to == 16 || to - from == 16) {
        assert(mv.flag is Quiet && double_push_ok(b0, mv));
        if b0.state.color == WHITE {
            assert(b1.squares[from + 8] == b0.squares[from + 8]);
        } else {
            assert(b1.squares[from - 8] == b0.squares[from - 8]);
        }
    }
}

/// The side that moved still has its king after the move.
proof fn lemma_made_has_king(b0: &Board, mv: Move, b1: &Board)
    requires
        can_make_spec(b0, mv),
        b1.squares@ == moved_squares(b0.squares@, mv),
        b1.pieces_ok(),
    ensures
        b1.has_king(b0.state.color as int),
{
    reveal(can_make_spec);
    let c = b0.state.color;
    let kb = b0.bitboard[KING + c];
    crate::bits::lemma_nonzero_has_bit(kb);
    let k = choose|k: u64| k < 64 && #[trigger] has_bit(kb, k);
    assert(b0.squares[k as int] == Some((KING + c) as u8));
    let k1: u64 = if k == mv.from as u64 {
        mv.to as u64
    } else {
        k
    };
    assert(b1.squares[k1 as int] == Some((KING + c) as u8));
    assert(has_bit(b1.bitboard[KING + c], k1));
    lemma_bit_consts();
}

/// The board after the state is saved, the pieces moved and the state advanced is the board
/// after the move.
proof fn lemma_made(b0: &Board, prep: &Board, mid: &Board, b1: &Board, mv: Move)
    requires
        can_make_spec(b0, mv),
        prep.squares == b0.squares,
        prep.bitboard == b0.bitboard,
        prep.moves@ == b0.moves@.push(mv),
        prep.history@ == b0.history@.push(b0.state),
        prep.state == (BoardState { key: prep.state.key, ..b0.state }),
        prep.same_tables(b0),
        b0.state.key == position_hash(b0) ==> prep.state.key == squares_hash(prep.squares@, 64),
        mid.squares@ == moved_squares(prep.squares@, mv),
        mid.pieces_ok(),
        only_pieces_changed(mid, prep),
        prep.state.key == squares_hash(prep.squares@, 64) ==> mid.state.key == squares_hash(mid.squares@, 64),
        b1.squares == mid.squares,
        b1.bitboard == mid.bitboard,
        b1.moves@ == mid.moves@,
        b1.history@ == mid.history@,
        b1.same_tables(mid),
        state_after(mid.state, mv, mid.bitboard@, mid.history@.len() as int, b1.state),
        mid.state.castling < 16 && (b1.state.ep is Some ==> b1.state.ep->0 < 64) ==> b1.state.key == mid.state.key ^ color_key(
            b1.state.color,
        ) ^ castle_key(b1.state.castling as int) ^ opt_ep_key(b1.state.ep),
    ensures
        made(b0, mv, b1),
        b1.has_king(b0.state.color as int),
        b0.state.color < 2,
        b0.state.color == piece_color(mv.piece),
        can_make_spec(b0, mv),
        can_undo_spec(b1),
        b1.moves@.last() == mv,
{
    reveal(made);
    reveal(can_make_spec);
    assert(b1.squares@ == moved_squares(b0.squares@, mv));
    lemma_moved_undo_ok(b0, mv, b1);
    assert(state_after(b0.state, mv, b1.bitboard@, b1.history@.len() as int, b1.state));
    lemma_made_castling_ok(b0.state.castling, b1);
    lemma_made_ep_ok(b0, mv, b1);
    lemma_made_has_king(b0, mv, b1);
}

/// Right after a move its pieces stand where taking it back expects them, and taking it
/// back gives the squares before it.
proof fn lemma_moved_undo_ok(b0: &Board, mv: Move, b1: &Board)
    requires
        b0.wf(),
        move_applicable(b0, mv),
        b1.squares@ == moved_squares(b0.squares@, mv),
    ensures
        undo_ok(b1, mv),
        unmoved_squares(b1.squares@, mv) == b0.squares@,
{
    let s0 = b0.squares@;
    match mv.flag {
        Flag::Quiet => {
            assert(unmoved_squares(b1.squares@, mv) =~= s0);
        },
        Flag::Capture(q) => {
            assert(unmoved_squares(b1.squares@, mv) =~= s0);
        },
        Flag::EP => {
            assert(unmoved_squares(b1.squares@, mv) =~= s0);
        },
        Flag::Promotion(q, cap) => {
            assert(unmoved_squares(b1.squares@, mv) =~= s0);
        },
        Flag::KingCastle => {
            assert(unmoved_squares(b1.squares@, mv) =~= s0);
        },
        Flag::QueenCastle => {
            assert(unmoved_squares(b1.squares@, mv) =~= s0);
        },
        Flag::NullMove => {},
    }
}

/// The squares determine the bitboards that agree with them.
pub proof fn lemma_bitboards_of_cells(squares: [Option<Piece>; 64], a: [u64; 14], b: [u64; 14])
    requires
        cells_ok(squares, a),
        cells_ok(squares, b),
    ensures
        a == b,
{
    assert forall|k: int| 0 <= k < 14 implies a[k] == b[k] by {
        assert forall|s: u64| s < 64 implies #[trigger] has_bit(a[k], s) == has_bit(b[k], s) by {}
        crate::bits::lemma_bits_ext(a[k], b[k]);
    }
    assert(a =~= b);
}

/// Two consistent boards with the same squares have the same bitboards.
pub proof fn lemma_bitboards_from_squares(a: &Board, b: &Board)
    requires
        a.pieces_ok(),
        b.pieces_ok(),
        a.squares == b.squares,
    ensures
        a.bitboard == b.bitboard,
{
    lemma_bitboards_of_cells(a.squares, a.bitboard, b.bitboard);
}

/// Taking back a move that was just made gives back the board it was made on: its squares,
/// bitboards, state, moves, history and search tables.
pub proof fn lemma_undo_after_make(b0: &Board, mv: Move, b1: &Board, b2: &Board)
    requires
        can_make_spec(b0, mv),
        made(b0, mv, b1),
        undone(b1, b2),
    ensures
        same_position(b2, b0),
{
    reveal(made);
    reveal(can_make_spec);
    lemma_moved_undo_ok(b0, mv, b1);
    assert(b1.moves@.last() == mv);
    assert(b1.history@.last() == b0.state);
    assert(b2.squares@ == b0.squares@);
    assert(b2.squares =~= b0.squares);
    lemma_bitboards_from_squares(b2, b0);
    assert(b2.moves@ =~= b0.moves@);
    assert(b2.history@ =~= b0.history@);
}

/// A move made on a board whose key is its zobrist hash leads to such a board.
proof fn lemma_made_keyed(b: &Board, mv: Move, x: &Board)
    requires
        made(b, mv, x),
        b.state.key == position_hash(b),
    ensures
        x.state.key == position_hash(x),
{
    reveal(made);
}

/// The board `k` moves into a game of made moves keeps its key equal to its zobrist hash.
proof fn lemma_key_at(boards: Seq<Board>, mvs: Seq<Move>, k: int)
    requires
        boards.len() == mvs.len() + 1,
        boards[0].state.key == position_hash(&boards[0]),
        forall|i: int| 0 <= i < mvs.len() ==> made(&boards[i], #[trigger] mvs[i], &boards[i + 1]),
        0 <= k < boards.len(),
    ensures
        boards[k].state.key == position_hash(&boards[k]),
    decreases k,
{
    if k > 0 {
        lemma_key_at(boards, mvs, k - 1);
        assert(made(&boards[k - 1], mvs[k - 1], &boards[k]));
        lemma_made_keyed(&boards[k - 1], mvs[k - 1], &boards[k]);
    }
}

/// Along a game of made moves that starts on a board whose key is its zobrist hash, every
/// board's key is its zobrist hash: the key kept up move by move is the key computed afresh
/// from the position.
pub proof fn lemma_keys_along_game(boards: Seq<Board>, mvs: Seq<Move>)
    requires
        boards.len() == mvs.len() + 1,
        boards[0].state.key == position_hash(&boards[0]),
        forall|i: int| 0 <= i < mvs.len() ==> made(&boards[i], #[trigger] mvs[i], &boards[i + 1]),
    ensures
        forall|i: int| 0 <= i < boards.len() ==> (#[trigger] boards[i]).state.key == position_hash(&boards[i]),
{
    assert forall|i: int| 0 <= i < boards.len() implies (#[trigger] boards[i]).state.key == position_hash(&boards[i]) by {
        lemma_key_at(boards, mvs, i);
    }
}


/// The half-move clock after a move: 0 after any pawn move, capture or promotion, and one more
/// than before after any other move.
pub proof fn lemma_half_move_clock(before: &Board, mv: Move, after: &Board)
    requires
        made(before, mv, after),
    ensures
        mv.piece == WHITE_PAWN || mv.piece == BLACK_PAWN ==> after.state.half_move == 0,
        mv.flag is Capture || mv.flag is EP || mv.flag is Promotion ==> after.state.half_move == 0,
        mv.piece != WHITE_PAWN && mv.piece != BLACK_PAWN && !(mv.flag is Capture) && !(mv.flag is EP)
            && !(mv.flag is Promotion) && before.state.half_move < 255 ==> after.state.half_move == before.state.half_move + 1,
{
    reveal(made);
    assert(state_after(before.state, mv, after.bitboard@, after.history@.len() as int, after.state));
    assert(after.state.half_move == half_move_after(before.state.half_move, mv));
    assert(piece_kind(WHITE_PAWN) == PAWN);
    assert(piece_kind(BLACK_PAWN) == PAWN);
    if mv.piece != WHITE_PAWN && mv.piece != BLACK_PAWN {
        assert(piece_kind(mv.piece) != PAWN);
    }
}


/// The state after a move: the other side is to move; the en passant square is the square a
/// pawn passed over with a double step, and there is none after any other move; no castling
/// right is gained, and a right held afterwards has its rook and king on their home squares.
pub proof fn lemma_move_state(before: &Board, mv: Move, after: &Board)
    requires
        made(before, mv, after),
        before.state.color < 2,
    ensures
        after.state.color == 1 - before.state.color,
        (mv.piece == WHITE_PAWN && mv.to == mv.from + 16) || (mv.piece == BLACK_PAWN && mv.from == mv.to + 16)
            ==> after.state.ep == Some(((mv.from + mv.to) / 2) as u8),
        !(mv.piece == WHITE_PAWN || mv.piece == BLACK_PAWN) || (mv.to != mv.from + 16 && mv.from != mv.to + 16)
            ==> after.state.ep is None,
        forall|i: int| 0 <= i < 4 ==> (#[trigger] cr_has(after.state.castling, castle_right(i)) ==> cr_has(before.state.castling, castle_right(i))
            && has_bit(after.bitboard[ROOK + castle_color(i)], castle_rook_home(i) as u64)
            && has_bit(after.bitboard[KING + castle_color(i)], castle_king_home(i) as u64)),
{
    reveal(made);
    assert(state_after(before.state, mv, after.bitboard@, after.history@.len() as int, after.state));
    assert(piece_kind(WHITE_PAWN) == PAWN);
    assert(piece_kind(BLACK_PAWN) == PAWN);
    assert(piece_color(WHITE_PAWN) == WHITE);
    assert(piece_color(BLACK_PAWN) == BLACK);
    if !(mv.piece == WHITE_PAWN || mv.piece == BLACK_PAWN) {
        assert(piece_kind(mv.piece) != PAWN);
    }
    assert forall|i: int| 0 <= i < 4 && #[trigger] cr_has(after.state.castling, castle_right(i)) implies cr_has(before.state.castling, castle_right(i))
        && has_bit(after.bitboard[ROOK + castle_color(i)], castle_rook_home(i) as u64)
        && has_bit(after.bitboard[KING + castle_color(i)], castle_king_home(i) as u64) by {
        assert(after.bitboard@[ROOK + castle_color(i)] == after.bitboard[ROOK + castle_color(i)]);
        assert(after.bitboard@[KING + castle_color(i)] == after.bitboard[KING + castle_color(i)]);
    }
}

} // verus!