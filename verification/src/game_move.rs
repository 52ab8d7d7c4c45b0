use vstd::prelude::*;
use crate::bits::{sq_bb, has_bit, lemma_bit_consts, BitboardTrait};
use crate::board::{BoardState, cells_ok};
use crate::game::Game;
use crate::piece::{Piece, PieceTrait, ColorTrait, valid_piece, piece_color, piece_kind, opp_color, PAWN, KING, ROOK};
use crate::zobrist::{piece_key, piece_key_value, side_key_value, castle_key_value, ep_key_value, color_key, castle_key, ep_key};
use crate::castling::{rook_squares, rook_sq, castle_king_home};
use crate::moves::{Move, Flag};
use crate::make_move::{undo_fits, toggled, with_square, without_square, moved_squares, unmoved_squares, rights_after, ep_after, ep_victim, bb_king_attacked,
    king_safe_on, rights_update, lemma_bitboards_of_cells, lemma_pieces_after_toggle, lemma_pieces_after_add, lemma_pieces_after_clear};

verus! {

/// Everything but the squares, the bitboards and the key is as in `old`.
pub open spec fn same_rest(new: &Game, old: &Game) -> bool {
    &&& new.color == old.color
    &&& new.castling == old.castling
    &&& new.ep == old.ep
    &&& new.half_move == old.half_move
    &&& new.full_move == old.full_move
    &&& new.ply == old.ply
    &&& new.pos_rev@ == old.pos_rev@
    &&& new.pos_irr@ == old.pos_irr@
    &&& new.s_history == old.s_history
    &&& new.s_killers == old.s_killers
    &&& new.pv@ == old.pv@
}

/// The bitboards after `p` is put on the square `s`, which held `cell`: what stood there
/// is taken off first.
pub open spec fn put_on(bb: Seq<u64>, cell: Option<Piece>, s: u64, p: Piece) -> Seq<u64> {
    let cleared = match cell {
        Some(q) => without_square(bb, q as int, s),
        None => bb,
    };
    with_square(cleared, p as int, s)
}

/// The key after `p` is put on the square `s`, which held `cell`.
pub open spec fn put_key(k: u64, cell: Option<Piece>, s: int, p: Piece) -> u64 {
    let cleared = match cell {
        Some(q) => k ^ piece_key(s, q as int),
        None => k,
    };
    cleared ^ piece_key(s, p as int)
}

/// The key `k` with the keys of the side to move and of the castling rights, joined by a
/// bitwise or, and then the en passant key put in.
pub open spec fn keyed_state(k: u64, color: u8, castling: u8, ep: Option<u8>) -> u64 {
    let k1 = k ^ (color_key(color) | castle_key(castling as int));
    match ep {
        Some(e) => k1 ^ ep_key(e as int),
        None => k1,
    }
}

/// The square that the castling rook of the side of `mv` leaves and the one it goes to.
pub open spec fn castle_rook(mv: Move) -> (int, int) {
    let c = piece_color(mv.piece) as int;
    if mv.flag is KingCastle {
        rook_squares(c, 0)
    } else {
        rook_squares(c, 1)
    }
}

/// The key after the pieces of `mv` have moved on a position of key `k`: each piece key goes
/// in as its piece is taken off or put on, in that order; a piece that slides is keyed by the
/// bitwise or of its two square keys.
pub open spec fn keyed_move(k: u64, mv: Move) -> u64 {
    let from = mv.from as int;
    let to = mv.to as int;
    let p = mv.piece as int;
    let rook = ROOK + piece_color(mv.piece);
    match mv.flag {
        Flag::Quiet => k ^ (piece_key(to, p) | piece_key(from, p)),
        Flag::Capture(q) => k ^ piece_key(from, p) ^ piece_key(to, q as int) ^ piece_key(to, p),
        Flag::EP => k ^ piece_key(from, p) ^ piece_key(to, p) ^ piece_key(ep_victim(mv), PAWN + 1 - piece_color(mv.piece)),
        Flag::Promotion(q, cap) => put_key(k ^ piece_key(from, p), cap, to, q),
        Flag::KingCastle | Flag::QueenCastle => k ^ (piece_key(to, p) | piece_key(from, p)) ^ (piece_key(castle_rook(mv).1, rook)
            | piece_key(castle_rook(mv).0, rook)),
        Flag::NullMove => k,
    }
}

/// The key after the pieces of `mv` have been taken back on a position of key `k`, in the
/// order in which they are moved back.
pub open spec fn keyed_unmove(k: u64, mv: Move) -> u64 {
    let from = mv.from as int;
    let to = mv.to as int;
    let p = mv.piece as int;
    let rook = ROOK + piece_color(mv.piece);
    match mv.flag {
        Flag::Quiet => k ^ (piece_key(from, p) | piece_key(to, p)),
        Flag::Capture(q) => k ^ piece_key(to, p) ^ piece_key(from, p) ^ piece_key(to, q as int),
        Flag::EP => k ^ piece_key(to, p) ^ piece_key(from, p) ^ piece_key(ep_victim(mv), PAWN + 1 - piece_color(mv.piece)),
        Flag::Promotion(q, cap) => {
            let k1 = k ^ piece_key(to, q as int);
            let k2 = match cap {
                Some(x) => k1 ^ piece_key(to, x as int),
                None => k1,
            };
            k2 ^ piece_key(from, p)
        },
        Flag::KingCastle | Flag::QueenCastle => k ^ (piece_key(from, p) | piece_key(to, p)) ^ (piece_key(castle_rook(mv).0, rook)
            | piece_key(castle_rook(mv).1, rook)),
        Flag::NullMove => k,
    }
}

/// The move fits the game: the piece of the side to move stands on `from`, and the squares
/// involved hold what the flag says.
pub open spec fn game_move_fits(g: &Game, mv: Move) -> bool {
    let from = mv.from as int;
    let to = mv.to as int;
    let p = mv.piece;
    let c = g.color;
    &&& from < 64 && to < 64 && from != to
    &&& valid_piece(p) && piece_color(p) == c
    &&& g.squares[from] == Some(p)
    &&& (piece_kind(p) == PAWN && (from - to == 16 || to - from == 16) ==> 0 <= ep_victim(mv) < 64)
    &&& match mv.flag {
        Flag::Quiet => g.squares[to] is None,
        Flag::Capture(q) => g.squares[to] == Some(q) && valid_piece(q) && piece_color(q) != c,
        Flag::EP => piece_kind(p) == PAWN && g.squares[to] is None && 0 <= ep_victim(mv) < 64 && g.squares[ep_victim(mv)] == Some(
            (PAWN + 1 - c) as u8,
        ),
        Flag::Promotion(q, cap) => piece_kind(p) == PAWN && valid_piece(q) && piece_color(q) == c && match cap {
            None => g.squares[to] is None,
            Some(x) => g.squares[to] == Some(x) && valid_piece(x) && piece_color(x) != c,
        },
        Flag::KingCastle => p == KING + c && from == castle_king_home(2 * c) && to == from + 2 && g.squares[to] is None
            && g.squares[rook_squares(c as int, 0).0] == Some((ROOK + c) as u8) && g.squares[rook_squares(c as int, 0).1] is None,
        Flag::QueenCastle => p == KING + c && from == castle_king_home(2 * c) && to == from - 2 && g.squares[to] is None
            && g.squares[rook_squares(c as int, 1).0] == Some((ROOK + c) as u8) && g.squares[rook_squares(c as int, 1).1] is None,
        Flag::NullMove => false,
    }
}

/// The half move clock after the move: reset by pawn moves and captures.
pub open spec fn game_half_after(h: u8, mv: Move) -> u8 {
    if piece_kind(mv.piece) == PAWN || mv.flag is Capture {
        0
    } else {
        (h + 1) as u8
    }
}

/// `new` is `old` after `rev` was played and `irr` saved beside it.
pub open spec fn game_made(old: &Game, rev: Move, irr: BoardState, new: &Game) -> bool {
    &&& new.squares@ == moved_squares(old.squares@, rev)
    &&& cells_ok(new.squares, new.bitboard)
    &&& new.color == opp_color(old.color)
    &&& rights_after(old.castling, new.bitboard@, new.castling)
    &&& new.ep == ep_after(rev)
    &&& new.half_move == game_half_after(old.half_move, rev)
    &&& new.full_move == if old.pos_rev@.len() % 2 == 0 {
        (old.full_move + 1) as u16
    } else {
        old.full_move
    }
    &&& new.ply == old.ply + 1
    &&& new.key == keyed_state(keyed_move(old.key, rev), new.color, new.castling, new.ep)
    &&& new.pos_rev@ == old.pos_rev@.push(rev)
    &&& new.pos_irr@ == old.pos_irr@.push(irr)
    &&& new.s_history == old.s_history
    &&& new.s_killers == old.s_killers
    &&& new.pv@ == old.pv@
}

/// `new` is `old` with its last move taken back: the state comes from the saved entry `irr`,
/// the key and the pieces from undoing what the move did.
pub open spec fn game_undone(old: &Game, new: &Game) -> bool {
    if old.pos_rev@.len() == 0 {
        &&& new.squares == old.squares
        &&& new.bitboard == old.bitboard
        &&& new.key == old.key
        &&& same_rest(new, old)
    } else {
        let rev = old.pos_rev@.last();
        let irr = old.pos_irr@.last();
        &&& new.squares@ == unmoved_squares(old.squares@, rev)
        &&& (cells_ok(old.squares, old.bitboard) ==> cells_ok(new.squares, new.bitboard))
        &&& new.key == keyed_unmove(keyed_state(old.key, old.color, old.castling, old.ep), rev)
        &&& new.color == opp_color(old.color)
        &&& new.castling == irr.castling
        &&& new.ep == irr.ep
        &&& new.half_move == irr.half_move
        &&& new.full_move == irr.full_move
        &&& new.ply == old.ply - 1
        &&& new.pos_rev@ == old.pos_rev@.drop_last()
        &&& new.pos_irr@ == old.pos_irr@.drop_last()
        &&& new.s_history == old.s_history
        &&& new.s_killers == old.s_killers
        &&& new.pv@ == old.pv@
    }
}

/// `new` has the pieces, key, side, ply and move lists of `old`, and the castling rights,
/// en passant square and clocks saved in `irr`.
pub open spec fn game_restored(new: &Game, old: &Game, irr: BoardState) -> bool {
    &&& new.squares == old.squares
    &&& new.bitboard == old.bitboard
    &&& new.key == old.key
    &&& new.color == old.color
    &&& new.castling == irr.castling
    &&& new.ep == irr.ep
    &&& new.half_move == irr.half_move
    &&& new.full_move == irr.full_move
    &&& new.ply == old.ply
    &&& new.pos_rev@ == old.pos_rev@
    &&& new.pos_irr@ == old.pos_irr@
    &&& new.s_history == old.s_history
    &&& new.s_killers == old.s_killers
    &&& new.pv@ == old.pv@
}


/// Exclusive or cancels in the orders in which a move and its undoing key their pieces; the
/// bitwise or of two keys does not depend on their order.
proof fn lemma_key_undo(k: u64, a: u64, b: u64, c: u64)
    by (bit_vector)
    ensures
        (k ^ a) ^ a == k,
        (((k ^ a) ^ b) ^ a) ^ b == k,
        (((((k ^ a) ^ b) ^ c) ^ c) ^ a) ^ b == k,
        (((((k ^ a) ^ b) ^ c) ^ b) ^ a) ^ c == k,
        (((((k ^ a) ^ b) ^ c) ^ c) ^ b) ^ a == k,
        (((k ^ a) ^ b) ^ b) ^ a == k,
        a | b == b | a,
{
}

/// Keying the same state twice gives the key back.
proof fn lemma_keyed_state_twice(k: u64, color: u8, castling: u8, ep: Option<u8>)
    ensures
        keyed_state(keyed_state(k, color, castling, ep), color, castling, ep) == k,
{
    let a = color_key(color) | castle_key(castling as int);
    match ep {
        Some(e) => lemma_key_undo(k, a, ep_key(e as int), 0),
        None => lemma_key_undo(k, a, 0, 0),
    }
}

/// Undoing the keys of a move gives the key back.
proof fn lemma_keyed_unmove_move(k: u64, mv: Move)
    ensures
        keyed_unmove(keyed_move(k, mv), mv) == k,
{
    let from = mv.from as int;
    let to = mv.to as int;
    let p = mv.piece as int;
    let rook = ROOK + piece_color(mv.piece);
    match mv.flag {
        Flag::Quiet => {
            lemma_key_undo(k, piece_key(to, p) | piece_key(from, p), 0, 0);
            lemma_key_undo(k, piece_key(to, p), piece_key(from, p), 0);
        },
        Flag::Capture(q) => lemma_key_undo(k, piece_key(from, p), piece_key(to, q as int), piece_key(to, p)),
        Flag::EP => lemma_key_undo(k, piece_key(from, p), piece_key(to, p), piece_key(ep_victim(mv), PAWN + 1 - piece_color(mv.piece))),
        Flag::Promotion(q, cap) => match cap {
            Some(x) => lemma_key_undo(k, piece_key(from, p), piece_key(to, x as int), piece_key(to, q as int)),
            None => lemma_key_undo(k, piece_key(from, p), piece_key(to, q as int), 0),
        },
        Flag::KingCastle | Flag::QueenCastle => {
            let a = piece_key(to, p) | piece_key(from, p);
            let b = piece_key(castle_rook(mv).1, rook) | piece_key(castle_rook(mv).0, rook);
            lemma_key_undo(k, a, b, 0);
            lemma_key_undo(k, piece_key(to, p), piece_key(from, p), 0);
            lemma_key_undo(k, piece_key(castle_rook(mv).1, rook), piece_key(castle_rook(mv).0, rook), 0);
        },
        Flag::NullMove => {},
    }
}

/// A move that fits the game can be taken back once played, and taking it back gives the
/// squares it was played on.
proof fn lemma_fits_moved_undo(g: &Game, mv: Move)
    requires
        game_move_fits(g, mv),
    ensures
        undo_fits(moved_squares(g.squares@, mv), mv),
        unmoved_squares(moved_squares(g.squares@, mv), mv) == g.squares@,
{
    let s0 = g.squares@;
    assert(unmoved_squares(moved_squares(s0, mv), mv) =~= s0);
}

/// The side to move keeps a king when it plays a move that fits the game.
proof fn lemma_game_king_stays(g: &Game, mv: Move, squares: [Option<Piece>; 64], bb: [u64; 14])
    requires
        cells_ok(g.squares, g.bitboard),
        game_move_fits(g, mv),
        g.bitboard[KING + g.color] != 0,
        squares@ == moved_squares(g.squares@, mv),
        cells_ok(squares, bb),
    ensures
        bb[KING + g.color] != 0,
{
    let c = g.color;
    let kb = g.bitboard[KING + c];
    crate::bits::lemma_nonzero_has_bit(kb);
    let k = choose|k: u64| k < 64 && #[trigger] has_bit(kb, k);
    assert(g.squares[k as int] == Some((KING + c) as u8));
    let k1: u64 = if k == mv.from as u64 {
        mv.to as u64
    } else {
        k
    };
    assert(squares[k1 as int] == Some((KING + c) as u8));
    assert(has_bit(bb[KING + c], k1));
    lemma_bit_consts();
}

/// Taking back a move right after it was played gives back the pieces, key, side, ply and
/// move lists of the game it was played on, with the state saved beside the move.
pub proof fn lemma_game_undo_after_make(g0: &Game, rev: Move, irr: BoardState, g1: &Game, g2: &Game)
    requires
        g0.can_make(rev, irr),
        game_made(g0, rev, irr, g1),
        game_undone(g1, g2),
    ensures
        game_restored(g2, g0, irr),
{
    lemma_fits_moved_undo(g0, rev);
    assert(g1.pos_rev@.last() == rev);
    assert(g1.pos_irr@.last() == irr);
    assert(g2.squares@ == g0.squares@);
    assert(g2.squares =~= g0.squares);
    lemma_bitboards_of_cells(g0.squares, g2.bitboard, g0.bitboard);
    lemma_keyed_state_twice(keyed_move(g0.key, rev), g1.color, g1.castling, g1.ep);
    lemma_keyed_unmove_move(g0.key, rev);
    assert(g2.pos_rev@ =~= g0.pos_rev@);
    assert(g2.pos_irr@ =~= g0.pos_irr@);
}

pub trait GameMoveTrait {
    /// The square `sq` holds a piece that indexes a bitboard.
    spec fn holds_piece(&self, sq: int) -> bool;

    /// A piece may be put on the square `sq`: what stands there indexes a bitboard.
    spec fn can_put(&self, sq: int) -> bool;

    /// The state keys can be taken: side, rights and en passant square index their tables.
    spec fn keys_ready(&self) -> bool;

    /// The move fits the game and can be played.
    spec fn can_make(&self, rev: Move, irr: BoardState) -> bool;

    /// The last move can be taken back.
    spec fn can_undo(&self) -> bool;

    fn make_move(&mut self, rev: &Move, irr: &BoardState) -> bool
        requires
            old(self).can_make(*rev, *irr),
    ;

    fn undo_move(&mut self)
        requires
            old(self).can_undo(),
    ;

    fn generate_pos_key(&mut self)
        requires
            old(self).keys_ready(),
    ;

    fn add_piece(&mut self, sq: usize, piece: Piece)
        requires
            sq < 64,
            piece < 14,
            old(self).can_put(sq as int),
    ;

    fn clear_piece(&mut self, sq: usize)
        requires
            sq < 64,
            old(self).holds_piece(sq as int),
    ;

    fn replace_piece(&mut self, from_sq: usize, to_sq: usize)
        requires
            from_sq < 64,
            to_sq < 64,
            old(self).holds_piece(from_sq as int),
            from_sq != to_sq ==> old(self).can_put(to_sq as int),
    ;

    fn quiet_mv(&mut self, from_sq: usize, to_sq: usize, piece: Piece)
        requires
            from_sq < 64,
            to_sq < 64,
            piece < 14,
    ;
}

impl GameMoveTrait for Game {
    open spec fn holds_piece(&self, sq: int) -> bool {
        self.squares[sq] is Some && self.squares[sq]->0 < 14
    }

    open spec fn can_put(&self, sq: int) -> bool {
        self.squares[sq] is Some ==> self.squares[sq]->0 < 14
    }

    open spec fn keys_ready(&self) -> bool {
        &&& self.color < 2
        &&& self.castling < 16
        &&& self.ep is Some ==> self.ep->0 < 64
    }

    open spec fn can_make(&self, rev: Move, irr: BoardState) -> bool {
        &&& cells_ok(self.squares, self.bitboard)
        &&& self.color < 2
        &&& self.castling < 16
        &&& game_move_fits(self, rev)
        &&& self.bitboard[KING + self.color] != 0
        &&& (!(piece_kind(rev.piece) == PAWN || rev.flag is Capture) ==> self.half_move < 255)
        &&& (self.pos_rev@.len() % 2 == 0 ==> self.full_move < 0xffff)
        &&& self.ply < usize::MAX
    }

    open spec fn can_undo(&self) -> bool {
        &&& (self.pos_rev@.len() == 0) == (self.pos_irr@.len() == 0)
        &&& self.pos_rev@.len() > 0 ==> {
            &&& self.keys_ready()
            &&& self.ply > 0
            &&& undo_fits(self.squares@, self.pos_rev@.last())
        }
    }

    /// Plays `rev` and saves `irr` beside it. When the move leaves the mover's king attacked,
    /// it is taken back and `false` is returned; after `true` the move can be taken back.
    fn make_move(&mut self, rev: &Move, irr: &BoardState) -> (r: bool)
        ensures
            r ==> game_made(old(self), *rev, *irr, final(self)) && !bb_king_attacked(final(self).bitboard, old(self).color),
            r ==> final(self).can_undo(),
            !r ==> game_restored(final(self), old(self), *irr) && exists|g1: Game|
                game_made(old(self), *rev, *irr, &g1) && bb_king_attacked(g1.bitboard, old(self).color),
    {
        let ghost g0 = *self;
        let from = rev.from as usize;
        let to = rev.to as usize;
        let c = rev.piece.color();
        match rev.flag {
            Flag::Quiet => self.quiet_mv(from, to, rev.piece),
            Flag::Capture(_) => self.replace_piece(from, to),
            Flag::EP => {
                self.replace_piece(from, to);
                self.clear_piece((rev.to + 16 * c - 8) as usize);
            },
            Flag::Promotion(piece, _) => {
                self.clear_piece(from);
                self.add_piece(to, piece);
            },
            Flag::KingCastle => {
                let sq = rook_sq(c, 0);
                self.quiet_mv(from, to, rev.piece);
                self.quiet_mv(sq.0, sq.1, ROOK + c);
            },
            Flag::QueenCastle => {
                let sq = rook_sq(c, 1);
                self.quiet_mv(from, to, rev.piece);
                self.quiet_mv(sq.0, sq.1, ROOK + c);
            },
            Flag::NullMove => {},
        }
        let ghost moved = *self;
        proof {
            lemma_game_king_stays(&g0, *rev, moved.squares, moved.bitboard);
        }
        self.color.switch();
        self.castling = rights_update(self.castling, &self.bitboard);
        let diff = if rev.from > rev.to {
            rev.from - rev.to
        } else {
            rev.to - rev.from
        };
        if rev.piece.is_pawn() && diff == 16 {
            self.ep = Some(rev.to + 16 * c - 8);
        } else {
            self.ep = None;
        }
        if rev.piece.is_pawn() || matches!(rev.flag, Flag::Capture(_)) {
            self.half_move = 0;
        } else {
            self.half_move = self.half_move + 1;
        }
        if self.pos_rev.len() % 2 == 0 {
            self.full_move = self.full_move + 1;
        }
        self.ply = self.ply + 1;
        self.generate_pos_key();
        self.pos_irr.push(*irr);
        self.pos_rev.push(*rev);
        let ghost g1 = *self;
        assert(game_made(&g0, *rev, *irr, &g1));
        if !king_safe_on(&self.bitboard, c) {
            proof {
                lemma_fits_moved_undo(&g0, *rev);
            }
            self.undo_move();
            proof {
                lemma_game_undo_after_make(&g0, *rev, *irr, &g1, self);
            }
            return false;
        }
        proof {
            lemma_fits_moved_undo(&g0, *rev);
        }
        true
    }

    /// Takes back the last move: the state saved beside it comes back, the pieces move back.
    fn undo_move(&mut self)
        ensures
            game_undone(old(self), final(self)),
    {
        let ghost g0 = *self;
        let popped = (self.pos_rev.pop(), self.pos_irr.pop());
        let (rev, irr) = match popped {
            (Some(rev), Some(irr)) => (rev, irr),
            (None, None) => return,
            (_, _) => {
                proof {
                    assert(false);
                }
                return;
            },
        };
        self.generate_pos_key();
        let ghost keyed = self.key;
        self.ply = self.ply - 1;
        self.full_move = irr.full_move;
        self.half_move = irr.half_move;
        self.ep = irr.ep;
        self.castling = irr.castling;
        self.color.switch();
        let from = rev.from as usize;
        let to = rev.to as usize;
        let c = rev.piece.color();
        proof {
            crate::piece::lemma_piece_color_mod(rev.piece);
        }
        match rev.flag {
            Flag::Quiet => self.quiet_mv(to, from, rev.piece),
            Flag::Capture(piece) => {
                self.replace_piece(to, from);
                self.add_piece(to, piece);
            },
            Flag::EP => {
                self.replace_piece(to, from);
                self.add_piece((rev.to + 16 * c - 8) as usize, PAWN + c.opposite());
            },
            Flag::Promotion(_, cap_piece) => {
                self.clear_piece(to);
                if let Some(piece) = cap_piece {
                    self.add_piece(to, piece);
                }
                self.add_piece(from, rev.piece);
            },
            Flag::KingCastle => {
                let sq = rook_sq(c, 0);
                self.quiet_mv(to, from, rev.piece);
                self.quiet_mv(sq.1, sq.0, ROOK + c);
            },
            Flag::QueenCastle => {
                let sq = rook_sq(c, 1);
                self.quiet_mv(to, from, rev.piece);
                self.quiet_mv(sq.1, sq.0, ROOK + c);
            },
            Flag::NullMove => {},
        }
        proof {
            assert(self.squares@ =~= unmoved_squares(g0.squares@, rev));
        }
    }

    /// Joins the keys of the side to move and the castling rights, and adds the en passant key.
    fn generate_pos_key(&mut self)
        ensures
            final(self).key == keyed_state(old(self).key, old(self).color, old(self).castling, old(self).ep),
            final(self).squares == old(self).squares,
            final(self).bitboard == old(self).bitboard,
            same_rest(final(self), old(self)),
    {
        let side = if self.color == 1 {
            side_key_value()
        } else {
            0
        };
        self.key = self.key ^ (side | castle_key_value(self.castling));
        if let Some(idx) = self.ep {
            self.key = self.key ^ ep_key_value(idx);
        }
    }

    /// Puts `piece` on `sq`, taking off first what stands there.
    fn add_piece(&mut self, sq: usize, piece: Piece)
        ensures
            final(self).squares@ == old(self).squares@.update(sq as int, Some(piece)),
            final(self).bitboard@ == put_on(old(self).bitboard@, old(self).squares[sq as int], sq as u64, piece),
            final(self).key == put_key(old(self).key, old(self).squares[sq as int], sq as int, piece),
            same_rest(final(self), old(self)),
            cells_ok(old(self).squares, old(self).bitboard) && valid_piece(piece) ==> cells_ok(final(self).squares, final(self).bitboard),
    {
        let ghost g0 = *self;
        match self.squares[sq] {
            None => (),
            Some(_) => self.clear_piece(sq),
        }
        let ghost g1 = *self;
        self.squares[sq] = Some(piece);
        let c = piece.color() as usize;
        proof {
            crate::piece::lemma_piece_color_mod(piece);
        }
        let mut b = self.bitboard[piece as usize];
        b.set_bit(sq);
        self.bitboard[piece as usize] = b;
        let mut b2 = self.bitboard[c];
        b2.set_bit(sq);
        self.bitboard[c] = b2;
        self.key = self.key ^ piece_key_value(sq, piece as usize);
        proof {
            assert(self.squares@ =~= g0.squares@.update(sq as int, Some(piece)));
            if cells_ok(g0.squares, g0.bitboard) && valid_piece(piece) {
                lemma_pieces_after_add(g1.squares, g1.bitboard, self.squares, self.bitboard, sq as u64, piece);
            }
        }
    }

    /// Takes off the piece that stands on `sq`.
    fn clear_piece(&mut self, sq: usize)
        ensures
            final(self).squares@ == old(self).squares@.update(sq as int, None),
            final(self).bitboard@ == without_square(old(self).bitboard@, old(self).squares[sq as int]->0 as int, sq as u64),
            final(self).key == old(self).key ^ piece_key(sq as int, old(self).squares[sq as int]->0 as int),
            same_rest(final(self), old(self)),
            cells_ok(old(self).squares, old(self).bitboard) ==> cells_ok(final(self).squares, final(self).bitboard),
    {
        let ghost g0 = *self;
        match self.squares[sq] {
            None => {
                proof {
                    assert(false);
                }
            },
            Some(piece) => {
                self.squares[sq] = None;
                let c = piece.color() as usize;
                proof {
                    crate::piece::lemma_piece_color_mod(piece);
                }
                let mut b = self.bitboard[piece as usize];
                b.clear_bit(sq);
                self.bitboard[piece as usize] = b;
                let mut b2 = self.bitboard[c];
                b2.clear_bit(sq);
                self.bitboard[c] = b2;
                self.key = self.key ^ piece_key_value(sq, piece as usize);
                proof {
                    if cells_ok(g0.squares, g0.bitboard) {
                        lemma_pieces_after_clear(g0.squares, g0.bitboard, self.squares, self.bitboard, sq as u64, piece);
                    }
                }
            },
        }
    }

    /// Moves the piece on `from_sq` to `to_sq`, taking off what stood there.
    fn replace_piece(&mut self, from_sq: usize, to_sq: usize)
        ensures
            final(self).squares@ == old(self).squares@.update(from_sq as int, None).update(to_sq as int, old(self).squares[from_sq as int]),
            final(self).bitboard@ == put_on(
                without_square(old(self).bitboard@, old(self).squares[from_sq as int]->0 as int, from_sq as u64),
                old(self).squares@.update(from_sq as int, None)[to_sq as int],
                to_sq as u64,
                old(self).squares[from_sq as int]->0,
            ),
            final(self).key == put_key(
                old(self).key ^ piece_key(from_sq as int, old(self).squares[from_sq as int]->0 as int),
                old(self).squares@.update(from_sq as int, None)[to_sq as int],
                to_sq as int,
                old(self).squares[from_sq as int]->0,
            ),
            same_rest(final(self), old(self)),
            cells_ok(old(self).squares, old(self).bitboard) ==> cells_ok(final(self).squares, final(self).bitboard),
    {
        let piece = match self.squares[from_sq] {
            None => {
                proof {
                    assert(false);
                }
                0
            },
            Some(piece) => piece,
        };
        self.clear_piece(from_sq);
        self.add_piece(to_sq, piece);
    }

    /// Moves `piece` from `from_sq` to `to_sq` in the squares, toggles both squares in its
    /// bitboards and keys it by the bitwise or of its two square keys.
    fn quiet_mv(&mut self, from_sq: usize, to_sq: usize, piece: Piece)
        ensures
            final(self).squares@ == old(self).squares@.update(from_sq as int, None).update(to_sq as int, Some(piece)),
            final(self).bitboard@ == toggled(old(self).bitboard@, piece as int, sq_bb(to_sq as u64) | sq_bb(from_sq as u64)),
            final(self).key == old(self).key ^ (piece_key(to_sq as int, piece as int) | piece_key(from_sq as int, piece as int)),
            same_rest(final(self), old(self)),
            cells_ok(old(self).squares, old(self).bitboard) && valid_piece(piece) && from_sq != to_sq && old(self).squares[from_sq as int]
                == Some(piece) && old(self).squares[to_sq as int] is None ==> cells_ok(final(self).squares, final(self).bitboard),
    {
        let ghost g0 = *self;
        self.squares[from_sq] = None;
        self.squares[to_sq] = Some(piece);
        let m = (1u64 << to_sq as u64) | (1u64 << from_sq as u64);
        let c = piece.color() as usize;
        proof {
            crate::piece::lemma_piece_color_mod(piece);
        }
        self.bitboard[piece as usize] = self.bitboard[piece as usize] ^ m;
        self.bitboard[c] = self.bitboard[c] ^ m;
        self.key = self.key ^ (piece_key_value(to_sq, piece as usize) | piece_key_value(from_sq, piece as usize));
        proof {
            if cells_ok(g0.squares, g0.bitboard) && valid_piece(piece) && from_sq != to_sq && g0.squares[from_sq as int] == Some(piece)
                && g0.squares[to_sq as int] is None {
                lemma_pieces_after_toggle(g0.squares, g0.bitboard, self.squares, self.bitboard, from_sq as u64, to_sq as u64, piece);
            }
        }
    }
}

} // verus!
