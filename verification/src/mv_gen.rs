use vstd::prelude::*;
use crate::bits::{has_bit, row_of, col_of, lemma_bit_ops, lemma_bit_consts, lemma_bit_shift, file_bitboard, rank_bitboard, BitboardTrait};
use crate::board::Board;
use crate::attacks::{lemma_step_sym, get_pawn_att, get_pawn_mv, get_knight_mv, get_bishop_mv, get_rook_mv, get_queen_mv, get_king_mv, pawn_att_target, pawn_push_target, pawn_dir, pawn_start_row, knight_target, bishop_target, rook_target, queen_target, king_target};
use crate::piece::{Piece, PieceTrait, Color, ColorTrait, valid_piece, piece_color, piece_kind, piece_weight_spec, opp_color, WHITE, BLACK, PAWN, KNIGHT, KING, BISHOP, ROOK, QUEEN, PROMO_PIECES, PIECES_WITHOUT_PAWN};
use crate::moves::{Move, Flag};
use crate::make_move::{move_applicable, double_push_ok, made, same_position, king_attacked, can_make_spec, lemma_undo_after_make, lemma_bitboards_from_squares, BoardMoveTrait};
use crate::castling::{cr_has, castle_gap, castle_path, right_color, clr_side_mask, castle_rook_home, castle_king_home, castle_right, castle_color, rook_squares, CastlingRightsTrait, CASTLING_WKINGSIDE, CASTLING_WQUEENSIDE, CASTLING_BKINGSIDE, CASTLING_BQUEENSIDE};

verus! {

/// The piece on `t` is one of the pieces of the side other than `color` that attack the square `sq`.
pub open spec fn attacker_of(bb: [u64; 14], sq: int, color: u8, t: u64) -> bool {
    let own = bb[color as int];
    let enemy = bb[1 - color];
    let occ = own | enemy;
    let row = row_of(sq);
    let col = col_of(sq);
    let o = 1 - color;
    &&& !has_bit(own, t)
    &&& {
        ||| (pawn_att_target(color, sq, t as int) && has_bit(enemy, t) && has_bit(bb[PAWN + o], t))
        ||| (knight_target(row, col, t as int) && has_bit(bb[KNIGHT + o], t))
        ||| (bishop_target(sq, occ, t as int) && (has_bit(bb[QUEEN + o], t) || has_bit(bb[BISHOP + o], t)))
        ||| (rook_target(sq, occ, t as int) && (has_bit(bb[QUEEN + o], t) || has_bit(bb[ROOK + o], t)))
        ||| (king_target(row, col, t as int) && has_bit(bb[KING + o], t))
    }
}

/// The square `sq` is attacked by a piece of the side other than `color`.
pub open spec fn sq_attacked(bb: [u64; 14], sq: int, color: u8) -> bool {
    exists|t: u64| t < 64 && #[trigger] attacker_of(bb, sq, color, t)
}


/// The pieces of the side other than `color` that attack the square `sq`.
pub fn attackers(bb: &[u64; 14], sq: usize, color: Color) -> (r: u64)
    requires
        sq < 64,
        color < 2,
    ensures
        forall|t: u64| t < 64 ==> #[trigger] has_bit(r, t) == attacker_of(*bb, sq as int, color, t),
{
    let own_occ = bb[color as usize];
    let enemy_occ = bb[(1 - color) as usize];
    let op_pawns = bb[(PAWN + 1 - color) as usize];
    let op_knights = bb[(KNIGHT + 1 - color) as usize];
    let op_rq = bb[(QUEEN + 1 - color) as usize] | bb[(ROOK + 1 - color) as usize];
    let op_bq = bb[(QUEEN + 1 - color) as usize] | bb[(BISHOP + 1 - color) as usize];
    let op_king = bb[(KING + 1 - color) as usize];
    let pa = get_pawn_att(color, sq, own_occ, enemy_occ, None);
    let kn = get_knight_mv(sq, own_occ, enemy_occ, color);
    let bi = get_bishop_mv(sq, own_occ, enemy_occ, color);
    let ro = get_rook_mv(sq, own_occ, enemy_occ, color);
    let ki = get_king_mv(sq, own_occ, enemy_occ, color);
    let a = pa & op_pawns;
    let b = kn & op_knights;
    let c = bi & op_bq;
    let d = ro & op_rq;
    let e = ki & op_king;
    proof {
        lemma_bit_ops(pa, op_pawns);
        lemma_bit_ops(kn, op_knights);
        lemma_bit_ops(bi, op_bq);
        lemma_bit_ops(ro, op_rq);
        lemma_bit_ops(ki, op_king);
        lemma_bit_ops(bb[(QUEEN + 1 - color) as int], bb[(ROOK + 1 - color) as int]);
        lemma_bit_ops(bb[(QUEEN + 1 - color) as int], bb[(BISHOP + 1 - color) as int]);
        lemma_bit_ops(a, b);
        lemma_bit_ops(a | b, c);
        lemma_bit_ops(a | b | c, d);
        lemma_bit_ops(a | b | c | d, e);
    }
    a | b | c | d | e
}

/// A bound on the number of moves the generator produces for one position.
pub const MAX_GEN: usize = 42434;

/// A kind a pawn may promote to.
pub open spec fn promo_kind(q: u8) -> bool {
    let k = piece_kind(q);
    k == KNIGHT || k == BISHOP || k == ROOK || k == QUEEN
}

/// A piece other than a pawn on `from` reaches `to` when the pieces of `occ` stand on the board.
pub open spec fn piece_reaches(p: u8, from: int, occ: u64, to: int) -> bool {
    let k = piece_kind(p);
    if k == KNIGHT {
        knight_target(row_of(from), col_of(from), to)
    } else if k == KING {
        king_target(row_of(from), col_of(from), to)
    } else if k == BISHOP {
        bishop_target(from, occ, to)
    } else if k == ROOK {
        rook_target(from, occ, to)
    } else if k == QUEEN {
        queen_target(from, occ, to)
    } else {
        false
    }
}

/// A pawn push of one square, or of two from the start row.
pub open spec fn pawn_push_geom(c: u8, from: int, to: int) -> bool {
    ||| to == from + 8 * pawn_dir(c)
    ||| (to == from + 16 * pawn_dir(c) && row_of(from) == pawn_start_row(c))
}

/// The row on which the pawns of `c` promote.
pub open spec fn last_row(c: u8) -> int {
    if c == WHITE {
        7
    } else {
        0
    }
}

/// The squares occupied by either side.
pub open spec fn occupied(b: &Board) -> u64 {
    b.bitboard[b.state.color as int] | b.bitboard[1 - b.state.color]
}

/// The side to move may castle with the right `r`: it holds the right, the squares between
/// king and rook are empty and the king passes no attacked square.
pub open spec fn castle_allowed(b: &Board, r: u8) -> bool {
    &&& cr_has(b.state.castling, r)
    &&& forall|s: u64| s < 64 && castle_gap(r, s as int) ==> !#[trigger] has_bit(occupied(b), s)
    &&& !sq_attacked(b.bitboard, castle_path(r).0, right_color(r))
    &&& !sq_attacked(b.bitboard, castle_path(r).1, right_color(r))
    &&& !sq_attacked(b.bitboard, castle_path(r).2, right_color(r))
}

/// The move is one the generator produces: it can be played on the board and follows
/// the way its piece moves.
pub open spec fn gen_ok(b: &Board, mv: Move) -> bool {
    let from = mv.from as int;
    let to = mv.to as int;
    let p = mv.piece;
    let c = b.state.color;
    &&& move_applicable(b, mv)
    &&& match mv.flag {
        Flag::Quiet => if piece_kind(p) == PAWN {
            row_of(to) != last_row(c) && pawn_push_geom(c, from, to)
        } else {
            piece_reaches(p, from, occupied(b), to)
        },
        Flag::Capture(_) => if piece_kind(p) == PAWN {
            row_of(to) != last_row(c) && pawn_att_target(c, from, to)
        } else {
            piece_reaches(p, from, occupied(b), to)
        },
        Flag::EP => pawn_att_target(c, from, to),
        Flag::Promotion(q, cap) => row_of(to) == last_row(c) && promo_kind(q) && match cap {
            None => to == from + 8 * pawn_dir(c),
            Some(_) => pawn_att_target(c, from, to),
        },
        Flag::KingCastle => castle_allowed(b, clr_side_mask(c, 0)),
        Flag::QueenCastle => castle_allowed(b, clr_side_mask(c, 1)),
        Flag::NullMove => false,
    }
}

/// Order score of a quiet move of a piece: the killer moves of the ply first, then the
/// history count of piece and target square.
pub open spec fn quiet_score(b: &Board, mv: Move) -> isize {
    let ply = b.moves@.len() as int;
    if b.s_killers[ply][0] == Some(mv) {
        90000
    } else if b.s_killers[ply][1] == Some(mv) {
        80000
    } else {
        b.s_history[mv.piece as int][mv.to as int] as isize
    }
}

/// Order score the generator gives a move.
pub open spec fn move_score(b: &Board, mv: Move) -> isize {
    match mv.flag {
        Flag::Quiet => if piece_kind(mv.piece) == PAWN {
            0
        } else {
            quiet_score(b, mv)
        },
        Flag::Capture(q) => if piece_kind(mv.piece) == PAWN {
            0
        } else {
            (piece_weight_spec(piece_kind(q)) - mv.piece) as isize
        },
        Flag::EP => 100,
        Flag::Promotion(q, cap) => match cap {
            None => piece_weight_spec(piece_kind(q)),
            Some(x) => (piece_weight_spec(piece_kind(x)) - mv.piece + piece_weight_spec(piece_kind(q))) as isize,
        },
        _ => 0,
    }
}

/// A generated move with its order score.
pub open spec fn scored_ok(b: &Board, e: (Move, isize)) -> bool {
    gen_ok(b, e.0) && e.1 == move_score(b, e.0)
}

/// `new` is `b` with entries appended to the list of generated moves.
pub open spec fn gen_grown(b: &Board, new: &Board) -> bool {
    &&& new.squares == b.squares
    &&& new.bitboard == b.bitboard
    &&& new.state == b.state
    &&& new.moves@ == b.moves@
    &&& new.history@ == b.history@
    &&& new.s_history == b.s_history
    &&& new.s_killers == b.s_killers
    &&& new.pv_moves == b.pv_moves
    &&& new.pv_len == b.pv_len
    &&& new.eval == b.eval
    &&& b.gen_moves@.len() <= new.gen_moves@.len()
    &&& new.gen_moves@.subrange(0, b.gen_moves@.len() as int) == b.gen_moves@
}

/// `new` is `b` with generated moves and their scores appended.
pub open spec fn gen_extends(b: &Board, new: &Board) -> bool {
    &&& gen_grown(b, new)
    &&& forall|i: int| b.gen_moves@.len() <= i < new.gen_moves@.len() ==> scored_ok(b, #[trigger] new.gen_moves@[i])
}

/// Every square of `bb` is a quiet target of `piece` from `sq`.
pub open spec fn quiet_set_ok(b: &Board, bb: u64, piece: u8, sq: int) -> bool {
    forall|t: u64| t < 64 && #[trigger] has_bit(bb, t) ==> gen_ok(b, Move { from: sq as u8, to: t as u8, piece, flag: Flag::Quiet })
}

/// Every square of `bb` holds a piece that `piece` on `sq` may take.
pub open spec fn capture_set_ok(b: &Board, bb: u64, piece: u8, sq: int) -> bool {
    forall|t: u64| t < 64 && #[trigger] has_bit(bb, t) ==> b.squares[t as int] is Some && gen_ok(
        b,
        Move { from: sq as u8, to: t as u8, piece, flag: Flag::Capture(b.squares[t as int]->0) },
    )
}

/// Squares a piece on `sq` moves to, captures included.
pub open spec fn mv_target(piece: u8, sq: int, own: u64, enemy: u64, t: int) -> bool {
    if piece_kind(piece) == PAWN {
        pawn_push_target(piece_color(piece), sq, own | enemy, t) || (pawn_att_target(piece_color(piece), sq, t) && !has_bit(
            own,
            t as u64,
        ) && has_bit(enemy, t as u64))
    } else {
        piece_reaches(piece, sq, own | enemy, t) && !has_bit(own, t as u64)
    }
}

/// Whether a move is generated, and its score, do not depend on the list of generated moves.
pub proof fn lemma_gen_frame(b0: &Board, b1: &Board, mv: Move)
    requires
        b1.squares == b0.squares,
        b1.bitboard == b0.bitboard,
        b1.state == b0.state,
        b1.moves@ == b0.moves@,
        b1.s_history == b0.s_history,
        b1.s_killers == b0.s_killers,
    ensures
        gen_ok(b0, mv) == gen_ok(b1, mv),
        move_score(b0, mv) == move_score(b1, mv),
{
    assert(move_applicable(b0, mv) == move_applicable(b1, mv));
    assert(occupied(b0) == occupied(b1));
    assert(castle_allowed(b0, clr_side_mask(b0.state.color, 0)) == castle_allowed(b1, clr_side_mask(b0.state.color, 0)));
    assert(castle_allowed(b0, clr_side_mask(b0.state.color, 1)) == castle_allowed(b1, clr_side_mask(b0.state.color, 1)));
    assert(quiet_score(b0, mv) == quiet_score(b1, mv));
}

/// Generated entries of one board are generated entries of a board that differs only in
/// its list of generated moves.
proof fn lemma_gen_extends_trans(b0: &Board, b1: &Board, b2: &Board)
    requires
        gen_extends(b0, b1),
        gen_extends(b1, b2),
    ensures
        gen_extends(b0, b2),
{
    assert(b2.gen_moves@.subrange(0, b0.gen_moves@.len() as int) =~= b0.gen_moves@) by {
        assert(b1.gen_moves@.subrange(0, b0.gen_moves@.len() as int) == b0.gen_moves@);
        assert forall|i: int| 0 <= i < b0.gen_moves@.len() implies b2.gen_moves@[i] == b0.gen_moves@[i] by {
            assert(b2.gen_moves@[i] == b2.gen_moves@.subrange(0, b1.gen_moves@.len() as int)[i]);
            assert(b1.gen_moves@[i] == b1.gen_moves@.subrange(0, b0.gen_moves@.len() as int)[i]);
        }
    }
    assert forall|i: int| b0.gen_moves@.len() <= i < b2.gen_moves@.len() implies scored_ok(b0, #[trigger] b2.gen_moves@[i]) by {
        if i < b1.gen_moves@.len() {
            assert(b2.gen_moves@[i] == b2.gen_moves@.subrange(0, b1.gen_moves@.len() as int)[i]);
            assert(scored_ok(b0, b1.gen_moves@[i]));
        } else {
            assert(scored_ok(b1, b2.gen_moves@[i]));
            lemma_gen_frame(b0, b1, b2.gen_moves@[i].0);
        }
    }
}

/// A board extends itself.
proof fn lemma_gen_extends_refl(b: &Board)
    ensures
        gen_extends(b, b),
{
    assert(b.gen_moves@.subrange(0, b.gen_moves@.len() as int) =~= b.gen_moves@);
}

impl Board {
    /// Appends a generated move with its score.
    fn push_gen(&mut self, mv: Move, score: isize)
        requires
            scored_ok(old(self), (mv, score)),
        ensures
            gen_extends(old(self), final(self)),
            final(self).gen_moves@ == old(self).gen_moves@.push((mv, score)),
    {
        self.gen_moves.push((mv, score));
        proof {
            assert(self.gen_moves@.subrange(0, old(self).gen_moves@.len() as int) =~= old(self).gen_moves@);
        }
    }

    /// Appends a move that may not be one the generator produces.
    fn push_any(&mut self, mv: Move, score: isize)
        ensures
            gen_grown(old(self), final(self)),
            final(self).gen_moves@ == old(self).gen_moves@.push((mv, score)),
            scored_ok(old(self), (mv, score)) ==> gen_extends(old(self), final(self)),
    {
        self.gen_moves.push((mv, score));
        proof {
            assert(self.gen_moves@.subrange(0, old(self).gen_moves@.len() as int) =~= old(self).gen_moves@);
        }
    }
}

/// A pawn move without a capture: a push, or a promotion on an empty square.
pub open spec fn pawn_push_move(m: Move) -> bool {
    piece_kind(m.piece) == PAWN && (m.flag is Quiet || (m.flag is Promotion && m.flag->Promotion_1 is None))
}

/// A pawn capture other than en passant: a plain capture or a promotion that takes.
pub open spec fn pawn_take_move(m: Move) -> bool {
    piece_kind(m.piece) == PAWN && (m.flag is Capture || (m.flag is Promotion && m.flag->Promotion_1 is Some))
}

/// Quiet moves of `piece` from `sq` to the squares of `bb`.
pub open spec fn quiet_stage(bb: u64, piece: u8, sq: usize) -> spec_fn(Move) -> bool {
    |m: Move| m.from == sq as u8 && m.piece == piece && m.flag is Quiet && m.to < 64 && has_bit(bb, m.to as u64)
}

/// Captures of `piece` from `sq` on the squares of `bb`.
pub open spec fn capture_stage(bb: u64, piece: u8, sq: usize) -> spec_fn(Move) -> bool {
    |m: Move| m.from == sq as u8 && m.piece == piece && m.flag is Capture && m.to < 64 && has_bit(bb, m.to as u64)
}

/// Promotions of `piece` from `from` to `to`, with a capture (`take`) or without.
pub open spec fn promo_stage(from: u8, to: u8, piece: u8, take: bool) -> spec_fn(Move) -> bool {
    |m: Move| m.from == from && m.to == to && m.piece == piece && m.flag is Promotion && (m.flag->Promotion_1 is Some) == take
}

/// Pawn pushes of `c` of `k` squares ending on the squares of `bits`.
pub open spec fn push_stage(c: u8, bits: u64, k: int, up: bool) -> spec_fn(Move) -> bool {
    |m: Move| m.piece == PAWN + c && m.flag is Quiet && m.to < 64 && has_bit(bits, m.to as u64) && 0 <= back_sq(m.to as int, k, up) < 64
        && m.from == back_sq(m.to as int, k, up) as u8
}

/// Promotions of one-square pawn pushes of `c` ending on the squares of `bits`.
pub open spec fn promo_push_stage(c: u8, bits: u64, up: bool) -> spec_fn(Move) -> bool {
    |m: Move| m.piece == PAWN + c && m.flag is Promotion && m.flag->Promotion_1 is None && m.to < 64 && has_bit(bits, m.to as u64)
        && 0 <= back_sq(m.to as int, 8, up) < 64 && m.from == back_sq(m.to as int, 8, up) as u8
}

/// Pawn captures of `c` from `k` squares behind the squares of `bits`, promotions included.
pub open spec fn take_stage(c: u8, bits: u64, k: int, up: bool) -> spec_fn(Move) -> bool {
    |m: Move| m.piece == PAWN + c && (m.flag is Capture || (m.flag is Promotion && m.flag->Promotion_1 is Some)) && m.to < 64
        && has_bit(bits, m.to as u64) && 0 <= back_sq(m.to as int, k, up) < 64 && m.from == back_sq(m.to as int, k, up) as u8
}

/// Pawn moves of `c` without a capture.
pub open spec fn pawn_push_stage(c: u8) -> spec_fn(Move) -> bool {
    |m: Move| m.piece == PAWN + c && pawn_push_move(m)
}

/// Pawn captures of `c` other than en passant.
pub open spec fn pawn_take_stage(c: u8) -> spec_fn(Move) -> bool {
    |m: Move| m.piece == PAWN + c && pawn_take_move(m)
}

/// Pawn moves of `c` other than en passant.
pub open spec fn pawn_stage(c: u8) -> spec_fn(Move) -> bool {
    |m: Move| m.piece == PAWN + c && (pawn_push_move(m) || pawn_take_move(m))
}

/// Quiet moves and captures of `piece`.
pub open spec fn piece_stage(piece: u8) -> spec_fn(Move) -> bool {
    |m: Move| m.piece == piece && (m.flag is Quiet || m.flag is Capture) && m.from < 64
}

/// Castlings.
pub open spec fn castle_stage() -> spec_fn(Move) -> bool {
    |m: Move| m.flag is KingCastle || m.flag is QueenCastle
}

/// En passant captures.
pub open spec fn ep_stage() -> spec_fn(Move) -> bool {
    |m: Move| m.flag is EP && m.from < 64
}

/// The place of a piece kind in the order in which the generator takes the pieces.
pub open spec fn kind_rank(k: u8) -> int {
    if k == KNIGHT {
        0
    } else if k == BISHOP {
        1
    } else if k == ROOK {
        2
    } else if k == QUEEN {
        3
    } else if k == KING {
        4
    } else {
        5
    }
}

/// Pawn moves of `c`, and quiet moves and captures of its first `k` piece kinds.
pub open spec fn gen_stage_upto(c: u8, k: int) -> spec_fn(Move) -> bool {
    |m: Move| pawn_stage(c)(m) || (piece_color(m.piece) == c && (m.flag is Quiet || m.flag is Capture) && m.from < 64
        && kind_rank(piece_kind(m.piece)) < k)
}

/// Any move.
pub open spec fn any_stage() -> spec_fn(Move) -> bool {
    |m: Move| true
}

/// Captures of `piece`.
pub open spec fn piece_cap_stage(piece: u8) -> spec_fn(Move) -> bool {
    |m: Move| m.piece == piece && m.flag is Capture && m.from < 64
}

/// Pawn captures of `c` other than en passant, and captures of its first `k` piece kinds.
pub open spec fn cap_stage_upto(c: u8, k: int) -> spec_fn(Move) -> bool {
    |m: Move| pawn_take_stage(c)(m) || (piece_color(m.piece) == c && m.flag is Capture && m.from < 64 && kind_rank(piece_kind(m.piece)) < k)
}

/// A move that takes a piece: a capture, an en passant capture or a promotion that takes.
pub open spec fn capture_move(m: Move) -> bool {
    m.flag is Capture || m.flag is EP || (m.flag is Promotion && m.flag->Promotion_1 is Some)
}

/// No move.
pub open spec fn no_stage() -> spec_fn(Move) -> bool {
    |m: Move| false
}

/// The move `m` is among the entries of `g`.
pub open spec fn listed(g: Seq<(Move, isize)>, m: Move) -> bool {
    exists|i: int| #![trigger g[i]] 0 <= i < g.len() && g[i].0 == m
}

/// No move occurs twice among the entries of `g`.
pub open spec fn distinct_moves(g: Seq<(Move, isize)>) -> bool {
    forall|i: int, j: int| 0 <= i < j < g.len() ==> #[trigger] g[i].0 != #[trigger] g[j].0
}

/// Every entry of `g` from index `start` on holds a move of `p`.
pub open spec fn added_all(start: int, g: Seq<(Move, isize)>, p: spec_fn(Move) -> bool) -> bool {
    forall|i: int| start <= i < g.len() ==> p(#[trigger] g[i].0)
}

/// No entry of `g` before index `end` holds a move of `p`.
pub open spec fn none_before(end: int, g: Seq<(Move, isize)>, p: spec_fn(Move) -> bool) -> bool {
    forall|i: int| 0 <= i < end ==> !p(#[trigger] g[i].0)
}

/// Appending a move not yet listed keeps the moves distinct.
proof fn lemma_push_distinct(g: Seq<(Move, isize)>, e: (Move, isize))
    requires
        distinct_moves(g),
        forall|i: int| 0 <= i < g.len() ==> #[trigger] g[i].0 != e.0,
    ensures
        distinct_moves(g.push(e)),
{
    assert forall|i: int, j: int| 0 <= i < j < g.push(e).len() implies #[trigger] g.push(e)[i].0 != #[trigger] g.push(e)[j].0 by {
        if j < g.len() {
            assert(g.push(e)[i] == g[i] && g.push(e)[j] == g[j]);
        } else {
            assert(g.push(e)[i] == g[i]);
        }
    }
}

/// Before a stage that adds moves of `p_new`, no entry holds such a move: the entries before
/// `b0` hold no move of `p_outer`, which takes in `p_new`, and the entries added since hold
/// moves of `p_added`, which `p_new` excludes.
proof fn lemma_stage_fresh(b0: &Board, mid: &Board, p_outer: spec_fn(Move) -> bool, p_added: spec_fn(Move) -> bool, p_new: spec_fn(Move) -> bool)
    requires
        gen_grown(b0, mid),
        none_before(b0.gen_moves@.len() as int, b0.gen_moves@, p_outer),
        added_all(b0.gen_moves@.len() as int, mid.gen_moves@, p_added),
        forall|m: Move| #[trigger] p_new(m) ==> p_outer(m) && !p_added(m),
    ensures
        none_before(mid.gen_moves@.len() as int, mid.gen_moves@, p_new),
{
    assert forall|i: int| 0 <= i < mid.gen_moves@.len() implies !p_new(#[trigger] mid.gen_moves@[i].0) by {
        if i < b0.gen_moves@.len() {
            assert(mid.gen_moves@.subrange(0, b0.gen_moves@.len() as int)[i] == mid.gen_moves@[i]);
            assert(!p_outer(b0.gen_moves@[i].0));
        } else {
            assert(p_added(mid.gen_moves@[i].0));
        }
    }
}

/// Moves added in two stages, each of `p`, are moves of `p` added since the first.
proof fn lemma_stage_added(b0: &Board, b1: &Board, b2: &Board, p1: spec_fn(Move) -> bool, p2: spec_fn(Move) -> bool, p: spec_fn(Move) -> bool)
    requires
        gen_grown(b0, b1),
        gen_grown(b1, b2),
        added_all(b0.gen_moves@.len() as int, b1.gen_moves@, p1),
        added_all(b1.gen_moves@.len() as int, b2.gen_moves@, p2),
        forall|m: Move| #[trigger] p1(m) ==> p(m),
        forall|m: Move| #[trigger] p2(m) ==> p(m),
    ensures
        added_all(b0.gen_moves@.len() as int, b2.gen_moves@, p),
{
    assert forall|i: int| b0.gen_moves@.len() <= i < b2.gen_moves@.len() implies p(#[trigger] b2.gen_moves@[i].0) by {
        if i < b1.gen_moves@.len() {
            assert(b2.gen_moves@.subrange(0, b1.gen_moves@.len() as int)[i] == b2.gen_moves@[i]);
            assert(p1(b1.gen_moves@[i].0));
        } else {
            assert(p2(b2.gen_moves@[i].0));
        }
    }
}

/// A listed move stays listed when entries are appended.
proof fn lemma_listed_grown(b: &Board, new: &Board, m: Move)
    requires
        gen_grown(b, new),
        listed(b.gen_moves@, m),
    ensures
        listed(new.gen_moves@, m),
{
    let i = choose|i: int| #![trigger b.gen_moves@[i]] 0 <= i < b.gen_moves@.len() && b.gen_moves@[i].0 == m;
    assert(new.gen_moves@.subrange(0, b.gen_moves@.len() as int)[i] == new.gen_moves@[i]);
    assert(new.gen_moves@[i].0 == m);
}


/// `m` is the move of one of the entries of `g` from index `start` on.
pub open spec fn listed_after(g: Seq<(Move, isize)>, start: int, m: Move) -> bool {
    exists|i: int| #![trigger g[i]] start <= i < g.len() && g[i].0 == m
}

/// A move among the entries from `start` on stays there when entries are appended.
proof fn lemma_after_grown(b: &Board, new: &Board, start: int, m: Move)
    requires
        0 <= start,
        gen_grown(b, new),
        listed_after(b.gen_moves@, start, m),
    ensures
        listed_after(new.gen_moves@, start, m),
{
    let i = choose|i: int| #![trigger b.gen_moves@[i]] start <= i < b.gen_moves@.len() && b.gen_moves@[i].0 == m;
    assert(new.gen_moves@.subrange(0, b.gen_moves@.len() as int)[i] == new.gen_moves@[i]);
    assert(new.gen_moves@[i].0 == m);
}

/// The last entry appended lies from `start` on.
proof fn lemma_after_last(g: Seq<(Move, isize)>, start: int, e: (Move, isize))
    requires
        start <= g.len(),
    ensures
        listed_after(g.push(e), start, e.0),
{
    assert(g.push(e)[g.len() as int] == e);
}

/// A move among the entries from `s2` on is among those from any earlier `s1` on, and listed.
proof fn lemma_after_within(g: Seq<(Move, isize)>, s1: int, s2: int)
    requires
        0 <= s1 <= s2,
    ensures
        forall|m: Move| #[trigger] listed_after(g, s2, m) ==> listed_after(g, s1, m) && listed(g, m),
{
}

/// Every square of `bb` holds a piece.
pub open spec fn holds_pieces(b: &Board, bb: u64) -> bool {
    forall|t: u64| t < 64 && #[trigger] has_bit(bb, t) ==> b.squares[t as int] is Some && valid_piece(b.squares[t as int]->0)
}

/// A consistent position, ready for move generation.
pub open spec fn gen_ready_spec(b: &Board) -> bool {
    b.wf()
}

/// `new` is `b` with entries appended to the list of generated moves, all of them generated
/// moves with their scores when `cond` holds.
pub open spec fn gen_step(b: &Board, new: &Board, cond: bool) -> bool {
    &&& gen_grown(b, new)
    &&& cond ==> gen_extends(b, new)
}

proof fn lemma_gen_grown_trans(b0: &Board, b1: &Board, b2: &Board)
    requires
        gen_grown(b0, b1),
        gen_grown(b1, b2),
    ensures
        gen_grown(b0, b2),
{
    assert(b2.gen_moves@.subrange(0, b0.gen_moves@.len() as int) =~= b0.gen_moves@) by {
        assert forall|i: int| 0 <= i < b0.gen_moves@.len() implies b2.gen_moves@[i] == b0.gen_moves@[i] by {
            assert(b2.gen_moves@[i] == b2.gen_moves@.subrange(0, b1.gen_moves@.len() as int)[i]);
            assert(b1.gen_moves@[i] == b1.gen_moves@.subrange(0, b0.gen_moves@.len() as int)[i]);
        }
    }
}

proof fn lemma_gen_step_trans(b0: &Board, b1: &Board, b2: &Board, cond: bool)
    requires
        gen_step(b0, b1, cond),
        gen_step(b1, b2, cond),
    ensures
        gen_step(b0, b2, cond),
{
    lemma_gen_grown_trans(b0, b1, b2);
    if cond {
        lemma_gen_extends_trans(b0, b1, b2);
    }
}

/// The pawn of the side to move on `from` may take a promotion step, or a capture, to `to`.
pub open spec fn promo_push_ok(b: &Board, from: int, to: int, piece: u8) -> bool {
    let c = b.state.color;
    &&& c < 2
    &&& piece == PAWN + c
    &&& 0 <= from < 64 && 0 <= to < 64
    &&& b.squares[from] == Some(piece)
    &&& b.squares[to] is None
    &&& to == from + 8 * pawn_dir(c)
    &&& row_of(to) == last_row(c)
}

/// The pawn of the side to move on `from` may capture the piece on `to` and promote.
pub open spec fn promo_cap_ok(b: &Board, from: int, to: int, piece: u8) -> bool {
    let c = b.state.color;
    &&& c < 2
    &&& piece == PAWN + c
    &&& 0 <= from < 64 && 0 <= to < 64
    &&& b.squares[from] == Some(piece)
    &&& b.squares[to] is Some
    &&& valid_piece(b.squares[to]->0)
    &&& piece_color(b.squares[to]->0) != c
    &&& pawn_att_target(c, from, to)
    &&& row_of(to) == last_row(c)
}

/// The promotions of a pawn push or capture that may be played are generated moves.
proof fn lemma_promo_ok(b: &Board, from: int, to: int, piece: u8, promo: u8, cap: Option<u8>)
    requires
        promo == KNIGHT || promo == BISHOP || promo == ROOK || promo == QUEEN,
        cap is None ==> promo_push_ok(b, from, to, piece),
        cap is Some ==> promo_cap_ok(b, from, to, piece) && cap == b.squares[to],
    ensures
        gen_ok(b, Move { from: from as u8, to: to as u8, piece, flag: Flag::Promotion((promo + b.state.color) as u8, cap) }),
        piece_kind((promo + b.state.color) as u8) == promo,
{
}

/// The sets of targets and pieces depend on the position only.
proof fn lemma_sets_frame(b0: &Board, b1: &Board, bb: u64, piece: u8, sq: int)
    requires
        gen_grown(b0, b1),
    ensures
        quiet_set_ok(b0, bb, piece, sq) == quiet_set_ok(b1, bb, piece, sq),
        capture_set_ok(b0, bb, piece, sq) == capture_set_ok(b1, bb, piece, sq),
        holds_pieces(b0, bb) == holds_pieces(b1, bb),
{
    assert forall|t: u64| t < 64 && #[trigger] has_bit(bb, t) implies gen_ok(b0, Move { from: sq as u8, to: t as u8, piece, flag: Flag::Quiet })
        == gen_ok(b1, Move { from: sq as u8, to: t as u8, piece, flag: Flag::Quiet }) by {
        lemma_gen_frame(b0, b1, Move { from: sq as u8, to: t as u8, piece, flag: Flag::Quiet });
    }
    assert forall|t: u64| t < 64 && #[trigger] has_bit(bb, t) && b0.squares[t as int] is Some implies gen_ok(
        b0,
        Move { from: sq as u8, to: t as u8, piece, flag: Flag::Capture(b0.squares[t as int]->0) },
    ) == gen_ok(b1, Move { from: sq as u8, to: t as u8, piece, flag: Flag::Capture(b0.squares[t as int]->0) }) by {
        lemma_gen_frame(b0, b1, Move { from: sq as u8, to: t as u8, piece, flag: Flag::Capture(b0.squares[t as int]->0) });
    }
}

/// The squares a piece of the side to move reaches from `sq`, without and with a capture,
/// are quiet moves and captures the generator produces.
proof fn lemma_piece_targets(b: &Board, piece: u8, sq: int, own: u64, enemy: u64, moves: u64, quiet: u64, capture: u64)
    requires
        gen_ready_spec(b),
        valid_piece(piece),
        0 <= sq < 64,
        has_bit(b.bitboard[piece as int], sq as u64),
        own == b.bitboard[b.state.color as int],
        enemy == b.bitboard[1 - b.state.color],
        forall|t: u64| t < 64 ==> #[trigger] has_bit(moves, t) == mv_target(piece, sq, own, enemy, t as int),
        forall|t: u64| t < 64 ==> #[trigger] has_bit(quiet, t) == (has_bit(moves, t) && !has_bit(enemy, t)),
        forall|t: u64| t < 64 ==> #[trigger] has_bit(capture, t) == (has_bit(moves, t) && has_bit(enemy, t)),
    ensures
        holds_pieces(b, capture),
        piece_color(piece) == b.state.color && piece_kind(piece) != PAWN ==> quiet_set_ok(b, quiet, piece, sq) && capture_set_ok(
            b,
            capture,
            piece,
            sq,
        ),
{
    let c = b.state.color;
    assert(b.squares[sq] == Some(piece));
    assert forall|t: u64| t < 64 && #[trigger] has_bit(capture, t) implies b.squares[t as int] is Some && valid_piece(b.squares[t as int]->0) by {
        assert(has_bit(b.bitboard[1 - c], t));
    }
    if piece_color(piece) == c && piece_kind(piece) != PAWN {
        assert forall|t: u64| t < 64 && #[trigger] has_bit(quiet, t) implies gen_ok(b, Move { from: sq as u8, to: t as u8, piece, flag: Flag::Quiet }) by {
            assert(!has_bit(own, t) && !has_bit(enemy, t));
            if b.squares[t as int] is Some {
                let x = b.squares[t as int]->0;
                if piece_color(x) == c {
                    assert(has_bit(b.bitboard[c as int], t));
                } else {
                    assert(has_bit(b.bitboard[1 - c], t));
                }
            }
        }
        assert forall|t: u64| t < 64 && #[trigger] has_bit(capture, t) implies b.squares[t as int] is Some && gen_ok(
            b,
            Move { from: sq as u8, to: t as u8, piece, flag: Flag::Capture(b.squares[t as int]->0) },
        ) by {
            assert(has_bit(b.bitboard[1 - c], t));
        }
    }
}

/// A one-square push of a pawn of the side to move onto an empty square short of the last row.
proof fn lemma_pawn_push_ok(b: &Board, from: int, to: int)
    requires
        gen_ready_spec(b),
        0 <= from < 64,
        0 <= to < 64,
        has_bit(b.bitboard[PAWN + b.state.color], from as u64),
        !has_bit(b.bitboard[b.state.color as int] | b.bitboard[1 - b.state.color], to as u64),
        to == from + 8 * pawn_dir(b.state.color),
    ensures
        b.squares[to] is None,
        row_of(to) != last_row(b.state.color) ==> scored_ok(b, (Move { from: from as u8, to: to as u8, piece: (PAWN + b.state.color) as u8, flag: Flag::Quiet }, 0)),
        row_of(to) == last_row(b.state.color) ==> promo_push_ok(b, from, to, (PAWN + b.state.color) as u8),
{
    let c = b.state.color;
    lemma_bit_ops(b.bitboard[c as int], b.bitboard[1 - c]);
    if b.squares[to] is Some {
        let x = b.squares[to]->0;
        if piece_color(x) == c {
            assert(has_bit(b.bitboard[c as int], to as u64));
        } else {
            assert(has_bit(b.bitboard[1 - c], to as u64));
        }
    }
}

/// A two-square push of a pawn of the side to move from its start row over an empty square.
proof fn lemma_pawn_double_ok(b: &Board, from: int, to: int)
    requires
        gen_ready_spec(b),
        0 <= from < 64,
        0 <= to < 64,
        has_bit(b.bitboard[PAWN + b.state.color], from as u64),
        !has_bit(b.bitboard[b.state.color as int] | b.bitboard[1 - b.state.color], (from + 8 * pawn_dir(b.state.color)) as u64),
        !has_bit(b.bitboard[b.state.color as int] | b.bitboard[1 - b.state.color], to as u64),
        to == from + 16 * pawn_dir(b.state.color),
        row_of(from) == pawn_start_row(b.state.color),
    ensures
        scored_ok(b, (Move { from: from as u8, to: to as u8, piece: (PAWN + b.state.color) as u8, flag: Flag::Quiet }, 0)),
{
    let c = b.state.color;
    let mid = from + 8 * pawn_dir(c);
    lemma_bit_ops(b.bitboard[c as int], b.bitboard[1 - c]);
    if b.squares[to] is Some {
        let x = b.squares[to]->0;
        if piece_color(x) == c {
            assert(has_bit(b.bitboard[c as int], to as u64));
        } else {
            assert(has_bit(b.bitboard[1 - c], to as u64));
        }
    }
    if b.squares[mid] is Some {
        let x = b.squares[mid]->0;
        if piece_color(x) == c {
            assert(has_bit(b.bitboard[c as int], mid as u64));
        } else {
            assert(has_bit(b.bitboard[1 - c], mid as u64));
        }
    }
}

/// A capture by a pawn of the side to move of a piece of the other side.
proof fn lemma_pawn_capture_ok(b: &Board, from: int, to: int)
    requires
        gen_ready_spec(b),
        0 <= from < 64,
        0 <= to < 64,
        has_bit(b.bitboard[PAWN + b.state.color], from as u64),
        has_bit(b.bitboard[1 - b.state.color], to as u64),
        pawn_att_target(b.state.color, from, to),
    ensures
        b.squares[to] is Some,
        valid_piece(b.squares[to]->0),
        row_of(to) != last_row(b.state.color) ==> scored_ok(
            b,
            (Move { from: from as u8, to: to as u8, piece: (PAWN + b.state.color) as u8, flag: Flag::Capture(b.squares[to]->0) }, 0),
        ),
        row_of(to) == last_row(b.state.color) ==> promo_cap_ok(b, from, to, (PAWN + b.state.color) as u8),
{
}

/// A pawn push the generator produces moves a pawn of the side to move to an empty square
/// one row ahead, two from its start row over an empty square, or one onto the last row as a
/// promotion to a piece of its color.
proof fn lemma_pawn_push_bits(b: &Board, m: Move)
    requires
        gen_ready_spec(b),
        gen_ok(b, m),
        pawn_push_move(m),
    ensures
        m.piece == PAWN + b.state.color,
        0 <= m.from < 64 && 0 <= m.to < 64,
        has_bit(b.bitboard[PAWN + b.state.color], m.from as u64),
        !has_bit(occupied(b), m.to as u64),
        m.flag is Quiet ==> row_of(m.to as int) != last_row(b.state.color) && (m.to == m.from + 8 * pawn_dir(b.state.color) || (m.to == m.from
            + 16 * pawn_dir(b.state.color) && row_of(m.from as int) == pawn_start_row(b.state.color) && !has_bit(occupied(b), (m.from + 8
            * pawn_dir(b.state.color)) as u64))),
        m.flag is Promotion ==> row_of(m.to as int) == last_row(b.state.color) && m.to == m.from + 8 * pawn_dir(b.state.color)
            && promo_kind(m.flag->Promotion_0) && piece_color(m.flag->Promotion_0) == b.state.color,
{
    let c = b.state.color;
    lemma_bit_ops(b.bitboard[c as int], b.bitboard[1 - c]);
    assert(m.piece == PAWN + c);
    let to = m.to as int;
    if b.squares[to] is Some {
        assert(false);
    }
    assert(!has_bit(b.bitboard[c as int], m.to as u64));
    assert(!has_bit(b.bitboard[1 - c], m.to as u64));
    if m.flag is Quiet && m.to != m.from + 8 * pawn_dir(c) {
        let mid = m.from + 8 * pawn_dir(c);
        assert(double_push_ok(b, m));
        assert(b.squares[mid] is None);
        assert(!has_bit(b.bitboard[c as int], mid as u64));
        assert(!has_bit(b.bitboard[1 - c], mid as u64));
    }
}

/// A pawn capture the generator produces takes a piece of the other side on a square the
/// pawn attacks: on the last row as a promotion to a piece of its color, elsewhere as a
/// plain capture.
proof fn lemma_pawn_take_bits(b: &Board, m: Move)
    requires
        gen_ready_spec(b),
        gen_ok(b, m),
        pawn_take_move(m),
    ensures
        m.piece == PAWN + b.state.color,
        0 <= m.from < 64 && 0 <= m.to < 64,
        has_bit(b.bitboard[PAWN + b.state.color], m.from as u64),
        has_bit(b.bitboard[1 - b.state.color], m.to as u64),
        !has_bit(b.bitboard[b.state.color as int], m.to as u64),
        b.squares[m.to as int] is Some,
        pawn_att_target(b.state.color, m.from as int, m.to as int),
        b.state.color == WHITE ==> (m.to == m.from + 9 && col_of(m.to as int) != 0) || (m.to == m.from + 7 && col_of(m.to as int) != 7),
        b.state.color != WHITE ==> (m.to == m.from - 9 && col_of(m.to as int) != 7) || (m.to == m.from - 7 && col_of(m.to as int) != 0),
        m.flag is Capture ==> row_of(m.to as int) != last_row(b.state.color) && m.flag->Capture_0 == b.squares[m.to as int]->0,
        m.flag is Promotion ==> row_of(m.to as int) == last_row(b.state.color) && promo_kind(m.flag->Promotion_0)
            && piece_color(m.flag->Promotion_0) == b.state.color && m.flag->Promotion_1 == Some(b.squares[m.to as int]->0),
{
    let c = b.state.color;
    assert(m.piece == PAWN + c);
    let x = b.squares[m.to as int]->0;
    assert(piece_color(x) != c);
    assert(has_bit(b.bitboard[1 - c], m.to as u64));
}

/// A quiet move or a capture of a piece other than a pawn that the generator produces goes
/// from a square of that piece to a square it reaches that no piece of its side holds.
proof fn lemma_piece_move_bits(b: &Board, m: Move)
    requires
        gen_ready_spec(b),
        gen_ok(b, m),
        piece_kind(m.piece) != PAWN,
        m.flag is Quiet || m.flag is Capture,
    ensures
        0 <= m.from < 64 && 0 <= m.to < 64,
        has_bit(b.bitboard[m.piece as int], m.from as u64),
        piece_color(m.piece) == b.state.color,
        piece_reaches(m.piece, m.from as int, occupied(b), m.to as int),
        !has_bit(b.bitboard[b.state.color as int], m.to as u64),
        m.flag is Quiet ==> !has_bit(b.bitboard[1 - b.state.color], m.to as u64),
        m.flag is Capture ==> has_bit(b.bitboard[1 - b.state.color], m.to as u64) && b.squares[m.to as int] is Some
            && m.flag->Capture_0 == b.squares[m.to as int]->0,
{
    let c = b.state.color;
    let to = m.to as int;
    if b.squares[to] is Some {
        let x = b.squares[to]->0;
        if piece_color(x) == c {
            assert(m.flag is Capture);
            assert(false);
        }
        assert(has_bit(b.bitboard[1 - c], m.to as u64));
        assert(!has_bit(b.bitboard[c as int], m.to as u64));
    } else {
        assert(!has_bit(b.bitboard[c as int], m.to as u64));
        assert(!has_bit(b.bitboard[1 - c], m.to as u64));
    }
}

/// The square `k` rows behind `to` for a pawn moving up (`up`) or down the board.
pub open spec fn back_sq(to: int, k: int, up: bool) -> int {
    if up {
        to - k
    } else {
        to + k
    }
}

impl Board {
    /// Appends the pawn pushes that end on the squares of `bits`: pushes of `k` squares
    /// (8 or 16) of pawns moving up (`up`) or down, each scored 0.
    fn pawn_push_loop(&mut self, bits: u64, k: usize, up: bool)
        requires
            gen_ready_spec(old(self)),
            k == 8 || k == 16,
            up == (old(self).state.color == WHITE),
            forall|t: u64| t < 64 && #[trigger] has_bit(bits, t) ==> {
                let from = back_sq(t as int, k as int, up);
                let c = old(self).state.color;
                &&& 0 <= from < 64
                &&& has_bit(old(self).bitboard[PAWN + c], from as u64)
                &&& !has_bit(occupied(old(self)), t)
                &&& row_of(t as int) != last_row(c)
                &&& (k == 16 ==> row_of(from) == pawn_start_row(c) && !has_bit(occupied(old(self)), (from + 8 * pawn_dir(c)) as u64))
            },
        ensures
            final(self).gen_moves@.len() <= old(self).gen_moves@.len() + 64,
            gen_extends(old(self), final(self)),
            forall|t: u64| t < 64 && #[trigger] has_bit(bits, t) ==> listed_after(
                final(self).gen_moves@,
                old(self).gen_moves@.len() as int,
                Move { from: back_sq(t as int, k as int, up) as u8, to: t as u8, piece: (PAWN + old(self).state.color) as u8, flag: Flag::Quiet },
            ),
            added_all(old(self).gen_moves@.len() as int, final(self).gen_moves@, push_stage(old(self).state.color, bits, k as int, up)),
            distinct_moves(old(self).gen_moves@) && none_before(old(self).gen_moves@.len() as int, old(self).gen_moves@, push_stage(old(self).state.color, bits, k as int, up))
                ==> distinct_moves(final(self).gen_moves@),
    {
        let ghost b0 = *old(self);
        let piece = PAWN + self.color();
        let mut bb = bits;
        proof {
            lemma_gen_extends_refl(&b0);
        }
        let ghost mut cnt: int = 0;
        while bb != 0
            invariant
                0 <= cnt <= 64,
                forall|t: u64| t < 64 && #[trigger] has_bit(bb, t) ==> t >= cnt,
                self.gen_moves@.len() <= b0.gen_moves@.len() + cnt * 1,
                gen_ready_spec(&b0),
                k == 8 || k == 16,
                up == (b0.state.color == WHITE),
                piece == PAWN + b0.state.color,
                forall|t: u64| t < 64 && #[trigger] has_bit(bb, t) ==> has_bit(bits, t),
                forall|t: u64| t < 64 && #[trigger] has_bit(bits, t) ==> {
                    let from = back_sq(t as int, k as int, up);
                    let c = b0.state.color;
                    &&& 0 <= from < 64
                    &&& has_bit(b0.bitboard[PAWN + c], from as u64)
                    &&& !has_bit(occupied(&b0), t)
                    &&& row_of(t as int) != last_row(c)
                    &&& (k == 16 ==> row_of(from) == pawn_start_row(c) && !has_bit(occupied(&b0), (from + 8 * pawn_dir(c)) as u64))
                },
                gen_extends(&b0, self),
                forall|t: u64| t < 64 && #[trigger] has_bit(bits, t) && !has_bit(bb, t) ==> listed_after(self.gen_moves@, b0.gen_moves@.len() as int, Move { from: back_sq(t as int, k as int, up) as u8, to: t as u8, piece: (PAWN + b0.state.color) as u8, flag: Flag::Quiet }),
                added_all(b0.gen_moves@.len() as int, self.gen_moves@, push_stage(b0.state.color, bits, k as int, up)),
                forall|ii: int| b0.gen_moves@.len() <= ii < self.gen_moves@.len() ==> !has_bit(bb, (#[trigger] self.gen_moves@[ii]).0.to as u64),
                distinct_moves(b0.gen_moves@) && none_before(b0.gen_moves@.len() as int, b0.gen_moves@, push_stage(b0.state.color, bits, k as int, up))
                    ==> distinct_moves(self.gen_moves@),
            decreases bb,
        {
            let ghost before = *self;
            let ghost bits0 = bb;
            let to_sq = bb.pop_lsb();
            proof {
                cnt = cnt + 1;
            }
            let from_sq = if up {
                to_sq - k
            } else {
                to_sq + k
            };
            let mv = Move::init(from_sq as u8, to_sq as u8, piece, Flag::Quiet);
            proof {
                assert(has_bit(bits, to_sq as u64));
                if k == 8 {
                    lemma_pawn_push_ok(&b0, from_sq as int, to_sq as int);
                } else {
                    lemma_pawn_double_ok(&b0, from_sq as int, to_sq as int);
                }
                lemma_gen_frame(&b0, self, mv);
            }
            self.push_gen(mv, 0);
            proof {
                lemma_gen_extends_trans(&b0, &before, self);
                lemma_after_last(before.gen_moves@, b0.gen_moves@.len() as int, (mv, 0));
                if distinct_moves(b0.gen_moves@) && none_before(b0.gen_moves@.len() as int, b0.gen_moves@, push_stage(b0.state.color, bits, k as int, up)) {
                    assert forall|ii: int| 0 <= ii < before.gen_moves@.len() implies #[trigger] before.gen_moves@[ii].0 != mv by {
                        if ii < b0.gen_moves@.len() {
                            assert(before.gen_moves@[ii] == b0.gen_moves@[ii]) by {
                                assert(before.gen_moves@.subrange(0, b0.gen_moves@.len() as int)[ii] == before.gen_moves@[ii]);
                            }
                        } else {
                            assert(!has_bit(bits0, before.gen_moves@[ii].0.to as u64));
                        }
                    }
                    lemma_push_distinct(before.gen_moves@, (mv, 0));
                }
                assert forall|t: u64| t < 64 && #[trigger] has_bit(bits, t) && !has_bit(bb, t) implies listed_after(self.gen_moves@, b0.gen_moves@.len() as int, Move { from: back_sq(t as int, k as int, up) as u8, to: t as u8, piece: (PAWN + b0.state.color) as u8, flag: Flag::Quiet }) by {
                    if t != to_sq as u64 {
                        lemma_after_grown(&before, self, b0.gen_moves@.len() as int, Move { from: back_sq(t as int, k as int, up) as u8, to: t as u8, piece: (PAWN + b0.state.color) as u8, flag: Flag::Quiet });
                    }
                }
            }
        }
        proof {
            lemma_bit_consts();
            assert forall|t: u64| t < 64 && #[trigger] has_bit(bits, t) implies listed_after(self.gen_moves@, b0.gen_moves@.len() as int, Move { from: back_sq(t as int, k as int, up) as u8, to: t as u8, piece: (PAWN + b0.state.color) as u8, flag: Flag::Quiet }) by {
                assert(!has_bit(bb, t));
            }
        }
    }

    /// Appends the promotions of the one-square pawn pushes that end on the squares of `bits`.
    fn pawn_promo_push_loop(&mut self, bits: u64, up: bool)
        requires
            gen_ready_spec(old(self)),
            up == (old(self).state.color == WHITE),
            forall|t: u64| t < 64 && #[trigger] has_bit(bits, t) ==> {
                let from = back_sq(t as int, 8, up);
                let c = old(self).state.color;
                &&& 0 <= from < 64
                &&& has_bit(old(self).bitboard[PAWN + c], from as u64)
                &&& !has_bit(occupied(old(self)), t)
                &&& row_of(t as int) == last_row(c)
            },
        ensures
            final(self).gen_moves@.len() <= old(self).gen_moves@.len() + 256,
            gen_extends(old(self), final(self)),
            forall|t: u64, q: u8| t < 64 && has_bit(bits, t) && promo_kind(q) && piece_color(q) == old(self).state.color ==> #[trigger] listed_after(
                final(self).gen_moves@,
                old(self).gen_moves@.len() as int,
                Move { from: back_sq(t as int, 8, up) as u8, to: t as u8, piece: (PAWN + old(self).state.color) as u8, flag: Flag::Promotion(q, None) },
            ),
            added_all(old(self).gen_moves@.len() as int, final(self).gen_moves@, promo_push_stage(old(self).state.color, bits, up)),
            distinct_moves(old(self).gen_moves@) && none_before(old(self).gen_moves@.len() as int, old(self).gen_moves@, promo_push_stage(old(self).state.color, bits, up))
                ==> distinct_moves(final(self).gen_moves@),
    {
        let ghost b0 = *old(self);
        let piece = PAWN + self.color();
        let mut bb = bits;
        proof {
            lemma_gen_extends_refl(&b0);
        }
        let ghost mut cnt: int = 0;
        while bb != 0
            invariant
                0 <= cnt <= 64,
                forall|t: u64| t < 64 && #[trigger] has_bit(bb, t) ==> t >= cnt,
                self.gen_moves@.len() <= b0.gen_moves@.len() + cnt * 4,
                gen_ready_spec(&b0),
                up == (b0.state.color == WHITE),
                piece == PAWN + b0.state.color,
                forall|t: u64| t < 64 && #[trigger] has_bit(bb, t) ==> has_bit(bits, t),
                forall|t: u64| t < 64 && #[trigger] has_bit(bits, t) ==> {
                    let from = back_sq(t as int, 8, up);
                    let c = b0.state.color;
                    &&& 0 <= from < 64
                    &&& has_bit(b0.bitboard[PAWN + c], from as u64)
                    &&& !has_bit(occupied(&b0), t)
                    &&& row_of(t as int) == last_row(c)
                },
                gen_extends(&b0, self),
                forall|t: u64, q: u8| t < 64 && has_bit(bits, t) && !has_bit(bb, t) && promo_kind(q) && piece_color(q) == b0.state.color ==> #[trigger] listed_after(self.gen_moves@, b0.gen_moves@.len() as int, Move { from: back_sq(t as int, 8, up) as u8, to: t as u8, piece: (PAWN + b0.state.color) as u8, flag: Flag::Promotion(q, None) }),
                added_all(b0.gen_moves@.len() as int, self.gen_moves@, promo_push_stage(b0.state.color, bits, up)),
                forall|ii: int| b0.gen_moves@.len() <= ii < self.gen_moves@.len() ==> !has_bit(bb, (#[trigger] self.gen_moves@[ii]).0.to as u64),
                distinct_moves(b0.gen_moves@) && none_before(b0.gen_moves@.len() as int, b0.gen_moves@, promo_push_stage(b0.state.color, bits, up))
                    ==> distinct_moves(self.gen_moves@),
            decreases bb,
        {
            let ghost before = *self;
            let ghost bits0 = bb;
            let to_sq = bb.pop_lsb();
            proof {
                cnt = cnt + 1;
            }
            let from_sq = if up {
                to_sq - 8
            } else {
                to_sq + 8
            };
            proof {
                assert(has_bit(bits, to_sq as u64));
                lemma_pawn_push_ok(&b0, from_sq as int, to_sq as int);
                assert(promo_push_ok(self, from_sq as int, to_sq as int, piece));
            }
            proof {
                if distinct_moves(b0.gen_moves@) && none_before(b0.gen_moves@.len() as int, b0.gen_moves@, promo_push_stage(b0.state.color, bits, up)) {
                    assert forall|ii: int| 0 <= ii < before.gen_moves@.len() implies !promo_stage(from_sq as u8, to_sq as u8, piece, false)(#[trigger] before.gen_moves@[ii].0) by {
                        if ii < b0.gen_moves@.len() {
                            assert(before.gen_moves@[ii] == b0.gen_moves@[ii]) by {
                                assert(before.gen_moves@.subrange(0, b0.gen_moves@.len() as int)[ii] == before.gen_moves@[ii]);
                            }
                        } else {
                            assert(!has_bit(bits0, before.gen_moves@[ii].0.to as u64));
                        }
                    }
                }
            }
            self.add_quiet_promo_moves(from_sq as u8, to_sq as u8, piece);
            proof {
                lemma_gen_extends_trans(&b0, &before, self);
                assert forall|ii: int| b0.gen_moves@.len() <= ii < self.gen_moves@.len() implies promo_push_stage(b0.state.color, bits, up)(#[trigger] self.gen_moves@[ii].0)
                    && !has_bit(bb, self.gen_moves@[ii].0.to as u64) by {
                    if ii < before.gen_moves@.len() {
                        assert(self.gen_moves@[ii] == before.gen_moves@[ii]) by {
                            assert(self.gen_moves@.subrange(0, before.gen_moves@.len() as int)[ii] == self.gen_moves@[ii]);
                        }
                    }
                }
                assert forall|t: u64, q: u8| t < 64 && has_bit(bits, t) && !has_bit(bb, t) && promo_kind(q) && piece_color(q) == b0.state.color implies #[trigger] listed_after(self.gen_moves@, b0.gen_moves@.len() as int, Move { from: back_sq(t as int, 8, up) as u8, to: t as u8, piece: (PAWN + b0.state.color) as u8, flag: Flag::Promotion(q, None) }) by {
                    if t != to_sq as u64 {
                        lemma_after_grown(&before, self, b0.gen_moves@.len() as int, Move { from: back_sq(t as int, 8, up) as u8, to: t as u8, piece: (PAWN + b0.state.color) as u8, flag: Flag::Promotion(q, None) });
                    } else {
                        lemma_after_within(self.gen_moves@, b0.gen_moves@.len() as int, before.gen_moves@.len() as int);
                        assert(listed_after(self.gen_moves@, before.gen_moves@.len() as int, Move { from: from_sq as u8, to: to_sq as u8, piece, flag: Flag::Promotion(q, None) }));
                        assert(listed_after(self.gen_moves@, b0.gen_moves@.len() as int, Move { from: from_sq as u8, to: to_sq as u8, piece, flag: Flag::Promotion(q, None) }));
                    }
                }
            }
        }
        proof {
            lemma_bit_consts();
            assert forall|t: u64, q: u8| t < 64 && has_bit(bits, t) && promo_kind(q) && piece_color(q) == b0.state.color implies #[trigger] listed_after(self.gen_moves@, b0.gen_moves@.len() as int, Move { from: back_sq(t as int, 8, up) as u8, to: t as u8, piece: (PAWN + b0.state.color) as u8, flag: Flag::Promotion(q, None) }) by {
                assert(!has_bit(bb, t));
            }
        }
    }

    /// Appends the pawn captures that end on the squares of `bits`, made by the pawns `k`
    /// squares (7 or 9) behind them, each scored 0; those on the last row as promotions.
    fn pawn_capture_loop(&mut self, bits: u64, k: usize, up: bool)
        requires
            gen_ready_spec(old(self)),
            k == 7 || k == 9,
            up == (old(self).state.color == WHITE),
            forall|t: u64| t < 64 && #[trigger] has_bit(bits, t) ==> {
                let from = back_sq(t as int, k as int, up);
                let c = old(self).state.color;
                &&& 0 <= from < 64
                &&& has_bit(old(self).bitboard[PAWN + c], from as u64)
                &&& has_bit(old(self).bitboard[1 - c], t)
                &&& pawn_att_target(c, from, t as int)
            },
        ensures
            final(self).gen_moves@.len() <= old(self).gen_moves@.len() + 256,
            gen_extends(old(self), final(self)),
            forall|t: u64| t < 64 && #[trigger] has_bit(bits, t) && row_of(t as int) != last_row(old(self).state.color) ==> listed_after(final(self).gen_moves@, old(self).gen_moves@.len() as int, Move { from: back_sq(t as int, k as int, up) as u8, to: t as u8, piece: (PAWN + old(self).state.color) as u8, flag: Flag::Capture(old(self).squares[t as int]->0) }),
            forall|t: u64, q: u8| t < 64 && has_bit(bits, t) && row_of(t as int) == last_row(old(self).state.color) && promo_kind(q) && piece_color(q) == old(self).state.color ==> #[trigger] listed_after(final(self).gen_moves@, old(self).gen_moves@.len() as int, Move { from: back_sq(t as int, k as int, up) as u8, to: t as u8, piece: (PAWN + old(self).state.color) as u8, flag: Flag::Promotion(q, Some(old(self).squares[t as int]->0)) }),
            added_all(old(self).gen_moves@.len() as int, final(self).gen_moves@, take_stage(old(self).state.color, bits, k as int, up)),
            distinct_moves(old(self).gen_moves@) && none_before(old(self).gen_moves@.len() as int, old(self).gen_moves@, take_stage(old(self).state.color, bits, k as int, up))
                ==> distinct_moves(final(self).gen_moves@),
    {
        let ghost b0 = *old(self);
        let piece = PAWN + self.color();
        let c = self.color();
        let mut bb = bits;
        proof {
            lemma_gen_extends_refl(&b0);
        }
        let ghost mut cnt: int = 0;
        while bb != 0
            invariant
                0 <= cnt <= 64,
                forall|t: u64| t < 64 && #[trigger] has_bit(bb, t) ==> t >= cnt,
                self.gen_moves@.len() <= b0.gen_moves@.len() + cnt * 4,
                gen_ready_spec(&b0),
                k == 7 || k == 9,
                up == (b0.state.color == WHITE),
                c == b0.state.color,
                piece == PAWN + b0.state.color,
                forall|t: u64| t < 64 && #[trigger] has_bit(bb, t) ==> has_bit(bits, t),
                forall|t: u64| t < 64 && #[trigger] has_bit(bits, t) ==> {
                    let from = back_sq(t as int, k as int, up);
                    &&& 0 <= from < 64
                    &&& has_bit(b0.bitboard[PAWN + c], from as u64)
                    &&& has_bit(b0.bitboard[1 - c], t)
                    &&& pawn_att_target(c, from, t as int)
                },
                gen_extends(&b0, self),
                forall|t: u64| t < 64 && #[trigger] has_bit(bits, t) && !has_bit(bb, t) && row_of(t as int) != last_row(b0.state.color) ==> listed_after(self.gen_moves@, b0.gen_moves@.len() as int, Move { from: back_sq(t as int, k as int, up) as u8, to: t as u8, piece: (PAWN + b0.state.color) as u8, flag: Flag::Capture(b0.squares[t as int]->0) }),
                forall|t: u64, q: u8| t < 64 && has_bit(bits, t) && !has_bit(bb, t) && row_of(t as int) == last_row(b0.state.color) && promo_kind(q) && piece_color(q) == b0.state.color ==> #[trigger] listed_after(self.gen_moves@, b0.gen_moves@.len() as int, Move { from: back_sq(t as int, k as int, up) as u8, to: t as u8, piece: (PAWN + b0.state.color) as u8, flag: Flag::Promotion(q, Some(b0.squares[t as int]->0)) }),
                added_all(b0.gen_moves@.len() as int, self.gen_moves@, take_stage(b0.state.color, bits, k as int, up)),
                forall|ii: int| b0.gen_moves@.len() <= ii < self.gen_moves@.len() ==> !has_bit(bb, (#[trigger] self.gen_moves@[ii]).0.to as u64),
                distinct_moves(b0.gen_moves@) && none_before(b0.gen_moves@.len() as int, b0.gen_moves@, take_stage(b0.state.color, bits, k as int, up))
                    ==> distinct_moves(self.gen_moves@),
            decreases bb,
        {
            let ghost before = *self;
            let ghost bits0 = bb;
            let to_sq = bb.pop_lsb();
            proof {
                cnt = cnt + 1;
            }
            let from_sq = if up {
                to_sq - k
            } else {
                to_sq + k
            };
            proof {
                assert(has_bit(bits, to_sq as u64));
                lemma_pawn_capture_ok(&b0, from_sq as int, to_sq as int);
            }
            let last: usize = if c == WHITE {
                7
            } else {
                0
            };
            if to_sq / 8 == last {
                proof {
                    lemma_bit_consts();
                }
                proof {
                    if distinct_moves(b0.gen_moves@) && none_before(b0.gen_moves@.len() as int, b0.gen_moves@, take_stage(b0.state.color, bits, k as int, up)) {
                        assert forall|ii: int| 0 <= ii < before.gen_moves@.len() implies !promo_stage(from_sq as u8, to_sq as u8, piece, true)(#[trigger] before.gen_moves@[ii].0) by {
                            if ii < b0.gen_moves@.len() {
                                assert(before.gen_moves@[ii] == b0.gen_moves@[ii]) by {
                                    assert(before.gen_moves@.subrange(0, b0.gen_moves@.len() as int)[ii] == before.gen_moves@[ii]);
                                }
                            } else {
                                assert(!has_bit(bits0, before.gen_moves@[ii].0.to as u64));
                            }
                        }
                    }
                }
                self.add_capture_promo_moves(from_sq as u8, to_sq as u8, piece);
                proof {
                    assert forall|q: u8| promo_kind(q) && piece_color(q) == b0.state.color implies #[trigger] listed_after(
                        self.gen_moves@,
                        b0.gen_moves@.len() as int,
                        Move { from: from_sq as u8, to: to_sq as u8, piece, flag: Flag::Promotion(q, Some(b0.squares[to_sq as int]->0)) },
                    ) by {
                        assert(piece_color(q) == piece_color(piece));
                        lemma_after_within(self.gen_moves@, b0.gen_moves@.len() as int, before.gen_moves@.len() as int);
                        assert(listed_after(self.gen_moves@, before.gen_moves@.len() as int, Move { from: from_sq as u8, to: to_sq as u8, piece, flag: Flag::Promotion(q, Some(b0.squares[to_sq as int]->0)) }));
                    }
                }
            } else {
                let mv = Move::init(from_sq as u8, to_sq as u8, piece, Flag::Capture(self.piece_sq(to_sq)));
                proof {
                    lemma_gen_frame(&b0, self, mv);
                }
                self.push_gen(mv, 0);
                proof {
                    lemma_after_last(before.gen_moves@, b0.gen_moves@.len() as int, (mv, 0));
                if distinct_moves(b0.gen_moves@) && none_before(b0.gen_moves@.len() as int, b0.gen_moves@, take_stage(b0.state.color, bits, k as int, up)) {
                    assert forall|ii: int| 0 <= ii < before.gen_moves@.len() implies #[trigger] before.gen_moves@[ii].0 != mv by {
                        if ii < b0.gen_moves@.len() {
                            assert(before.gen_moves@[ii] == b0.gen_moves@[ii]) by {
                                assert(before.gen_moves@.subrange(0, b0.gen_moves@.len() as int)[ii] == before.gen_moves@[ii]);
                            }
                        } else {
                            assert(!has_bit(bits0, before.gen_moves@[ii].0.to as u64));
                        }
                    }
                    lemma_push_distinct(before.gen_moves@, (mv, 0));
                }
                }
            }
            proof {
                lemma_gen_extends_trans(&b0, &before, self);
                assert forall|ii: int| b0.gen_moves@.len() <= ii < self.gen_moves@.len() implies take_stage(b0.state.color, bits, k as int, up)(#[trigger] self.gen_moves@[ii].0)
                    && !has_bit(bb, self.gen_moves@[ii].0.to as u64) by {
                    if ii < before.gen_moves@.len() {
                        assert(self.gen_moves@[ii] == before.gen_moves@[ii]) by {
                            assert(self.gen_moves@.subrange(0, before.gen_moves@.len() as int)[ii] == self.gen_moves@[ii]);
                        }
                    }
                }
                assert forall|t: u64| t < 64 && #[trigger] has_bit(bits, t) && !has_bit(bb, t) && row_of(t as int) != last_row(b0.state.color) implies listed_after(self.gen_moves@, b0.gen_moves@.len() as int, Move { from: back_sq(t as int, k as int, up) as u8, to: t as u8, piece: (PAWN + b0.state.color) as u8, flag: Flag::Capture(b0.squares[t as int]->0) }) by {
                    if t != to_sq as u64 {
                        lemma_after_grown(&before, self, b0.gen_moves@.len() as int, Move { from: back_sq(t as int, k as int, up) as u8, to: t as u8, piece: (PAWN + b0.state.color) as u8, flag: Flag::Capture(b0.squares[t as int]->0) });
                    }
                }
                assert forall|t: u64, q: u8| t < 64 && has_bit(bits, t) && !has_bit(bb, t) && row_of(t as int) == last_row(b0.state.color) && promo_kind(q) && piece_color(q) == b0.state.color implies #[trigger] listed_after(self.gen_moves@, b0.gen_moves@.len() as int, Move { from: back_sq(t as int, k as int, up) as u8, to: t as u8, piece: (PAWN + b0.state.color) as u8, flag: Flag::Promotion(q, Some(b0.squares[t as int]->0)) }) by {
                    if t != to_sq as u64 {
                        lemma_after_grown(&before, self, b0.gen_moves@.len() as int, Move { from: back_sq(t as int, k as int, up) as u8, to: t as u8, piece: (PAWN + b0.state.color) as u8, flag: Flag::Promotion(q, Some(b0.squares[t as int]->0)) });
                    }
                }
            }
        }
        proof {
            lemma_bit_consts();
            assert forall|t: u64| t < 64 && #[trigger] has_bit(bits, t) && row_of(t as int) != last_row(b0.state.color) implies listed_after(self.gen_moves@, b0.gen_moves@.len() as int, Move { from: back_sq(t as int, k as int, up) as u8, to: t as u8, piece: (PAWN + b0.state.color) as u8, flag: Flag::Capture(b0.squares[t as int]->0) }) by {
                assert(!has_bit(bb, t));
            }
            assert forall|t: u64, q: u8| t < 64 && has_bit(bits, t) && row_of(t as int) == last_row(b0.state.color) && promo_kind(q) && piece_color(q) == b0.state.color implies #[trigger] listed_after(self.gen_moves@, b0.gen_moves@.len() as int, Move { from: back_sq(t as int, k as int, up) as u8, to: t as u8, piece: (PAWN + b0.state.color) as u8, flag: Flag::Promotion(q, Some(b0.squares[t as int]->0)) }) by {
                assert(!has_bit(bb, t));
            }
        }
    }
}

/// The entries come in non-increasing order of their scores.
pub open spec fn sorted_desc(s: Seq<(Move, isize)>) -> bool {
    forall|i: int, j: int| 0 <= i < j < s.len() ==> s[i].1 >= s[j].1
}

/// The entries of `v` in non-increasing order of their scores; entries of equal score keep
/// their order.
pub fn sort_by_score(v: &Vec<(Move, isize)>) -> (r: Vec<(Move, isize)>)
    ensures
        r@.to_multiset() == v@.to_multiset(),
        r@.len() == v@.len(),
        sorted_desc(r@),
{
    let mut r: Vec<(Move, isize)> = Vec::new();
    let mut i: usize = 0;
    proof {
        assert(r@ =~= v@.subrange(0, 0));
    }
    while i < v.len()
        invariant
            i <= v.len(),
            r@.len() == i,
            r@.to_multiset() == v@.subrange(0, i as int).to_multiset(),
            sorted_desc(r@),
        decreases v.len() - i,
    {
        let e = v[i];
        let mut p: usize = 0;
        while p < r.len() && r[p].1 >= e.1
            invariant
                p <= r.len(),
                forall|q: int| 0 <= q < p ==> r@[q].1 >= e.1,
            decreases r.len() - p,
        {
            p = p + 1;
        }
        let ghost before = r@;
        r.insert(p, e);
        proof {
            assert(v@.subrange(0, i + 1) =~= v@.subrange(0, i as int).push(e));
            vstd::seq_lib::to_multiset_build(v@.subrange(0, i as int), e);
            vstd::seq_lib::to_multiset_insert(before, p as int, e);
            assert forall|a: int, b: int| 0 <= a < b < r@.len() implies r@[a].1 >= r@[b].1 by {
                if a < p && b == p {
                } else if a == p && b > p {
                    if p < before.len() {
                        assert(before[p as int].1 < e.1);
                        assert(before[p as int].1 >= before[b - 1].1);
                    }
                } else if a < p && b > p {
                    assert(before[a].1 >= before[b - 1].1);
                } else if b < p {
                    assert(before[a].1 >= before[b].1);
                } else {
                    assert(before[a - 1].1 >= before[b - 1].1);
                }
            }
        }
        i = i + 1;
    }
    proof {
        assert(v@.subrange(0, v@.len() as int) =~= v@);
    }
    r
}

/// The moves of the entries, in order.
pub open spec fn moves_of(s: Seq<(Move, isize)>) -> Seq<Move> {
    s.map_values(|e: (Move, isize)| e.0)
}

/// The moves of `v` sorted by non-increasing score; `v` is emptied.
fn drain_sorted(v: &mut Vec<(Move, isize)>) -> (r: Vec<Move>)
    ensures
        final(v)@.len() == 0,
        exists|s: Seq<(Move, isize)>| s.to_multiset() == old(v)@.to_multiset() && sorted_desc(s) && r@ == moves_of(s),
{
    let sorted = sort_by_score(v);
    v.clear();
    let mut r: Vec<Move> = Vec::new();
    let mut i: usize = 0;
    while i < sorted.len()
        invariant
            i <= sorted.len(),
            r@ == moves_of(sorted@.subrange(0, i as int)),
        decreases sorted.len() - i,
    {
        r.push(sorted[i].0);
        proof {
            assert(moves_of(sorted@.subrange(0, i + 1)) =~= moves_of(sorted@.subrange(0, i as int)).push(sorted@[i as int].0));
        }
        i = i + 1;
    }
    proof {
        assert(sorted@.subrange(0, sorted@.len() as int) =~= sorted@);
    }
    r
}

/// Moves drained from generated entries of an empty list are generated moves, in
/// non-increasing order of their scores.
/// Reordering entries whose moves are distinct keeps them distinct.
proof fn lemma_distinct_kept(g: Seq<(Move, isize)>, s: Seq<(Move, isize)>)
    requires
        distinct_moves(g),
        s.to_multiset() == g.to_multiset(),
    ensures
        moves_of(s).no_duplicates(),
{
    assert(g.no_duplicates()) by {
        assert forall|i: int, j: int| 0 <= i < g.len() && 0 <= j < g.len() && i != j implies g[i] != g[j] by {
            if i < j {
                assert(g[i].0 != g[j].0);
            } else {
                assert(g[j].0 != g[i].0);
            }
        }
    }
    g.lemma_multiset_has_no_duplicates();
    assert forall|x: (Move, isize)| s.to_multiset().contains(x) implies s.to_multiset().count(x) == 1 by {
        assert(g.to_multiset().contains(x));
    }
    s.lemma_multiset_has_no_duplicates_conv();
    assert forall|i: int, j: int| 0 <= i < moves_of(s).len() && 0 <= j < moves_of(s).len() && i != j implies moves_of(s)[i] != moves_of(s)[j] by {
        if s[i].0 == s[j].0 {
            vstd::seq_lib::to_multiset_contains(s, s[i]);
            vstd::seq_lib::to_multiset_contains(s, s[j]);
            vstd::seq_lib::to_multiset_contains(g, s[i]);
            vstd::seq_lib::to_multiset_contains(g, s[j]);
            assert(s.contains(s[i]) && s.contains(s[j]));
            let a = choose|a: int| 0 <= a < g.len() && g[a] == s[i];
            let b = choose|b: int| 0 <= b < g.len() && g[b] == s[j];
            assert(s[i] != s[j]);
            assert(a != b);
            if a < b {
                assert(g[a].0 != g[b].0);
            } else {
                assert(g[b].0 != g[a].0);
            }
        }
    }
}

/// Reordered entries hold moves of `p` when the entries did.
proof fn lemma_kind_kept(g: Seq<(Move, isize)>, s: Seq<(Move, isize)>, p: spec_fn(Move) -> bool)
    requires
        added_all(0, g, p),
        s.to_multiset() == g.to_multiset(),
    ensures
        forall|i: int| 0 <= i < moves_of(s).len() ==> p(#[trigger] moves_of(s)[i]),
{
    assert forall|i: int| 0 <= i < moves_of(s).len() implies p(#[trigger] moves_of(s)[i]) by {
        vstd::seq_lib::to_multiset_contains(s, s[i]);
        vstd::seq_lib::to_multiset_contains(g, s[i]);
        assert(s.contains(s[i]));
        let j = choose|j: int| 0 <= j < g.len() && g[j] == s[i];
        assert(p(g[j].0));
    }
}

/// A move listed before the sort is among the sorted moves.
proof fn lemma_listed_kept(g: Seq<(Move, isize)>, s: Seq<(Move, isize)>, m: Move)
    requires
        s.to_multiset() == g.to_multiset(),
        listed(g, m),
    ensures
        moves_of(s).contains(m),
{
    let i = choose|i: int| #![trigger g[i]] 0 <= i < g.len() && g[i].0 == m;
    vstd::seq_lib::to_multiset_contains(g, g[i]);
    vstd::seq_lib::to_multiset_contains(s, g[i]);
    assert(g.contains(g[i]));
    let j = choose|j: int| 0 <= j < s.len() && s[j] == g[i];
    assert(moves_of(s)[j] == m);
}

proof fn lemma_drained(b0: &Board, g: Seq<(Move, isize)>, s: Seq<(Move, isize)>, r: Seq<Move>)
    requires
        forall|i: int| 0 <= i < g.len() ==> scored_ok(b0, #[trigger] g[i]),
        s.to_multiset() == g.to_multiset(),
        sorted_desc(s),
        r == moves_of(s),
    ensures
        forall|i: int| 0 <= i < r.len() ==> gen_ok(b0, #[trigger] r[i]),
        forall|i: int, j: int| 0 <= i < j < r.len() ==> move_score(b0, #[trigger] r[i]) >= move_score(b0, #[trigger] r[j]),
        r.len() == g.len(),
{
    assert forall|i: int| 0 <= i < s.len() implies scored_ok(b0, #[trigger] s[i]) by {
        vstd::seq_lib::to_multiset_contains(s, s[i]);
        vstd::seq_lib::to_multiset_contains(g, s[i]);
        assert(s.contains(s[i]));
        assert(g.contains(s[i]));
        let j = choose|j: int| 0 <= j < g.len() && g[j] == s[i];
        assert(scored_ok(b0, g[j]));
    }
    vstd::seq_lib::to_multiset_len(s);
    vstd::seq_lib::to_multiset_len(g);
    assert forall|i: int| 0 <= i < r.len() implies gen_ok(b0, #[trigger] r[i]) by {
        assert(scored_ok(b0, s[i]));
    }
    assert forall|i: int, j: int| 0 <= i < j < r.len() implies move_score(b0, #[trigger] r[i]) >= move_score(b0, #[trigger] r[j]) by {
        assert(scored_ok(b0, s[i]));
        assert(scored_ok(b0, s[j]));
    }
}

/// The castling of the side `c` on the king side (`side` 0) or the queen side (1).
pub open spec fn castle_move(c: u8, side: int) -> Move {
    let home: u8 = if c == WHITE {
        4
    } else {
        60
    };
    if side == 0 {
        Move { from: home, to: (home + 2) as u8, piece: (KING + c) as u8, flag: Flag::KingCastle }
    } else {
        Move { from: home, to: (home - 2) as u8, piece: (KING + c) as u8, flag: Flag::QueenCastle }
    }
}

/// A castling that the side to move may play is a generated move.
proof fn lemma_castle_ok(b: &Board, side: int)
    requires
        gen_ready_spec(b),
        side == 0 || side == 1,
        castle_allowed(b, clr_side_mask(b.state.color, side)),
    ensures
        scored_ok(b, (castle_move(b.state.color, side), 0)),
{
    let c = b.state.color;
    let i = 2 * c + side;
    assert(clr_side_mask(c, side) == castle_right(i));
    assert(cr_has(b.state.castling, castle_right(i)));
    lemma_bit_ops(b.bitboard[c as int], b.bitboard[1 - c]);
    let mv = castle_move(c, side);
    let rs = rook_squares(c as int, side);
    assert(castle_gap(clr_side_mask(c, side), mv.to as int));
    assert(castle_gap(clr_side_mask(c, side), rs.1));
    assert(!has_bit(occupied(b), mv.to as u64));
    assert(!has_bit(occupied(b), rs.1 as u64));
    if b.squares[mv.to as int] is Some {
        let x = b.squares[mv.to as int]->0;
        if piece_color(x) == c {
            assert(has_bit(b.bitboard[c as int], mv.to as u64));
        } else {
            assert(has_bit(b.bitboard[1 - c], mv.to as u64));
        }
    }
    if b.squares[rs.1] is Some {
        let x = b.squares[rs.1]->0;
        if piece_color(x) == c {
            assert(has_bit(b.bitboard[c as int], rs.1 as u64));
        } else {
            assert(has_bit(b.bitboard[1 - c], rs.1 as u64));
        }
    }
}

/// An en passant capture by a pawn of the side to move on `sq` is a generated move.
proof fn lemma_ep_ok(b: &Board, sq: int)
    requires
        gen_ready_spec(b),
        b.state.ep is Some,
        0 <= sq < 64,
        pawn_att_target(opp_color(b.state.color), b.state.ep->0 as int, sq),
        has_bit(b.bitboard[PAWN + b.state.color], sq as u64),
    ensures
        scored_ok(b, (Move { from: sq as u8, to: b.state.ep->0, piece: (PAWN + b.state.color) as u8, flag: Flag::EP }, 100)),
{
}

pub trait BoardGenMoveTrait {
    /// A consistent position, ready for move generation.
    spec fn gen_ready(&self) -> bool;

    /// Every square of `bb` holds a piece.
    spec fn holds_at(&self, bb: u64) -> bool;

    /// The ply indexes the killer table.
    spec fn ply_ok(&self) -> bool;

    /// The history is long enough for the half move clock.
    spec fn clock_ok(&self) -> bool;

    fn gen_moves(&mut self) -> Vec<Move>
        requires
            old(self).gen_ready(),
            old(self).ply_ok(),
    ;

    fn gen_captures(&mut self) -> Vec<Move>
        requires
            old(self).gen_ready(),
    ;

    fn add_quiet_moves(&mut self, bb: u64, piece: Piece, sq: usize)
        requires
            piece < 14,
            old(self).ply_ok(),
    ;

    fn add_capture_moves(&mut self, bb: u64, piece: Piece, sq: usize)
        requires
            old(self).holds_at(bb),
    ;

    fn add_castling_moves(&mut self)
        requires
            old(self).gen_ready(),
    ;

    fn add_ep_moves(&mut self)
        requires
            old(self).gen_ready(),
    ;

    fn add_capture_promo_moves(&mut self, from_sq: u8, to_sq: u8, piece: Piece)
        requires
            to_sq < 64,
            old(self).holds_at(1u64 << to_sq),
            valid_piece(piece),
    ;

    fn add_quiet_promo_moves(&mut self, from_sq: u8, to_sq: u8, piece: Piece)
        requires
            valid_piece(piece),
    ;

    fn pawn_moves(&mut self)
        requires
            old(self).gen_ready(),
    ;

    fn pawn_quiet_moves(&mut self)
        requires
            old(self).gen_ready(),
    ;

    fn pawn_capture_moves(&mut self)
        requires
            old(self).gen_ready(),
    ;

    fn piece_cap_moves(&mut self, piece: Piece)
        requires
            old(self).gen_ready(),
            valid_piece(piece),
    ;

    fn piece_quiet_moves(&mut self, piece: Piece)
        requires
            old(self).gen_ready(),
            old(self).ply_ok(),
            valid_piece(piece),
    ;

    fn piece_all_moves(&mut self, piece: Piece)
        requires
            old(self).gen_ready(),
            old(self).ply_ok(),
            valid_piece(piece),
    ;

    fn get_mv_bb(piece: Piece, sq: usize, own_occ: u64, enemy_occ: u64) -> u64
        requires
            valid_piece(piece),
            sq < 64,
    ;

    fn quiet_eval(&self, mv: &Move) -> isize
        requires
            self.ply_ok(),
            mv.piece < 14,
            mv.to < 64,
    ;

    fn capture_eval(&self, mv: &Move) -> isize
        requires
            mv.flag is Capture,
            valid_piece(mv.flag->Capture_0),
    ;

    fn sq_attack(&self, sq: usize, color: Color) -> u64
        requires
            sq < 64,
            color < 2,
    ;

    fn is_repetition(&self) -> bool
        requires
            self.clock_ok(),
    ;
}

impl BoardGenMoveTrait for Board {
    open spec fn gen_ready(&self) -> bool {
        gen_ready_spec(self)
    }

    open spec fn holds_at(&self, bb: u64) -> bool {
        holds_pieces(self, bb)
    }

    open spec fn ply_ok(&self) -> bool {
        self.moves@.len() < 64
    }

    open spec fn clock_ok(&self) -> bool {
        self.history@.len() >= self.state.half_move
    }

    /// The squares a piece on `sq` moves to, captures included, when the side of the piece
    /// has the pieces of `own_occ` and the other side those of `enemy_occ`.
    fn get_mv_bb(piece: Piece, sq: usize, own_occ: u64, enemy_occ: u64) -> (r: u64)
        ensures
            forall|t: u64| t < 64 ==> #[trigger] has_bit(r, t) == mv_target(piece, sq as int, own_occ, enemy_occ, t as int),
    {
        let c = piece.color();
        match piece.kind() {
            PAWN => {
                let a = get_pawn_mv(c, sq, own_occ, enemy_occ);
                let b = get_pawn_att(c, sq, own_occ, enemy_occ, None);
                proof {
                    lemma_bit_ops(a, b);
                }
                a | b
            },
            KNIGHT => get_knight_mv(sq, own_occ, enemy_occ, c),
            BISHOP => get_bishop_mv(sq, own_occ, enemy_occ, c),
            ROOK => get_rook_mv(sq, own_occ, enemy_occ, c),
            QUEEN => get_queen_mv(sq, own_occ, enemy_occ, c),
            _ => get_king_mv(sq, own_occ, enemy_occ, c),
        }
    }

    /// Order score of a quiet move of a piece: 90000 for the first killer move of the ply,
    /// 80000 for the second, else the history count of piece and target square.
    fn quiet_eval(&self, mv: &Move) -> (r: isize)
        ensures
            r == quiet_score(self, *mv),
    {
        let ply = self.ply();
        let k0 = match self.s_killers[ply][0] {
            Some(x) => x == *mv,
            None => false,
        };
        let k1 = match self.s_killers[ply][1] {
            Some(x) => x == *mv,
            None => false,
        };
        if k0 {
            90000
        } else if k1 {
            80000
        } else {
            self.s_history[mv.piece as usize][mv.to as usize] as isize
        }
    }

    /// Order score of a capture: the weight of the piece taken less the value of the
    /// piece that takes.
    fn capture_eval(&self, mv: &Move) -> (r: isize)
        ensures
            r == piece_weight_spec(piece_kind(mv.flag->Capture_0)) - mv.piece,
    {
        match mv.flag {
            Flag::Capture(cap) => cap.weight() - mv.piece as isize,
            _ => 0,
        }
    }

    /// Appends the quiet moves of `piece` from `sq` to the squares of `bb`, each with its
    /// score.
    fn add_quiet_moves(&mut self, bb: u64, piece: Piece, sq: usize)
        ensures
            final(self).gen_moves@.len() <= old(self).gen_moves@.len() + 64,
            gen_step(old(self), final(self), quiet_set_ok(old(self), bb, piece, sq as int) && piece_kind(piece) != PAWN),
            forall|t: u64| t < 64 && #[trigger] has_bit(bb, t) ==> listed_after(final(self).gen_moves@, old(self).gen_moves@.len() as int, Move { from: sq as u8, to: t as u8, piece, flag: Flag::Quiet }),
            added_all(old(self).gen_moves@.len() as int, final(self).gen_moves@, quiet_stage(bb, piece, sq)),
            distinct_moves(old(self).gen_moves@) && none_before(old(self).gen_moves@.len() as int, old(self).gen_moves@, quiet_stage(bb, piece, sq))
                ==> distinct_moves(final(self).gen_moves@),
    {
        let ghost b0 = *old(self);
        let ghost cond = quiet_set_ok(old(self), bb, piece, sq as int) && piece_kind(piece) != PAWN;
        let mut bits = bb;
        proof {
            lemma_gen_extends_refl(&b0);
        }
        let ghost mut cnt: int = 0;
        while bits != 0
            invariant
                0 <= cnt <= 64,
                forall|t: u64| t < 64 && #[trigger] has_bit(bits, t) ==> t >= cnt,
                self.gen_moves@.len() <= b0.gen_moves@.len() + cnt * 1,
                piece < 14,
                b0.moves@.len() < 64,
                cond == (quiet_set_ok(&b0, bb, piece, sq as int) && piece_kind(piece) != PAWN),
                forall|t: u64| t < 64 && #[trigger] has_bit(bits, t) ==> has_bit(bb, t),
                gen_step(&b0, self, cond),
                forall|t: u64| t < 64 && #[trigger] has_bit(bb, t) && !has_bit(bits, t) ==> listed_after(self.gen_moves@, b0.gen_moves@.len() as int, Move { from: sq as u8, to: t as u8, piece, flag: Flag::Quiet }),
                added_all(b0.gen_moves@.len() as int, self.gen_moves@, quiet_stage(bb, piece, sq)),
                forall|ii: int| b0.gen_moves@.len() <= ii < self.gen_moves@.len() ==> !has_bit(bits, (#[trigger] self.gen_moves@[ii]).0.to as u64),
                distinct_moves(b0.gen_moves@) && none_before(b0.gen_moves@.len() as int, b0.gen_moves@, quiet_stage(bb, piece, sq))
                    ==> distinct_moves(self.gen_moves@),
            decreases bits,
        {
            let ghost before = *self;
            let ghost bits0 = bits;
            let to_sq = bits.pop_lsb();
            proof {
                cnt = cnt + 1;
            }
            let mv = Move::init(sq as u8, to_sq as u8, piece, Flag::Quiet);
            let eval = self.quiet_eval(&mv);
            proof {
                lemma_gen_frame(&b0, self, mv);
            }
            self.push_any(mv, eval);
            proof {
                lemma_gen_step_trans(&b0, &before, self, cond);
                lemma_after_last(before.gen_moves@, b0.gen_moves@.len() as int, (mv, eval));
                if distinct_moves(b0.gen_moves@) && none_before(b0.gen_moves@.len() as int, b0.gen_moves@, quiet_stage(bb, piece, sq)) {
                    assert forall|ii: int| 0 <= ii < before.gen_moves@.len() implies #[trigger] before.gen_moves@[ii].0 != mv by {
                        if ii < b0.gen_moves@.len() {
                            assert(before.gen_moves@[ii] == b0.gen_moves@[ii]) by {
                                assert(before.gen_moves@.subrange(0, b0.gen_moves@.len() as int)[ii] == before.gen_moves@[ii]);
                            }
                        } else {
                            assert(!has_bit(bits0, before.gen_moves@[ii].0.to as u64));
                        }
                    }
                    lemma_push_distinct(before.gen_moves@, (mv, eval));
                }
                assert forall|t: u64| t < 64 && #[trigger] has_bit(bb, t) && !has_bit(bits, t) implies listed_after(self.gen_moves@, b0.gen_moves@.len() as int, Move { from: sq as u8, to: t as u8, piece, flag: Flag::Quiet }) by {
                    if t != to_sq as u64 {
                        lemma_after_grown(&before, self, b0.gen_moves@.len() as int, Move { from: sq as u8, to: t as u8, piece, flag: Flag::Quiet });
                    }
                }
            }
        }
        proof {
            lemma_bit_consts();
            assert forall|t: u64| t < 64 && #[trigger] has_bit(bb, t) implies listed_after(self.gen_moves@, b0.gen_moves@.len() as int, Move { from: sq as u8, to: t as u8, piece, flag: Flag::Quiet }) by {
                assert(!has_bit(bits, t));
            }
        }
    }

    /// Appends the captures of `piece` from `sq` of the pieces on the squares of `bb`, each
    /// with its score.
    fn add_capture_moves(&mut self, bb: u64, piece: Piece, sq: usize)
        ensures
            final(self).gen_moves@.len() <= old(self).gen_moves@.len() + 64,
            gen_step(old(self), final(self), capture_set_ok(old(self), bb, piece, sq as int) && piece_kind(piece) != PAWN),
            forall|t: u64| t < 64 && #[trigger] has_bit(bb, t) ==> listed_after(
                final(self).gen_moves@,
                old(self).gen_moves@.len() as int,
                Move { from: sq as u8, to: t as u8, piece, flag: Flag::Capture(old(self).squares[t as int]->0) },
            ),
            added_all(old(self).gen_moves@.len() as int, final(self).gen_moves@, capture_stage(bb, piece, sq)),
            distinct_moves(old(self).gen_moves@) && none_before(old(self).gen_moves@.len() as int, old(self).gen_moves@, capture_stage(bb, piece, sq))
                ==> distinct_moves(final(self).gen_moves@),
    {
        let ghost b0 = *old(self);
        let ghost cond = capture_set_ok(old(self), bb, piece, sq as int) && piece_kind(piece) != PAWN;
        let mut bits = bb;
        proof {
            lemma_gen_extends_refl(&b0);
        }
        let ghost mut cnt: int = 0;
        while bits != 0
            invariant
                0 <= cnt <= 64,
                forall|t: u64| t < 64 && #[trigger] has_bit(bits, t) ==> t >= cnt,
                self.gen_moves@.len() <= b0.gen_moves@.len() + cnt * 1,
                holds_pieces(&b0, bb),
                cond == (capture_set_ok(&b0, bb, piece, sq as int) && piece_kind(piece) != PAWN),
                forall|t: u64| t < 64 && #[trigger] has_bit(bits, t) ==> has_bit(bb, t),
                gen_step(&b0, self, cond),
                forall|t: u64| t < 64 && #[trigger] has_bit(bb, t) && !has_bit(bits, t) ==> listed_after(
                    self.gen_moves@,
                    b0.gen_moves@.len() as int,
                    Move { from: sq as u8, to: t as u8, piece, flag: Flag::Capture(b0.squares[t as int]->0) },
                ),
                added_all(b0.gen_moves@.len() as int, self.gen_moves@, capture_stage(bb, piece, sq)),
                forall|ii: int| b0.gen_moves@.len() <= ii < self.gen_moves@.len() ==> !has_bit(bits, (#[trigger] self.gen_moves@[ii]).0.to as u64),
                distinct_moves(b0.gen_moves@) && none_before(b0.gen_moves@.len() as int, b0.gen_moves@, capture_stage(bb, piece, sq))
                    ==> distinct_moves(self.gen_moves@),
            decreases bits,
        {
            let ghost before = *self;
            let ghost bits0 = bits;
            let to_sq = bits.pop_lsb();
            proof {
                cnt = cnt + 1;
            }
            let flag = Flag::Capture(self.piece_sq(to_sq));
            let mv = Move::init(sq as u8, to_sq as u8, piece, flag);
            let eval = self.capture_eval(&mv);
            proof {
                lemma_gen_frame(&b0, self, mv);
            }
            self.push_any(mv, eval);
            proof {
                lemma_gen_step_trans(&b0, &before, self, cond);
                lemma_after_last(before.gen_moves@, b0.gen_moves@.len() as int, (mv, eval));
                if distinct_moves(b0.gen_moves@) && none_before(b0.gen_moves@.len() as int, b0.gen_moves@, capture_stage(bb, piece, sq)) {
                    assert forall|ii: int| 0 <= ii < before.gen_moves@.len() implies #[trigger] before.gen_moves@[ii].0 != mv by {
                        if ii < b0.gen_moves@.len() {
                            assert(before.gen_moves@[ii] == b0.gen_moves@[ii]) by {
                                assert(before.gen_moves@.subrange(0, b0.gen_moves@.len() as int)[ii] == before.gen_moves@[ii]);
                            }
                        } else {
                            assert(!has_bit(bits0, before.gen_moves@[ii].0.to as u64));
                        }
                    }
                    lemma_push_distinct(before.gen_moves@, (mv, eval));
                }
                assert forall|t: u64| t < 64 && #[trigger] has_bit(bb, t) && !has_bit(bits, t) implies listed_after(
                    self.gen_moves@,
                    b0.gen_moves@.len() as int,
                    Move { from: sq as u8, to: t as u8, piece, flag: Flag::Capture(b0.squares[t as int]->0) },
                ) by {
                    if t != to_sq as u64 {
                        lemma_after_grown(&before, self, b0.gen_moves@.len() as int, Move { from: sq as u8, to: t as u8, piece, flag: Flag::Capture(b0.squares[t as int]->0) });
                    }
                }
            }
        }
        proof {
            lemma_bit_consts();
            assert forall|t: u64| t < 64 && #[trigger] has_bit(bb, t) implies listed_after(self.gen_moves@, b0.gen_moves@.len() as int, Move { from: sq as u8, to: t as u8, piece, flag: Flag::Capture(b0.squares[t as int]->0) }) by {
                assert(!has_bit(bits, t));
            }
        }
    }
    /// Appends the four promotions of the pawn push from `from_sq` to `to_sq`, scored by the
    /// weight of the piece promoted to.
    fn add_quiet_promo_moves(&mut self, from_sq: u8, to_sq: u8, piece: Piece)
        ensures
            final(self).gen_moves@.len() <= old(self).gen_moves@.len() + 4,
            gen_step(old(self), final(self), promo_push_ok(old(self), from_sq as int, to_sq as int, piece)),
            forall|q: u8| promo_kind(q) && piece_color(q) == piece_color(piece) ==> #[trigger] listed_after(
                final(self).gen_moves@,
                old(self).gen_moves@.len() as int,
                Move { from: from_sq, to: to_sq, piece, flag: Flag::Promotion(q, None) },
            ),
            added_all(old(self).gen_moves@.len() as int, final(self).gen_moves@, promo_stage(from_sq, to_sq, piece, false)),
            distinct_moves(old(self).gen_moves@) && none_before(old(self).gen_moves@.len() as int, old(self).gen_moves@, promo_stage(from_sq, to_sq, piece, false))
                ==> distinct_moves(final(self).gen_moves@),
    {
        let ghost b0 = *old(self);
        let ghost cond = promo_push_ok(old(self), from_sq as int, to_sq as int, piece);
        let promos: [Piece; 4] = [KNIGHT, BISHOP, ROOK, QUEEN];
        let c = piece.color();
        proof {
            lemma_gen_extends_refl(&b0);
        }
        let mut k: usize = 0;
        while k < 4
            invariant
                promos@ == seq![KNIGHT, BISHOP, ROOK, QUEEN],
                k <= 4,
                self.gen_moves@.len() <= b0.gen_moves@.len() + k,
                c < 2,
                cond == promo_push_ok(&b0, from_sq as int, to_sq as int, piece),
                cond ==> c == b0.state.color,
                gen_step(&b0, self, cond),
                c == piece_color(piece),
                forall|jj: int| 0 <= jj < k ==> #[trigger] listed_after(
                    self.gen_moves@,
                    b0.gen_moves@.len() as int,
                    Move { from: from_sq, to: to_sq, piece, flag: Flag::Promotion((promos@[jj] + c) as u8, None) },
                ),
                added_all(b0.gen_moves@.len() as int, self.gen_moves@, promo_stage(from_sq, to_sq, piece, false)),
                forall|ii: int| b0.gen_moves@.len() <= ii < self.gen_moves@.len() ==> k < 4 ==> (#[trigger] self.gen_moves@[ii]).0.flag->Promotion_0 < promos@[k as int] + c,
                distinct_moves(b0.gen_moves@) && none_before(b0.gen_moves@.len() as int, b0.gen_moves@, promo_stage(from_sq, to_sq, piece, false))
                    ==> distinct_moves(self.gen_moves@),
            decreases 4 - k,
        {
            let ghost before = *self;
            let promo_piece = promos[k];
            let eval = promo_piece.weight();
            let flag = Flag::Promotion(promo_piece + c, None);
            let mv = Move::init(from_sq, to_sq, piece, flag);
            proof {
                if cond {
                    lemma_promo_ok(&b0, from_sq as int, to_sq as int, piece, promo_piece, None);
                }
                lemma_gen_frame(&b0, self, mv);
            }
            self.push_any(mv, eval);
            proof {
                lemma_gen_step_trans(&b0, &before, self, cond);
                lemma_after_last(before.gen_moves@, b0.gen_moves@.len() as int, (mv, eval));
                if distinct_moves(b0.gen_moves@) && none_before(b0.gen_moves@.len() as int, b0.gen_moves@, promo_stage(from_sq, to_sq, piece, false)) {
                    assert forall|ii: int| 0 <= ii < before.gen_moves@.len() implies #[trigger] before.gen_moves@[ii].0 != mv by {
                        if ii < b0.gen_moves@.len() {
                            assert(before.gen_moves@[ii] == b0.gen_moves@[ii]) by {
                                assert(before.gen_moves@.subrange(0, b0.gen_moves@.len() as int)[ii] == before.gen_moves@[ii]);
                            }
                        } else {
                            assert(before.gen_moves@[ii].0.flag->Promotion_0 < promos@[k as int] + c);
                        }
                    }
                    lemma_push_distinct(before.gen_moves@, (mv, eval));
                }
                assert forall|jj: int| 0 <= jj < k + 1 implies #[trigger] listed_after(
                    self.gen_moves@,
                    b0.gen_moves@.len() as int,
                    Move { from: from_sq, to: to_sq, piece, flag: Flag::Promotion((promos@[jj] + c) as u8, None) },
                ) by {
                    if jj < k {
                        lemma_after_grown(&before, self, b0.gen_moves@.len() as int, Move { from: from_sq, to: to_sq, piece, flag: Flag::Promotion((promos@[jj] + c) as u8, None) });
                    }
                }
            }
            k = k + 1;
        }
        proof {
            assert forall|q: u8| promo_kind(q) && piece_color(q) == piece_color(piece) implies #[trigger] listed_after(
                self.gen_moves@,
                b0.gen_moves@.len() as int,
                Move { from: from_sq, to: to_sq, piece, flag: Flag::Promotion(q, None) },
            ) by {
                let jj: int = if piece_kind(q) == KNIGHT { 0 } else if piece_kind(q) == BISHOP { 1 } else if piece_kind(q) == ROOK { 2 } else { 3 };
                assert(q == (promos@[jj] + c) as u8);
                assert(listed_after(self.gen_moves@, b0.gen_moves@.len() as int, Move { from: from_sq, to: to_sq, piece, flag: Flag::Promotion((promos@[jj] + c) as u8, None) }));
            }
        }
    }

    /// Appends the four promotions of the pawn capture from `from_sq` to `to_sq`, scored by
    /// the weight of the piece taken, less the value of the pawn, plus the weight of the piece
    /// promoted to.
    fn add_capture_promo_moves(&mut self, from_sq: u8, to_sq: u8, piece: Piece)
        ensures
            final(self).gen_moves@.len() <= old(self).gen_moves@.len() + 4,
            gen_step(old(self), final(self), promo_cap_ok(old(self), from_sq as int, to_sq as int, piece)),
            forall|q: u8| promo_kind(q) && piece_color(q) == piece_color(piece) ==> #[trigger] listed_after(
                final(self).gen_moves@,
                old(self).gen_moves@.len() as int,
                Move { from: from_sq, to: to_sq, piece, flag: Flag::Promotion(q, Some(old(self).squares[to_sq as int]->0)) },
            ),
            added_all(old(self).gen_moves@.len() as int, final(self).gen_moves@, promo_stage(from_sq, to_sq, piece, true)),
            distinct_moves(old(self).gen_moves@) && none_before(old(self).gen_moves@.len() as int, old(self).gen_moves@, promo_stage(from_sq, to_sq, piece, true))
                ==> distinct_moves(final(self).gen_moves@),
    {
        let ghost b0 = *old(self);
        let ghost cond = promo_cap_ok(old(self), from_sq as int, to_sq as int, piece);
        proof {
            lemma_bit_consts();
            assert(has_bit(1u64 << to_sq, to_sq as u64));
        }
        let taken_piece = self.piece_sq(to_sq as usize);
        let promos: [Piece; 4] = [KNIGHT, BISHOP, ROOK, QUEEN];
        let c = piece.color();
        proof {
            lemma_gen_extends_refl(&b0);
        }
        let mut k: usize = 0;
        while k < 4
            invariant
                promos@ == seq![KNIGHT, BISHOP, ROOK, QUEEN],
                k <= 4,
                self.gen_moves@.len() <= b0.gen_moves@.len() + k,
                c < 2,
                cond == promo_cap_ok(&b0, from_sq as int, to_sq as int, piece),
                cond ==> c == b0.state.color,
                b0.squares[to_sq as int] == Some(taken_piece),
                valid_piece(taken_piece),
                gen_step(&b0, self, cond),
                c == piece_color(piece),
                forall|jj: int| 0 <= jj < k ==> #[trigger] listed_after(
                    self.gen_moves@,
                    b0.gen_moves@.len() as int,
                    Move { from: from_sq, to: to_sq, piece, flag: Flag::Promotion((promos@[jj] + c) as u8, Some(taken_piece)) },
                ),
                added_all(b0.gen_moves@.len() as int, self.gen_moves@, promo_stage(from_sq, to_sq, piece, true)),
                forall|ii: int| b0.gen_moves@.len() <= ii < self.gen_moves@.len() ==> k < 4 ==> (#[trigger] self.gen_moves@[ii]).0.flag->Promotion_0 < promos@[k as int] + c,
                distinct_moves(b0.gen_moves@) && none_before(b0.gen_moves@.len() as int, b0.gen_moves@, promo_stage(from_sq, to_sq, piece, true))
                    ==> distinct_moves(self.gen_moves@),
            decreases 4 - k,
        {
            let ghost before = *self;
            let promo_piece = promos[k];
            let eval = taken_piece.weight() - piece as isize + promo_piece.weight();
            let flag = Flag::Promotion(promo_piece + c, Some(taken_piece));
            let mv = Move::init(from_sq, to_sq, piece, flag);
            proof {
                if cond {
                    lemma_promo_ok(&b0, from_sq as int, to_sq as int, piece, promo_piece, Some(taken_piece));
                }
                lemma_gen_frame(&b0, self, mv);
            }
            self.push_any(mv, eval);
            proof {
                lemma_gen_step_trans(&b0, &before, self, cond);
                lemma_after_last(before.gen_moves@, b0.gen_moves@.len() as int, (mv, eval));
                if distinct_moves(b0.gen_moves@) && none_before(b0.gen_moves@.len() as int, b0.gen_moves@, promo_stage(from_sq, to_sq, piece, true)) {
                    assert forall|ii: int| 0 <= ii < before.gen_moves@.len() implies #[trigger] before.gen_moves@[ii].0 != mv by {
                        if ii < b0.gen_moves@.len() {
                            assert(before.gen_moves@[ii] == b0.gen_moves@[ii]) by {
                                assert(before.gen_moves@.subrange(0, b0.gen_moves@.len() as int)[ii] == before.gen_moves@[ii]);
                            }
                        } else {
                            assert(before.gen_moves@[ii].0.flag->Promotion_0 < promos@[k as int] + c);
                        }
                    }
                    lemma_push_distinct(before.gen_moves@, (mv, eval));
                }
                assert forall|jj: int| 0 <= jj < k + 1 implies #[trigger] listed_after(
                    self.gen_moves@,
                    b0.gen_moves@.len() as int,
                    Move { from: from_sq, to: to_sq, piece, flag: Flag::Promotion((promos@[jj] + c) as u8, Some(taken_piece)) },
                ) by {
                    if jj < k {
                        lemma_after_grown(&before, self, b0.gen_moves@.len() as int, Move { from: from_sq, to: to_sq, piece, flag: Flag::Promotion((promos@[jj] + c) as u8, Some(taken_piece)) });
                    }
                }
            }
            k = k + 1;
        }
        proof {
            assert forall|q: u8| promo_kind(q) && piece_color(q) == piece_color(piece) implies #[trigger] listed_after(
                self.gen_moves@,
                b0.gen_moves@.len() as int,
                Move { from: from_sq, to: to_sq, piece, flag: Flag::Promotion(q, Some(b0.squares[to_sq as int]->0)) },
            ) by {
                let jj: int = if piece_kind(q) == KNIGHT { 0 } else if piece_kind(q) == BISHOP { 1 } else if piece_kind(q) == ROOK { 2 } else { 3 };
                assert(q == (promos@[jj] + c) as u8);
                assert(listed_after(self.gen_moves@, b0.gen_moves@.len() as int, Move { from: from_sq, to: to_sq, piece, flag: Flag::Promotion((promos@[jj] + c) as u8, Some(taken_piece)) }));
            }
        }
    }

    /// Appends the quiet moves of the pieces `piece`.
    fn piece_quiet_moves(&mut self, piece: Piece)
        ensures
            final(self).gen_moves@.len() <= old(self).gen_moves@.len() + 4096,
            gen_step(old(self), final(self), piece_color(piece) == old(self).state.color && piece_kind(piece) != PAWN),
            piece_kind(piece) != PAWN ==> forall|m: Move| #[trigger] gen_ok(old(self), m) && m.piece == piece && m.flag is Quiet
                ==> listed_after(final(self).gen_moves@, old(self).gen_moves@.len() as int, m),
    {
        let ghost b0 = *old(self);
        let ghost cond = piece_color(piece) == b0.state.color && piece_kind(piece) != PAWN;
        let (own_occ, enemy_occ) = self.both_occ_bb(self.color());
        let mut bb = self.bb(piece);
        proof {
            lemma_gen_extends_refl(&b0);
        }
        let ghost mut cnt: int = 0;
        while bb != 0
            invariant
                0 <= cnt <= 64,
                forall|t: u64| t < 64 && #[trigger] has_bit(bb, t) ==> t >= cnt,
                self.gen_moves@.len() <= b0.gen_moves@.len() + cnt * 64,
                gen_ready_spec(&b0),
                b0.moves@.len() < 64,
                valid_piece(piece),
                own_occ == b0.bitboard[b0.state.color as int],
                enemy_occ == b0.bitboard[1 - b0.state.color],
                forall|t: u64| t < 64 && #[trigger] has_bit(bb, t) ==> has_bit(b0.bitboard[piece as int], t),
                cond == (piece_color(piece) == b0.state.color && piece_kind(piece) != PAWN),
                gen_step(&b0, self, cond),
                piece_kind(piece) != PAWN ==> forall|m: Move| #[trigger] gen_ok(&b0, m) && m.piece == piece && m.flag is Quiet
                    && !has_bit(bb, m.from as u64) ==> listed_after(self.gen_moves@, b0.gen_moves@.len() as int, m),
            decreases bb,
        {
            let ghost before = *self;
            let sq = bb.pop_lsb();
            proof {
                cnt = cnt + 1;
            }
            let moves = Board::get_mv_bb(piece, sq, own_occ, enemy_occ);
            let quiet_moves = moves & !enemy_occ;
            proof {
                lemma_bit_ops(moves, !enemy_occ);
                lemma_bit_ops(moves, enemy_occ);
                lemma_bit_ops(enemy_occ, enemy_occ);
                lemma_piece_targets(&b0, piece, sq as int, own_occ, enemy_occ, moves, quiet_moves, moves & enemy_occ);
                lemma_sets_frame(&b0, self, quiet_moves, piece, sq as int);
            }
            self.add_quiet_moves(quiet_moves, piece, sq);
            proof {
                lemma_gen_step_trans(&b0, &before, self, cond);
                if piece_kind(piece) != PAWN {
                    assert forall|m: Move| #[trigger] gen_ok(&b0, m) && m.piece == piece && m.flag is Quiet && !has_bit(bb, m.from as u64)
                        implies listed_after(self.gen_moves@, b0.gen_moves@.len() as int, m) by {
                        if m.from as u64 == sq as u64 {
                            lemma_after_within(self.gen_moves@, b0.gen_moves@.len() as int, before.gen_moves@.len() as int);
                            lemma_piece_move_bits(&b0, m);
                            let to = m.to as u64;
                            assert(mv_target(piece, sq as int, own_occ, enemy_occ, to as int));
                            assert(has_bit(moves, to));
                            assert(has_bit(quiet_moves, to));
                            assert(m == Move { from: sq as u8, to: to as u8, piece, flag: Flag::Quiet });
                        } else {
                            lemma_after_grown(&before, self, b0.gen_moves@.len() as int, m);
                        }
                    }
                }
            }
        }
        proof {
            lemma_bit_consts();
            if piece_kind(piece) != PAWN {
                assert forall|m: Move| #[trigger] gen_ok(&b0, m) && m.piece == piece && m.flag is Quiet implies listed_after(self.gen_moves@, b0.gen_moves@.len() as int, m) by {
                    assert(!has_bit(bb, m.from as u64));
                }
            }
        }
    }

    /// Appends the captures of the pieces `piece`.
    fn piece_cap_moves(&mut self, piece: Piece)
        ensures
            final(self).gen_moves@.len() <= old(self).gen_moves@.len() + 4096,
            gen_step(old(self), final(self), piece_color(piece) == old(self).state.color && piece_kind(piece) != PAWN),
            piece_kind(piece) != PAWN ==> forall|m: Move| #[trigger] gen_ok(old(self), m) && m.piece == piece && m.flag is Capture
                ==> listed_after(final(self).gen_moves@, old(self).gen_moves@.len() as int, m),
            added_all(old(self).gen_moves@.len() as int, final(self).gen_moves@, piece_cap_stage(piece)),
            distinct_moves(old(self).gen_moves@) && none_before(old(self).gen_moves@.len() as int, old(self).gen_moves@, piece_cap_stage(piece))
                ==> distinct_moves(final(self).gen_moves@),
    {
        let ghost b0 = *old(self);
        let ghost cond = piece_color(piece) == b0.state.color && piece_kind(piece) != PAWN;
        let (own_occ, enemy_occ) = self.both_occ_bb(self.color());
        let mut bb = self.bb(piece);
        proof {
            lemma_gen_extends_refl(&b0);
        }
        let ghost mut cnt: int = 0;
        while bb != 0
            invariant
                0 <= cnt <= 64,
                forall|t: u64| t < 64 && #[trigger] has_bit(bb, t) ==> t >= cnt,
                self.gen_moves@.len() <= b0.gen_moves@.len() + cnt * 64,
                gen_ready_spec(&b0),
                valid_piece(piece),
                own_occ == b0.bitboard[b0.state.color as int],
                enemy_occ == b0.bitboard[1 - b0.state.color],
                forall|t: u64| t < 64 && #[trigger] has_bit(bb, t) ==> has_bit(b0.bitboard[piece as int], t),
                cond == (piece_color(piece) == b0.state.color && piece_kind(piece) != PAWN),
                gen_step(&b0, self, cond),
                piece_kind(piece) != PAWN ==> forall|m: Move| #[trigger] gen_ok(&b0, m) && m.piece == piece && m.flag is Capture
                    && !has_bit(bb, m.from as u64) ==> listed_after(self.gen_moves@, b0.gen_moves@.len() as int, m),
                added_all(b0.gen_moves@.len() as int, self.gen_moves@, |m: Move| piece_cap_stage(piece)(m) && !has_bit(bb, m.from as u64)),
                distinct_moves(b0.gen_moves@) && none_before(b0.gen_moves@.len() as int, b0.gen_moves@, piece_cap_stage(piece))
                    ==> distinct_moves(self.gen_moves@),
            decreases bb,
        {
            let ghost before = *self;
            let ghost bits0 = bb;
            let sq = bb.pop_lsb();
            proof {
                cnt = cnt + 1;
            }
            let moves = Board::get_mv_bb(piece, sq, own_occ, enemy_occ);
            let capture_moves = moves & enemy_occ;
            proof {
                lemma_bit_ops(moves, !enemy_occ);
                lemma_bit_ops(moves, enemy_occ);
                lemma_bit_ops(enemy_occ, enemy_occ);
                lemma_piece_targets(&b0, piece, sq as int, own_occ, enemy_occ, moves, moves & !enemy_occ, capture_moves);
                lemma_sets_frame(&b0, self, capture_moves, piece, sq as int);
            }
            let ghost pre = distinct_moves(b0.gen_moves@) && none_before(b0.gen_moves@.len() as int, b0.gen_moves@, piece_cap_stage(piece));
            let ghost pa = |m: Move| piece_cap_stage(piece)(m) && !has_bit(bits0, m.from as u64);
            let ghost cs = capture_stage(capture_moves, piece, sq);
            proof {
                lemma_gen_extends_refl(&b0);
                if pre {
                    lemma_stage_fresh(&b0, &before, piece_cap_stage(piece), pa, cs);
                }
            }
            self.add_capture_moves(capture_moves, piece, sq);
            proof {
                lemma_gen_step_trans(&b0, &before, self, cond);
                lemma_stage_added(&b0, &before, self, pa, cs, |m: Move| piece_cap_stage(piece)(m) && !has_bit(bb, m.from as u64));
                if piece_kind(piece) != PAWN {
                    assert forall|m: Move| #[trigger] gen_ok(&b0, m) && m.piece == piece && m.flag is Capture && !has_bit(bb, m.from as u64)
                        implies listed_after(self.gen_moves@, b0.gen_moves@.len() as int, m) by {
                        if m.from as u64 == sq as u64 {
                            lemma_after_within(self.gen_moves@, b0.gen_moves@.len() as int, before.gen_moves@.len() as int);
                            lemma_piece_move_bits(&b0, m);
                            let to = m.to as u64;
                            assert(mv_target(piece, sq as int, own_occ, enemy_occ, to as int));
                            assert(has_bit(moves, to));
                            assert(has_bit(capture_moves, to));
                            assert(m == Move { from: sq as u8, to: to as u8, piece, flag: Flag::Capture(before.squares[to as int]->0) });
                        } else {
                            lemma_after_grown(&before, self, b0.gen_moves@.len() as int, m);
                        }
                    }
                }
            }
        }
        proof {
            lemma_bit_consts();
            if piece_kind(piece) != PAWN {
                assert forall|m: Move| #[trigger] gen_ok(&b0, m) && m.piece == piece && m.flag is Capture implies listed_after(self.gen_moves@, b0.gen_moves@.len() as int, m) by {
                    assert(!has_bit(bb, m.from as u64));
                }
            }
        }
    }

    /// Appends the quiet moves and the captures of the pieces `piece`.
    fn piece_all_moves(&mut self, piece: Piece)
        ensures
            final(self).gen_moves@.len() <= old(self).gen_moves@.len() + 8192,
            gen_step(old(self), final(self), piece_color(piece) == old(self).state.color && piece_kind(piece) != PAWN),
            piece_kind(piece) != PAWN ==> forall|m: Move| #[trigger] gen_ok(old(self), m) && m.piece == piece && (m.flag is Quiet
                || m.flag is Capture) ==> listed_after(final(self).gen_moves@, old(self).gen_moves@.len() as int, m),
            added_all(old(self).gen_moves@.len() as int, final(self).gen_moves@, piece_stage(piece)),
            distinct_moves(old(self).gen_moves@) && none_before(old(self).gen_moves@.len() as int, old(self).gen_moves@, piece_stage(piece))
                ==> distinct_moves(final(self).gen_moves@),
    {
        let ghost b0 = *old(self);
        let ghost cond = piece_color(piece) == b0.state.color && piece_kind(piece) != PAWN;
        let (own_occ, enemy_occ) = self.both_occ_bb(self.color());
        let mut bb = self.bb(piece);
        proof {
            lemma_gen_extends_refl(&b0);
        }
        let ghost mut cnt: int = 0;
        while bb != 0
            invariant
                0 <= cnt <= 64,
                forall|t: u64| t < 64 && #[trigger] has_bit(bb, t) ==> t >= cnt,
                self.gen_moves@.len() <= b0.gen_moves@.len() + cnt * 128,
                gen_ready_spec(&b0),
                b0.moves@.len() < 64,
                valid_piece(piece),
                own_occ == b0.bitboard[b0.state.color as int],
                enemy_occ == b0.bitboard[1 - b0.state.color],
                forall|t: u64| t < 64 && #[trigger] has_bit(bb, t) ==> has_bit(b0.bitboard[piece as int], t),
                cond == (piece_color(piece) == b0.state.color && piece_kind(piece) != PAWN),
                gen_step(&b0, self, cond),
                piece_kind(piece) != PAWN ==> forall|m: Move| #[trigger] gen_ok(&b0, m) && m.piece == piece && (m.flag is Quiet
                    || m.flag is Capture) && !has_bit(bb, m.from as u64) ==> listed_after(self.gen_moves@, b0.gen_moves@.len() as int, m),
                added_all(b0.gen_moves@.len() as int, self.gen_moves@, |m: Move| piece_stage(piece)(m) && !has_bit(bb, m.from as u64)),
                distinct_moves(b0.gen_moves@) && none_before(b0.gen_moves@.len() as int, b0.gen_moves@, piece_stage(piece))
                    ==> distinct_moves(self.gen_moves@),
            decreases bb,
        {
            let ghost before = *self;
            let ghost bits0 = bb;
            let sq = bb.pop_lsb();
            proof {
                cnt = cnt + 1;
            }
            let moves = Board::get_mv_bb(piece, sq, own_occ, enemy_occ);
            let quiet_moves = moves & !enemy_occ;
            let capture_moves = moves & enemy_occ;
            proof {
                lemma_bit_ops(moves, !enemy_occ);
                lemma_bit_ops(moves, enemy_occ);
                lemma_bit_ops(enemy_occ, enemy_occ);
                lemma_piece_targets(&b0, piece, sq as int, own_occ, enemy_occ, moves, quiet_moves, capture_moves);
                lemma_sets_frame(&b0, self, quiet_moves, piece, sq as int);
                lemma_sets_frame(&b0, self, capture_moves, piece, sq as int);
            }
            let ghost pre = distinct_moves(b0.gen_moves@) && none_before(b0.gen_moves@.len() as int, b0.gen_moves@, piece_stage(piece));
            let ghost pa = |m: Move| piece_stage(piece)(m) && !has_bit(bits0, m.from as u64);
            let ghost qs = quiet_stage(quiet_moves, piece, sq);
            let ghost cs = capture_stage(capture_moves, piece, sq);
            proof {
                lemma_gen_extends_refl(&b0);
                if pre {
                    lemma_stage_fresh(&b0, &before, piece_stage(piece), pa, qs);
                }
            }
            self.add_quiet_moves(quiet_moves, piece, sq);
            let ghost mid = *self;
            proof {
                lemma_gen_grown_trans(&b0, &before, &mid);
                lemma_stage_added(&b0, &before, &mid, pa, qs, |m: Move| pa(m) || qs(m));
                if pre {
                    lemma_stage_fresh(&b0, &mid, piece_stage(piece), |m: Move| pa(m) || qs(m), cs);
                }
            }
            proof {
                lemma_gen_grown_trans(&b0, &before, &mid);
                lemma_sets_frame(&b0, &mid, capture_moves, piece, sq as int);
            }
            self.add_capture_moves(capture_moves, piece, sq);
            proof {
                lemma_stage_added(&b0, &mid, self, |m: Move| pa(m) || qs(m), cs, |m: Move| piece_stage(piece)(m) && !has_bit(bb, m.from as u64));
                lemma_gen_step_trans(&before, &mid, self, cond);
                lemma_gen_step_trans(&b0, &before, self, cond);
                lemma_gen_grown_trans(&before, &mid, self);
                if piece_kind(piece) != PAWN {
                assert forall|m: Move| #[trigger] gen_ok(&b0, m) && m.piece == piece && (m.flag is Quiet || m.flag is Capture)
                    && !has_bit(bb, m.from as u64) implies listed_after(self.gen_moves@, b0.gen_moves@.len() as int, m) by {
                    if m.from as u64 == sq as u64 {
                        lemma_after_within(self.gen_moves@, b0.gen_moves@.len() as int, mid.gen_moves@.len() as int);
                        lemma_after_within(mid.gen_moves@, b0.gen_moves@.len() as int, before.gen_moves@.len() as int);
                        lemma_piece_move_bits(&b0, m);
                        let to = m.to as u64;
                        assert(mv_target(piece, sq as int, own_occ, enemy_occ, to as int));
                        assert(has_bit(moves, to));
                        if m.flag is Quiet {
                            assert(has_bit(quiet_moves, to));
                            assert(m == Move { from: sq as u8, to: to as u8, piece, flag: Flag::Quiet });
                            lemma_after_grown(&mid, self, b0.gen_moves@.len() as int, m);
                        } else {
                            assert(has_bit(capture_moves, to));
                            assert(m == Move { from: sq as u8, to: to as u8, piece, flag: Flag::Capture(mid.squares[to as int]->0) });
                        }
                    } else {
                        lemma_after_grown(&before, self, b0.gen_moves@.len() as int, m);
                    }
                }
                }
            }
        }
        proof {
            lemma_bit_consts();
            if piece_kind(piece) != PAWN {
                assert forall|m: Move| #[trigger] gen_ok(&b0, m) && m.piece == piece && (m.flag is Quiet || m.flag is Capture)
                    implies listed_after(self.gen_moves@, b0.gen_moves@.len() as int, m) by {
                    assert(!has_bit(bb, m.from as u64));
                }
            }
        }
    }

    /// Appends the pawn captures and then the pawn pushes.
    fn pawn_moves(&mut self)
        ensures
            final(self).gen_moves@.len() <= old(self).gen_moves@.len() + 1408,
            gen_extends(old(self), final(self)),
            forall|m: Move| #[trigger] gen_ok(old(self), m) && (pawn_push_move(m) || pawn_take_move(m)) ==> listed_after(final(self).gen_moves@, old(self).gen_moves@.len() as int, m),
            added_all(old(self).gen_moves@.len() as int, final(self).gen_moves@, pawn_stage(old(self).state.color)),
            distinct_moves(old(self).gen_moves@) && none_before(old(self).gen_moves@.len() as int, old(self).gen_moves@, pawn_stage(old(self).state.color))
                ==> distinct_moves(final(self).gen_moves@),
    {
        let ghost b0 = *old(self);
        let ghost c = b0.state.color;
        let ghost pre = distinct_moves(b0.gen_moves@) && none_before(b0.gen_moves@.len() as int, b0.gen_moves@, pawn_stage(c));
        proof {
            lemma_gen_extends_refl(&b0);
            if pre {
                lemma_stage_fresh(&b0, &b0, pawn_stage(c), no_stage(), pawn_take_stage(c));
            }
        }
        self.pawn_capture_moves();
        let ghost b1 = *self;
        proof {
            if pre {
                lemma_stage_fresh(&b0, &b1, pawn_stage(c), pawn_take_stage(c), pawn_push_stage(c));
            }
        }
        self.pawn_quiet_moves();
        proof {
            lemma_stage_added(&b0, &b1, self, pawn_take_stage(c), pawn_push_stage(c), pawn_stage(c));
        }
        proof {
            lemma_gen_extends_trans(&b0, &b1, self);
            assert forall|m: Move| #[trigger] gen_ok(&b0, m) && (pawn_push_move(m) || pawn_take_move(m)) implies listed_after(self.gen_moves@, b0.gen_moves@.len() as int, m) by {
                lemma_gen_frame(&b0, &b1, m);
                lemma_after_within(self.gen_moves@, b0.gen_moves@.len() as int, b1.gen_moves@.len() as int);
                if pawn_take_move(m) {
                    lemma_after_grown(&b1, self, b0.gen_moves@.len() as int, m);
                } else {
                    assert(gen_ok(&b1, m));
                }
            }
        }
    }

    /// Appends the pawn pushes of the side to move: one square, promotions, then two squares.
    fn pawn_quiet_moves(&mut self)
        ensures
            final(self).gen_moves@.len() <= old(self).gen_moves@.len() + 384,
            gen_extends(old(self), final(self)),
            forall|m: Move| #[trigger] gen_ok(old(self), m) && pawn_push_move(m) ==> listed_after(final(self).gen_moves@, old(self).gen_moves@.len() as int, m),
            added_all(old(self).gen_moves@.len() as int, final(self).gen_moves@, pawn_push_stage(old(self).state.color)),
            distinct_moves(old(self).gen_moves@) && none_before(old(self).gen_moves@.len() as int, old(self).gen_moves@, pawn_push_stage(old(self).state.color))
                ==> distinct_moves(final(self).gen_moves@),
    {
        let ghost b0 = *old(self);
        let (own_occ, enemy_occ) = self.both_occ_bb(self.color());
        let both_occ = own_occ | enemy_occ;
        let pawns = self.pawn_bb(self.color());
        let ghost c = b0.state.color;
        proof {
            lemma_bit_ops(own_occ, enemy_occ);
            lemma_gen_extends_refl(&b0);
        }
        if self.color().is_white() {
            let r7 = rank_bitboard(7);
            let r2 = rank_bitboard(2);
            let mv = (pawns << 8u64) & !both_occ;
            let one_mv = mv & !r7;
            let one_promo = mv & r7;
            let two_mv = ((one_mv & r2) << 8u64) & !both_occ;
            proof {
                lemma_bit_shift(pawns, 8);
                lemma_bit_ops(pawns << 8u64, !both_occ);
                lemma_bit_ops(both_occ, both_occ);
                lemma_bit_ops(mv, !r7);
                lemma_bit_ops(r7, r7);
                lemma_bit_ops(mv, r7);
                lemma_bit_ops(one_mv, r2);
                lemma_bit_shift(one_mv & r2, 8);
                lemma_bit_ops((one_mv & r2) << 8u64, !both_occ);
                assert forall|t: u64| t < 64 && #[trigger] has_bit(two_mv, t) implies has_bit(one_mv, (t - 8) as u64) by {}
            }
            let ghost pq = pawn_push_stage(c);
            let ghost s1 = push_stage(c, one_mv, 8, true);
            let ghost s2 = promo_push_stage(c, one_promo, true);
            let ghost s3 = push_stage(c, two_mv, 16, true);
            let ghost pre = distinct_moves(b0.gen_moves@) && none_before(b0.gen_moves@.len() as int, b0.gen_moves@, pq);
            proof {
                if pre {
                    lemma_stage_fresh(&b0, &b0, pq, no_stage(), s1);
                }
            }
            self.pawn_push_loop(one_mv, 8, true);
            let ghost b1 = *self;
            proof {
                if pre {
                    lemma_stage_fresh(&b0, &b1, pq, s1, s2);
                }
            }
            self.pawn_promo_push_loop(one_promo, true);
            let ghost b2 = *self;
            proof {
                lemma_gen_extends_trans(&b0, &b1, &b2);
                lemma_stage_added(&b0, &b1, &b2, s1, s2, |m: Move| s1(m) || s2(m));
                if pre {
                    lemma_stage_fresh(&b0, &b2, pq, |m: Move| s1(m) || s2(m), s3);
                }
            }
            self.pawn_push_loop(two_mv, 16, true);
            proof {
                lemma_stage_added(&b0, &b2, self, |m: Move| s1(m) || s2(m), s3, pq);
                lemma_gen_extends_trans(&b0, &b1, &b2);
                lemma_gen_extends_trans(&b0, &b2, self);
                assert forall|m: Move| #[trigger] gen_ok(&b0, m) && pawn_push_move(m) implies listed_after(self.gen_moves@, b0.gen_moves@.len() as int, m) by {
                    lemma_pawn_push_bits(&b0, m);
                    lemma_after_within(self.gen_moves@, b0.gen_moves@.len() as int, b2.gen_moves@.len() as int);
                    lemma_after_within(b2.gen_moves@, b0.gen_moves@.len() as int, b1.gen_moves@.len() as int);
                    let (from, to) = (m.from as int, m.to as int);
                    assert(has_bit(pawns, from as u64));
                    if m.flag is Quiet {
                        if to == from + 8 {
                            assert(has_bit(pawns << 8u64, to as u64));
                            assert(has_bit(one_mv, to as u64));
                            lemma_after_grown(&b1, &b2, b0.gen_moves@.len() as int, m);
                            lemma_after_grown(&b2, self, b0.gen_moves@.len() as int, m);
                        } else {
                            assert(has_bit(pawns << 8u64, (from + 8) as u64));
                            assert(has_bit(one_mv, (from + 8) as u64));
                            assert(has_bit(one_mv & r2, (from + 8) as u64));
                            assert(has_bit((one_mv & r2) << 8u64, to as u64));
                            assert(has_bit(two_mv, to as u64));
                        }
                    } else {
                        assert(has_bit(pawns << 8u64, to as u64));
                        assert(has_bit(one_promo, to as u64));
                        let q = m.flag->Promotion_0;
                        assert(m == Move { from: back_sq(to, 8, true) as u8, to: to as u8, piece: (PAWN + b0.state.color) as u8, flag: Flag::Promotion(q, None) });
                        assert(listed_after(b2.gen_moves@, b1.gen_moves@.len() as int, Move { from: back_sq(to, 8, true) as u8, to: to as u8, piece: (PAWN + b0.state.color) as u8, flag: Flag::Promotion(q, None) }));
                        lemma_after_grown(&b2, self, b0.gen_moves@.len() as int, m);
                    }
                }
            }
        } else {
            let r0 = rank_bitboard(0);
            let r5 = rank_bitboard(5);
            let mv = (pawns >> 8u64) & !both_occ;
            let one_mv = mv & !r0;
            let one_promo = mv & r0;
            let two_mv = ((one_mv & r5) >> 8u64) & !both_occ;
            proof {
                lemma_bit_shift(pawns, 8);
                lemma_bit_ops(pawns >> 8u64, !both_occ);
                lemma_bit_ops(both_occ, both_occ);
                lemma_bit_ops(mv, !r0);
                lemma_bit_ops(r0, r0);
                lemma_bit_ops(mv, r0);
                lemma_bit_ops(one_mv, r5);
                lemma_bit_shift(one_mv & r5, 8);
                lemma_bit_ops((one_mv & r5) >> 8u64, !both_occ);
                assert forall|t: u64| t < 64 && #[trigger] has_bit(two_mv, t) implies has_bit(one_mv, (t + 8) as u64) by {}
            }
            let ghost pq = pawn_push_stage(c);
            let ghost s1 = push_stage(c, one_mv, 8, false);
            let ghost s2 = promo_push_stage(c, one_promo, false);
            let ghost s3 = push_stage(c, two_mv, 16, false);
            let ghost pre = distinct_moves(b0.gen_moves@) && none_before(b0.gen_moves@.len() as int, b0.gen_moves@, pq);
            proof {
                if pre {
                    lemma_stage_fresh(&b0, &b0, pq, no_stage(), s1);
                }
            }
            self.pawn_push_loop(one_mv, 8, false);
            let ghost b1 = *self;
            proof {
                if pre {
                    lemma_stage_fresh(&b0, &b1, pq, s1, s2);
                }
            }
            self.pawn_promo_push_loop(one_promo, false);
            let ghost b2 = *self;
            proof {
                lemma_gen_extends_trans(&b0, &b1, &b2);
                lemma_stage_added(&b0, &b1, &b2, s1, s2, |m: Move| s1(m) || s2(m));
                if pre {
                    lemma_stage_fresh(&b0, &b2, pq, |m: Move| s1(m) || s2(m), s3);
                }
            }
            self.pawn_push_loop(two_mv, 16, false);
            proof {
                lemma_stage_added(&b0, &b2, self, |m: Move| s1(m) || s2(m), s3, pq);
                lemma_gen_extends_trans(&b0, &b1, &b2);
                lemma_gen_extends_trans(&b0, &b2, self);
                assert forall|m: Move| #[trigger] gen_ok(&b0, m) && pawn_push_move(m) implies listed_after(self.gen_moves@, b0.gen_moves@.len() as int, m) by {
                    lemma_pawn_push_bits(&b0, m);
                    lemma_after_within(self.gen_moves@, b0.gen_moves@.len() as int, b2.gen_moves@.len() as int);
                    lemma_after_within(b2.gen_moves@, b0.gen_moves@.len() as int, b1.gen_moves@.len() as int);
                    let (from, to) = (m.from as int, m.to as int);
                    assert(has_bit(pawns, from as u64));
                    if m.flag is Quiet {
                        if to == from - 8 {
                            assert(has_bit(pawns >> 8u64, to as u64));
                            assert(has_bit(one_mv, to as u64));
                            lemma_after_grown(&b1, &b2, b0.gen_moves@.len() as int, m);
                            lemma_after_grown(&b2, self, b0.gen_moves@.len() as int, m);
                        } else {
                            assert(has_bit(pawns >> 8u64, (from - 8) as u64));
                            assert(has_bit(one_mv, (from - 8) as u64));
                            assert(has_bit(one_mv & r5, (from - 8) as u64));
                            assert(has_bit((one_mv & r5) >> 8u64, to as u64));
                            assert(has_bit(two_mv, to as u64));
                        }
                    } else {
                        assert(has_bit(pawns >> 8u64, to as u64));
                        assert(has_bit(one_promo, to as u64));
                        let q = m.flag->Promotion_0;
                        assert(m == Move { from: back_sq(to, 8, false) as u8, to: to as u8, piece: (PAWN + b0.state.color) as u8, flag: Flag::Promotion(q, None) });
                        assert(listed_after(b2.gen_moves@, b1.gen_moves@.len() as int, Move { from: back_sq(to, 8, false) as u8, to: to as u8, piece: (PAWN + b0.state.color) as u8, flag: Flag::Promotion(q, None) }));
                        lemma_after_grown(&b2, self, b0.gen_moves@.len() as int, m);
                    }
                }
            }
        }
    }

    /// Appends the pawn captures of the side to move, towards one side and then the other;
    /// on each side the plain captures first, then the promotions.
    fn pawn_capture_moves(&mut self)
        ensures
            final(self).gen_moves@.len() <= old(self).gen_moves@.len() + 1024,
            gen_extends(old(self), final(self)),
            forall|m: Move| #[trigger] gen_ok(old(self), m) && pawn_take_move(m) ==> listed_after(final(self).gen_moves@, old(self).gen_moves@.len() as int, m),
            added_all(old(self).gen_moves@.len() as int, final(self).gen_moves@, pawn_take_stage(old(self).state.color)),
            distinct_moves(old(self).gen_moves@) && none_before(old(self).gen_moves@.len() as int, old(self).gen_moves@, pawn_take_stage(old(self).state.color))
                ==> distinct_moves(final(self).gen_moves@),
    {
        let ghost b0 = *old(self);
        let (own_occ, enemy_occ) = self.both_occ_bb(self.color());
        let pawns = self.pawn_bb(self.color());
        proof {
            lemma_gen_extends_refl(&b0);
        }
        let (lshift, lfile, rfile, lastr) = if self.color().is_white() {
            (true, 0usize, 7usize, 7usize)
        } else {
            (false, 7usize, 0usize, 0usize)
        };
        let fa = file_bitboard(lfile);
        let fb = file_bitboard(rfile);
        let rl = rank_bitboard(lastr);
        let (l9, r7) = if lshift {
            (pawns << 9u64, pawns << 7u64)
        } else {
            (pawns >> 9u64, pawns >> 7u64)
        };
        let left = (l9 & !fa) & enemy_occ;
        let left_att = left & !rl;
        let left_promo = left & rl;
        let right = (r7 & !fb) & enemy_occ;
        let right_att = right & !rl;
        let right_promo = right & rl;
        proof {
            lemma_bit_shift(pawns, 9);
            lemma_bit_shift(pawns, 7);
            lemma_bit_ops(l9, !fa);
            lemma_bit_ops(fa, fa);
            lemma_bit_ops(l9 & !fa, enemy_occ);
            lemma_bit_ops(left, !rl);
            lemma_bit_ops(rl, rl);
            lemma_bit_ops(left, rl);
            lemma_bit_ops(r7, !fb);
            lemma_bit_ops(fb, fb);
            lemma_bit_ops(r7 & !fb, enemy_occ);
            lemma_bit_ops(right, !rl);
            lemma_bit_ops(right, rl);
        }
        let ghost c0 = b0.state.color;
        let ghost pt = pawn_take_stage(c0);
        let ghost t1 = take_stage(c0, left_att, 9, lshift);
        let ghost t2 = take_stage(c0, left_promo, 9, lshift);
        let ghost t3 = take_stage(c0, right_att, 7, lshift);
        let ghost t4 = take_stage(c0, right_promo, 7, lshift);
        let ghost pre = distinct_moves(b0.gen_moves@) && none_before(b0.gen_moves@.len() as int, b0.gen_moves@, pt);
        proof {
            if pre {
                lemma_stage_fresh(&b0, &b0, pt, no_stage(), t1);
            }
        }
        self.pawn_capture_loop(left_att, 9, lshift);
        let ghost b1 = *self;
        proof {
            if pre {
                lemma_stage_fresh(&b0, &b1, pt, t1, t2);
            }
        }
        self.pawn_capture_loop(left_promo, 9, lshift);
        let ghost b2 = *self;
        proof {
            lemma_gen_extends_trans(&b0, &b1, &b2);
            lemma_stage_added(&b0, &b1, &b2, t1, t2, |m: Move| t1(m) || t2(m));
            if pre {
                lemma_stage_fresh(&b0, &b2, pt, |m: Move| t1(m) || t2(m), t3);
            }
        }
        self.pawn_capture_loop(right_att, 7, lshift);
        let ghost b3 = *self;
        proof {
            lemma_gen_extends_trans(&b0, &b2, &b3);
            lemma_stage_added(&b0, &b2, &b3, |m: Move| t1(m) || t2(m), t3, |m: Move| t1(m) || t2(m) || t3(m));
            if pre {
                lemma_stage_fresh(&b0, &b3, pt, |m: Move| t1(m) || t2(m) || t3(m), t4);
            }
        }
        self.pawn_capture_loop(right_promo, 7, lshift);
        proof {
            lemma_stage_added(&b0, &b3, self, |m: Move| t1(m) || t2(m) || t3(m), t4, pt);
        }
        proof {
            lemma_gen_extends_trans(&b0, &b1, &b2);
            lemma_gen_extends_trans(&b0, &b2, &b3);
            lemma_gen_extends_trans(&b0, &b3, self);
            let c = b0.state.color;
            assert forall|m: Move| #[trigger] gen_ok(&b0, m) && pawn_take_move(m) implies listed_after(self.gen_moves@, b0.gen_moves@.len() as int, m) by {
                lemma_pawn_take_bits(&b0, m);
                lemma_after_within(b2.gen_moves@, b0.gen_moves@.len() as int, b1.gen_moves@.len() as int);
                lemma_after_within(b3.gen_moves@, b0.gen_moves@.len() as int, b2.gen_moves@.len() as int);
                lemma_after_within(self.gen_moves@, b0.gen_moves@.len() as int, b3.gen_moves@.len() as int);
                let (from, to) = (m.from as int, m.to as int);
                let cap = Move { from: m.from, to: m.to, piece: m.piece, flag: Flag::Capture(b0.squares[to]->0) };
                let near = if c == WHITE { from + 9 } else { from - 9 };
                let kk: int = if to == near { 9 } else { 7 };
                assert(from == back_sq(to, kk, lshift));
                if to == near {
                    assert(has_bit(l9, to as u64));
                    assert(has_bit(left, to as u64));
                    if row_of(to) != last_row(c) {
                        assert(has_bit(left_att, to as u64));
                        assert(m == cap);
                        assert(listed_after(b1.gen_moves@, b0.gen_moves@.len() as int, Move { from: back_sq(to, 9, lshift) as u8, to: to as u8, piece: (PAWN + c) as u8, flag: Flag::Capture(b0.squares[to]->0) }));
                        lemma_after_grown(&b1, &b2, b0.gen_moves@.len() as int, m);
                        lemma_after_grown(&b2, &b3, b0.gen_moves@.len() as int, m);
                        lemma_after_grown(&b3, self, b0.gen_moves@.len() as int, m);
                    } else {
                        assert(has_bit(left_promo, to as u64));
                        let q = m.flag->Promotion_0;
                        assert(m == Move { from: back_sq(to, 9, lshift) as u8, to: to as u8, piece: (PAWN + c) as u8, flag: Flag::Promotion(q, Some(b0.squares[to]->0)) });
                        assert(listed_after(b2.gen_moves@, b1.gen_moves@.len() as int, Move { from: back_sq(to, 9, lshift) as u8, to: to as u8, piece: (PAWN + c) as u8, flag: Flag::Promotion(q, Some(b0.squares[to]->0)) }));
                        lemma_after_grown(&b2, &b3, b0.gen_moves@.len() as int, m);
                        lemma_after_grown(&b3, self, b0.gen_moves@.len() as int, m);
                    }
                } else {
                    assert(has_bit(r7, to as u64));
                    assert(has_bit(right, to as u64));
                    if row_of(to) != last_row(c) {
                        assert(has_bit(right_att, to as u64));
                        assert(m == cap);
                        assert(listed_after(b3.gen_moves@, b2.gen_moves@.len() as int, Move { from: back_sq(to, 7, lshift) as u8, to: to as u8, piece: (PAWN + c) as u8, flag: Flag::Capture(b0.squares[to]->0) }));
                        lemma_after_grown(&b3, self, b0.gen_moves@.len() as int, m);
                    } else {
                        assert(has_bit(right_promo, to as u64));
                        let q = m.flag->Promotion_0;
                        assert(m == Move { from: back_sq(to, 7, lshift) as u8, to: to as u8, piece: (PAWN + c) as u8, flag: Flag::Promotion(q, Some(b0.squares[to]->0)) });
                        assert(listed_after(self.gen_moves@, b3.gen_moves@.len() as int, Move { from: back_sq(to, 7, lshift) as u8, to: to as u8, piece: (PAWN + c) as u8, flag: Flag::Promotion(q, Some(b0.squares[to]->0)) }));
                    }
                }
            }
        }
    }

    /// Appends the castlings the side to move may play, each scored 0.
    fn add_castling_moves(&mut self)
        ensures
            final(self).gen_moves@.len() <= old(self).gen_moves@.len() + 2,
            gen_extends(old(self), final(self)),
            forall|m: Move| #[trigger] gen_ok(old(self), m) && (m.flag is KingCastle || m.flag is QueenCastle) ==> listed_after(final(self).gen_moves@, old(self).gen_moves@.len() as int, m),
            added_all(old(self).gen_moves@.len() as int, final(self).gen_moves@, castle_stage()),
            distinct_moves(old(self).gen_moves@) && none_before(old(self).gen_moves@.len() as int, old(self).gen_moves@, castle_stage())
                ==> distinct_moves(final(self).gen_moves@),
    {
        let ghost b0 = *old(self);
        let (own, enemy) = self.both_occ_bb(self.color());
        let piece = KING + self.color();
        let castling = self.state.castling;
        proof {
            lemma_gen_extends_refl(&b0);
            lemma_bit_ops(own, enemy);
        }
        let (ks, qs, home, kto, qto) = if self.color() == WHITE {
            (CASTLING_WKINGSIDE, CASTLING_WQUEENSIDE, 4u8, 6u8, 2u8)
        } else {
            (CASTLING_BKINGSIDE, CASTLING_BQUEENSIDE, 60u8, 62u8, 58u8)
        };
        if castling.valid(ks, self, own, enemy) {
            let mv = Move::init(home, kto, piece, Flag::KingCastle);
            proof {
                assert(mv == castle_move(b0.state.color, 0));
                lemma_castle_ok(&b0, 0);
                lemma_gen_frame(&b0, self, mv);
            }
            proof {
                if distinct_moves(b0.gen_moves@) && none_before(b0.gen_moves@.len() as int, b0.gen_moves@, castle_stage()) {
                    assert forall|ii: int| 0 <= ii < b0.gen_moves@.len() implies #[trigger] b0.gen_moves@[ii].0 != mv by {
                        assert(!castle_stage()(b0.gen_moves@[ii].0));
                    }
                    lemma_push_distinct(b0.gen_moves@, (mv, 0));
                }
            }
            self.push_gen(mv, 0);
            proof {
                lemma_after_last(b0.gen_moves@, b0.gen_moves@.len() as int, (mv, 0));
            }
        }
        let ghost b1 = *self;
        proof {
            assert(added_all(b0.gen_moves@.len() as int, b1.gen_moves@, |m: Move| m.flag is KingCastle));
        }
        if castling.valid(qs, self, own, enemy) {
            let mv = Move::init(home, qto, piece, Flag::QueenCastle);
            proof {
                if distinct_moves(b0.gen_moves@) && none_before(b0.gen_moves@.len() as int, b0.gen_moves@, castle_stage()) {
                    assert forall|ii: int| 0 <= ii < b1.gen_moves@.len() implies #[trigger] b1.gen_moves@[ii].0 != mv by {
                        if ii < b0.gen_moves@.len() {
                            assert(b1.gen_moves@.subrange(0, b0.gen_moves@.len() as int)[ii] == b1.gen_moves@[ii]);
                            assert(!castle_stage()(b0.gen_moves@[ii].0));
                        } else {
                            assert(b1.gen_moves@[ii].0.flag is KingCastle);
                        }
                    }
                    lemma_push_distinct(b1.gen_moves@, (mv, 0));
                }
            }
            proof {
                assert(mv == castle_move(b0.state.color, 1));
                lemma_castle_ok(&b0, 1);
                lemma_gen_frame(&b0, self, mv);
            }
            self.push_gen(mv, 0);
            proof {
                lemma_gen_extends_trans(&b0, &b1, self);
                lemma_after_last(b1.gen_moves@, b0.gen_moves@.len() as int, (mv, 0));
                if listed_after(b1.gen_moves@, b0.gen_moves@.len() as int, castle_move(b0.state.color, 0)) {
                    lemma_after_grown(&b1, self, b0.gen_moves@.len() as int, castle_move(b0.state.color, 0));
                }
                assert(listed_after(self.gen_moves@, b0.gen_moves@.len() as int, castle_move(b0.state.color, 1)));
            }
        } else {
            proof {
                assert(self.bitboard == b0.bitboard);
                assert(castling == b0.state.castling);
                assert(qs == clr_side_mask(b0.state.color, 1));
                assert(own | enemy == occupied(&b0));
                assert(!castle_allowed(&b0, clr_side_mask(b0.state.color, 1)));
            }
        }
        proof {
            let c = b0.state.color;
            assert forall|m: Move| #[trigger] gen_ok(&b0, m) && (m.flag is KingCastle || m.flag is QueenCastle) implies listed_after(self.gen_moves@, b0.gen_moves@.len() as int, m) by {
                if m.flag is KingCastle {
                    assert(castle_allowed(&b0, clr_side_mask(c, 0)));
                    assert(m == castle_move(c, 0));
                    assert(listed_after(self.gen_moves@, b0.gen_moves@.len() as int, castle_move(c, 0)));
                } else {
                    assert(castle_allowed(&b0, clr_side_mask(c, 1)));
                    assert(m == castle_move(c, 1));
                    assert(listed_after(self.gen_moves@, b0.gen_moves@.len() as int, castle_move(c, 1)));
                }
            }
        }
    }

    /// Appends the en passant captures of the side to move, each scored 100.
    fn add_ep_moves(&mut self)
        ensures
            final(self).gen_moves@.len() <= old(self).gen_moves@.len() + 64,
            gen_extends(old(self), final(self)),
            forall|m: Move| #[trigger] gen_ok(old(self), m) && m.flag is EP ==> listed_after(final(self).gen_moves@, old(self).gen_moves@.len() as int, m),
            added_all(old(self).gen_moves@.len() as int, final(self).gen_moves@, ep_stage()),
            distinct_moves(old(self).gen_moves@) && none_before(old(self).gen_moves@.len() as int, old(self).gen_moves@, ep_stage())
                ==> distinct_moves(final(self).gen_moves@),
    {
        let ghost b0 = *old(self);
        proof {
            lemma_gen_extends_refl(&b0);
        }
        if let Some(ep) = self.state.ep {
            let color = self.color().opposite();
            let (own_occ, enemy_occ) = self.both_occ_bb(color);
            let att = get_pawn_att(color, ep as usize, own_occ, enemy_occ, None);
            let pawns = self.pawn_bb(color.opposite());
            let mut attack = att & pawns;
            let ghost all = att & pawns;
            proof {
                lemma_bit_ops(att, pawns);
            }
            let ghost mut cnt: int = 0;
            while attack != 0
                invariant
                    0 <= cnt <= 64,
                    forall|t: u64| t < 64 && #[trigger] has_bit(attack, t) ==> t >= cnt,
                    self.gen_moves@.len() <= b0.gen_moves@.len() + cnt * 1,
                    gen_ready_spec(&b0),
                    b0.state.ep == Some(ep),
                    color == opp_color(b0.state.color),
                    forall|t: u64| t < 64 && #[trigger] has_bit(attack, t) ==> has_bit(att, t) && has_bit(pawns, t),
                    forall|t: u64| t < 64 ==> #[trigger] has_bit(att, t) == (pawn_att_target(color, ep as int, t as int) && !has_bit(own_occ, t) && has_bit(enemy_occ, t)),
                    own_occ == b0.bitboard[color as int],
                    enemy_occ == b0.bitboard[1 - color],
                    pawns == b0.bitboard[PAWN + b0.state.color],
                    gen_extends(&b0, self),
                    forall|t: u64| t < 64 ==> #[trigger] has_bit(all, t) == (has_bit(att, t) && has_bit(pawns, t)),
                    forall|m: Move| #[trigger] gen_ok(&b0, m) && m.flag is EP && has_bit(all, m.from as u64) && !has_bit(attack, m.from as u64)
                        ==> listed_after(self.gen_moves@, b0.gen_moves@.len() as int, m),
                    added_all(b0.gen_moves@.len() as int, self.gen_moves@, ep_stage()),
                    forall|ii: int| b0.gen_moves@.len() <= ii < self.gen_moves@.len() ==> !has_bit(attack, (#[trigger] self.gen_moves@[ii]).0.from as u64),
                    distinct_moves(b0.gen_moves@) && none_before(b0.gen_moves@.len() as int, b0.gen_moves@, ep_stage())
                        ==> distinct_moves(self.gen_moves@),
                decreases attack,
            {
                let ghost before = *self;
                let ghost bits0 = attack;
                let sq = attack.pop_lsb();
                proof {
                    cnt = cnt + 1;
                }
                let mv = Move::init(sq as u8, ep, PAWN + color.opposite(), Flag::EP);
                proof {
                    lemma_ep_ok(&b0, sq as int);
                    lemma_gen_frame(&b0, self, mv);
                }
                self.push_gen(mv, 100);
                proof {
                    lemma_gen_extends_trans(&b0, &before, self);
                    lemma_after_last(before.gen_moves@, b0.gen_moves@.len() as int, (mv, 100));
                if distinct_moves(b0.gen_moves@) && none_before(b0.gen_moves@.len() as int, b0.gen_moves@, ep_stage()) {
                        assert forall|ii: int| 0 <= ii < before.gen_moves@.len() implies #[trigger] before.gen_moves@[ii].0 != mv by {
                            if ii < b0.gen_moves@.len() {
                                assert(before.gen_moves@[ii] == b0.gen_moves@[ii]) by {
                                    assert(before.gen_moves@.subrange(0, b0.gen_moves@.len() as int)[ii] == before.gen_moves@[ii]);
                                }
                            } else {
                                assert(!has_bit(bits0, before.gen_moves@[ii].0.from as u64));
                            }
                        }
                        lemma_push_distinct(before.gen_moves@, (mv, 100));
                    }
                    assert forall|m: Move| #[trigger] gen_ok(&b0, m) && m.flag is EP && has_bit(all, m.from as u64) && !has_bit(attack, m.from as u64)
                        implies listed_after(self.gen_moves@, b0.gen_moves@.len() as int, m) by {
                        if m.from as u64 == sq as u64 {
                            assert(m.piece == PAWN + b0.state.color);
                            assert(m == mv);
                        } else {
                            lemma_after_grown(&before, self, b0.gen_moves@.len() as int, m);
                        }
                    }
                }
            }
            proof {
                lemma_bit_consts();
                assert forall|m: Move| #[trigger] gen_ok(&b0, m) && m.flag is EP implies listed_after(self.gen_moves@, b0.gen_moves@.len() as int, m) by {
                    let c = b0.state.color;
                    let from = m.from as int;
                    assert(m.piece == PAWN + c);
                    assert(has_bit(b0.bitboard[c as int], m.from as u64));
                    assert(!has_bit(b0.bitboard[1 - c], m.from as u64));
                    lemma_step_sym(from, ep as int, c);
                    assert(has_bit(att, m.from as u64));
                    assert(has_bit(all, m.from as u64));
                    assert(!has_bit(attack, m.from as u64));
                }
            }
        }
    }

    /// The position occurred before since the last capture or pawn move.
    fn is_repetition(&self) -> (r: bool)
        ensures
            r == exists|i: int| self.history@.len() - self.state.half_move <= i < self.history@.len() && #[trigger] self.history@[i].key == self.state.key,
    {
        Board::is_repetition(self)
    }

    /// The pseudo-legal moves of the side to move, by non-increasing order score: pawn moves,
    /// then those of knights, bishops, rooks, queens and the king, castlings and en passant
    /// captures. The list of generated moves is emptied.
    fn gen_moves(&mut self) -> (r: Vec<Move>)
        ensures
            final(self).squares == old(self).squares,
            final(self).bitboard == old(self).bitboard,
            final(self).state == old(self).state,
            final(self).moves@ == old(self).moves@,
            final(self).history@ == old(self).history@,
            final(self).s_history == old(self).s_history,
            final(self).s_killers == old(self).s_killers,
            final(self).pv_moves == old(self).pv_moves,
            final(self).pv_len == old(self).pv_len,
            final(self).eval == old(self).eval,
            final(self).gen_moves@.len() == 0,
            old(self).gen_moves@.len() == 0 ==> forall|i: int| 0 <= i < r@.len() ==> gen_ok(old(self), #[trigger] r@[i]),
            old(self).gen_moves@.len() == 0 ==> forall|i: int, j: int| 0 <= i < j < r@.len() ==> move_score(old(self), #[trigger] r@[i]) >= move_score(old(self), #[trigger] r@[j]),
            old(self).gen_moves@.len() == 0 ==> r@.len() <= MAX_GEN,
            forall|m: Move| #[trigger] gen_ok(old(self), m) ==> r@.contains(m),
            old(self).gen_moves@.len() == 0 ==> r@.no_duplicates(),
    {
        let ghost b0 = *old(self);
        let ghost c = b0.state.color;
        self.pawn_moves();
        proof {
            assert(added_all(b0.gen_moves@.len() as int, self.gen_moves@, gen_stage_upto(c, 0)));
        }
        let pieces: [Piece; 5] = [KNIGHT, BISHOP, ROOK, QUEEN, KING];
        let mut k: usize = 0;
        while k < 5
            invariant
                gen_ready_spec(&b0),
                b0.moves@.len() < 64,
                pieces@ == seq![KNIGHT, BISHOP, ROOK, QUEEN, KING],
                k <= 5,
                self.gen_moves@.len() <= b0.gen_moves@.len() + 1408 + k * 8192,
                gen_extends(&b0, self),
                forall|m: Move| #[trigger] gen_ok(&b0, m) && (pawn_push_move(m) || pawn_take_move(m)) ==> listed(self.gen_moves@, m),
                forall|m: Move, j: int| 0 <= j < k && #[trigger] gen_ok(&b0, m) && m.piece == #[trigger] pieces@[j] + b0.state.color
                    && (m.flag is Quiet || m.flag is Capture) ==> listed(self.gen_moves@, m),
                c == b0.state.color,
                added_all(b0.gen_moves@.len() as int, self.gen_moves@, gen_stage_upto(c, k as int)),
                b0.gen_moves@.len() == 0 ==> distinct_moves(self.gen_moves@),
            decreases 5 - k,
        {
            let ghost before = *self;
            let piece = pieces[k] + self.color();
            proof {
                if b0.gen_moves@.len() == 0 {
                    lemma_stage_fresh(&b0, &before, any_stage(), gen_stage_upto(c, k as int), piece_stage(piece));
                }
            }
            self.piece_all_moves(piece);
            proof {
                lemma_stage_added(&b0, &before, self, gen_stage_upto(c, k as int), piece_stage(piece), gen_stage_upto(c, k + 1));
                lemma_gen_extends_trans(&b0, &before, self);
                assert forall|m: Move| #[trigger] gen_ok(&b0, m) && (pawn_push_move(m) || pawn_take_move(m)) implies listed(self.gen_moves@, m) by {
                    lemma_listed_grown(&before, self, m);
                }
                assert forall|m: Move, j: int| 0 <= j < k + 1 && #[trigger] gen_ok(&b0, m) && m.piece == #[trigger] pieces@[j] + b0.state.color
                    && (m.flag is Quiet || m.flag is Capture) implies listed(self.gen_moves@, m) by {
                    if j < k {
                        lemma_listed_grown(&before, self, m);
                    } else {
                        lemma_gen_frame(&b0, &before, m);
                        assert(gen_ok(&before, m));
                    }
                }
            }
            k = k + 1;
        }
        let ghost b1 = *self;
        proof {
            if b0.gen_moves@.len() == 0 {
                lemma_stage_fresh(&b0, &b1, any_stage(), gen_stage_upto(c, 5), castle_stage());
            }
        }
        self.add_castling_moves();
        let ghost b2 = *self;
        proof {
            lemma_gen_extends_trans(&b0, &b1, &b2);
            lemma_stage_added(&b0, &b1, &b2, gen_stage_upto(c, 5), castle_stage(), |m: Move| gen_stage_upto(c, 5)(m) || castle_stage()(m));
            if b0.gen_moves@.len() == 0 {
                lemma_stage_fresh(&b0, &b2, any_stage(), |m: Move| gen_stage_upto(c, 5)(m) || castle_stage()(m), ep_stage());
            }
        }
        self.add_ep_moves();
        proof {
            lemma_gen_extends_trans(&b0, &b1, &b2);
            lemma_gen_extends_trans(&b0, &b2, self);
            lemma_gen_grown_trans(&b1, &b2, self);
            assert forall|m: Move| #[trigger] gen_ok(&b0, m) implies listed(self.gen_moves@, m) by {
                lemma_gen_frame(&b0, &b1, m);
                lemma_gen_frame(&b0, &b2, m);
                let c = b0.state.color;
                if m.flag is EP {
                    assert(gen_ok(&b2, m));
                } else if m.flag is KingCastle || m.flag is QueenCastle {
                    assert(gen_ok(&b1, m));
                    lemma_listed_grown(&b2, self, m);
                } else if piece_kind(m.piece) == PAWN {
                    assert(pawn_push_move(m) || pawn_take_move(m));
                    lemma_listed_grown(&b1, self, m);
                } else {
                    let kd = piece_kind(m.piece);
                    let j: int = if kd == KNIGHT { 0 } else if kd == BISHOP { 1 } else if kd == ROOK { 2 } else if kd == QUEEN { 3 } else { 4 };
                    assert(m.piece == pieces@[j] + c);
                    assert(m.flag is Quiet || m.flag is Capture);
                    lemma_listed_grown(&b1, self, m);
                }
            }
        }
        let ghost g = self.gen_moves@;
        let r = drain_sorted(&mut self.gen_moves);
        proof {
            let s = choose|s: Seq<(Move, isize)>| s.to_multiset() == g.to_multiset() && sorted_desc(s) && r@ == moves_of(s);
            if b0.gen_moves@.len() == 0 {
                lemma_drained(&b0, g, s, r@);
            }
            assert forall|m: Move| #[trigger] gen_ok(&b0, m) implies r@.contains(m) by {
                lemma_listed_kept(g, s, m);
            }
            if b0.gen_moves@.len() == 0 {
                lemma_distinct_kept(g, s);
            }
        }
        r
    }

    /// The captures of the side to move, by non-increasing order score: pawn captures, then
    /// those of knights, bishops, rooks, queens and the king, and en passant captures. The list
    /// of generated moves is emptied.
    fn gen_captures(&mut self) -> (r: Vec<Move>)
        ensures
            final(self).squares == old(self).squares,
            final(self).bitboard == old(self).bitboard,
            final(self).state == old(self).state,
            final(self).moves@ == old(self).moves@,
            final(self).history@ == old(self).history@,
            final(self).s_history == old(self).s_history,
            final(self).s_killers == old(self).s_killers,
            final(self).pv_moves == old(self).pv_moves,
            final(self).pv_len == old(self).pv_len,
            final(self).eval == old(self).eval,
            final(self).gen_moves@.len() == 0,
            old(self).gen_moves@.len() == 0 ==> forall|i: int| 0 <= i < r@.len() ==> gen_ok(old(self), #[trigger] r@[i]),
            old(self).gen_moves@.len() == 0 ==> forall|i: int, j: int| 0 <= i < j < r@.len() ==> move_score(old(self), #[trigger] r@[i]) >= move_score(old(self), #[trigger] r@[j]),
            old(self).gen_moves@.len() == 0 ==> r@.len() <= MAX_GEN,
            forall|m: Move| #[trigger] gen_ok(old(self), m) && capture_move(m) ==> r@.contains(m),
            old(self).gen_moves@.len() == 0 ==> r@.no_duplicates(),
            old(self).gen_moves@.len() == 0 ==> forall|i: int| 0 <= i < r@.len() ==> capture_move(#[trigger] r@[i]),
    {
        let ghost b0 = *old(self);
        let ghost c = b0.state.color;
        proof {
            lemma_gen_extends_refl(&b0);
        }
        self.pawn_capture_moves();
        proof {
            assert(added_all(b0.gen_moves@.len() as int, self.gen_moves@, cap_stage_upto(c, 0)));
        }
        let pieces: [Piece; 5] = [KNIGHT, BISHOP, ROOK, QUEEN, KING];
        let mut k: usize = 0;
        while k < 5
            invariant
                gen_ready_spec(&b0),
                pieces@ == seq![KNIGHT, BISHOP, ROOK, QUEEN, KING],
                k <= 5,
                self.gen_moves@.len() <= b0.gen_moves@.len() + 1024 + k * 4096,
                gen_extends(&b0, self),
                c == b0.state.color,
                forall|m: Move| #[trigger] gen_ok(&b0, m) && pawn_take_move(m) ==> listed(self.gen_moves@, m),
                forall|m: Move, j: int| 0 <= j < k && #[trigger] gen_ok(&b0, m) && m.piece == #[trigger] pieces@[j] + b0.state.color
                    && m.flag is Capture ==> listed(self.gen_moves@, m),
                added_all(b0.gen_moves@.len() as int, self.gen_moves@, cap_stage_upto(c, k as int)),
                b0.gen_moves@.len() == 0 ==> distinct_moves(self.gen_moves@),
            decreases 5 - k,
        {
            let ghost before = *self;
            let piece = pieces[k] + self.color();
            proof {
                if b0.gen_moves@.len() == 0 {
                    lemma_stage_fresh(&b0, &before, any_stage(), cap_stage_upto(c, k as int), piece_cap_stage(piece));
                }
            }
            self.piece_cap_moves(piece);
            proof {
                lemma_gen_extends_trans(&b0, &before, self);
                lemma_stage_added(&b0, &before, self, cap_stage_upto(c, k as int), piece_cap_stage(piece), cap_stage_upto(c, k + 1));
                assert forall|m: Move| #[trigger] gen_ok(&b0, m) && pawn_take_move(m) implies listed(self.gen_moves@, m) by {
                    lemma_listed_grown(&before, self, m);
                }
                assert forall|m: Move, j: int| 0 <= j < k + 1 && #[trigger] gen_ok(&b0, m) && m.piece == #[trigger] pieces@[j] + b0.state.color
                    && m.flag is Capture implies listed(self.gen_moves@, m) by {
                    if j < k {
                        lemma_listed_grown(&before, self, m);
                    } else {
                        lemma_gen_frame(&b0, &before, m);
                        assert(gen_ok(&before, m));
                    }
                }
            }
            k = k + 1;
        }
        let ghost b2 = *self;
        proof {
            if b0.gen_moves@.len() == 0 {
                lemma_stage_fresh(&b0, &b2, any_stage(), cap_stage_upto(c, 5), ep_stage());
            }
        }
        self.add_ep_moves();
        proof {
            lemma_gen_extends_trans(&b0, &b2, self);
            lemma_stage_added(&b0, &b2, self, cap_stage_upto(c, 5), ep_stage(), |m: Move| capture_move(m));
            assert forall|m: Move| #[trigger] gen_ok(&b0, m) && capture_move(m) implies listed(self.gen_moves@, m) by {
                lemma_gen_frame(&b0, &b2, m);
                if m.flag is EP {
                    assert(gen_ok(&b2, m));
                } else if piece_kind(m.piece) == PAWN {
                    assert(pawn_take_move(m));
                    lemma_listed_grown(&b2, self, m);
                } else {
                    let kd = piece_kind(m.piece);
                    let j: int = if kd == KNIGHT { 0 } else if kd == BISHOP { 1 } else if kd == ROOK { 2 } else if kd == QUEEN { 3 } else { 4 };
                    assert(m.piece == pieces@[j] + c);
                    lemma_listed_grown(&b2, self, m);
                }
            }
        }
        let ghost g = self.gen_moves@;
        let r = drain_sorted(&mut self.gen_moves);
        proof {
            let s = choose|s: Seq<(Move, isize)>| s.to_multiset() == g.to_multiset() && sorted_desc(s) && r@ == moves_of(s);
            if b0.gen_moves@.len() == 0 {
                lemma_drained(&b0, g, s, r@);
                lemma_distinct_kept(g, s);
                lemma_kind_kept(g, s, |m: Move| capture_move(m));
            }
            assert forall|m: Move| #[trigger] gen_ok(&b0, m) && capture_move(m) implies r@.contains(m) by {
                lemma_listed_kept(g, s, m);
            }
        }
        r
    }

    /// The pieces of the side other than `color` that attack the square `sq`.
    fn sq_attack(&self, sq: usize, color: Color) -> (r: u64)
        ensures
            forall|t: u64| t < 64 ==> #[trigger] has_bit(r, t) == attacker_of(self.bitboard, sq as int, color, t),
    {
        attackers(&self.bitboard, sq, color)
    }
}

/// Two moves the generator produces with the same squares and the same kind of promotion
/// piece, if any, are the same move.
pub proof fn lemma_gen_unique(b: &Board, m1: Move, m2: Move)
    requires
        b.wf(),
        gen_ok(b, m1),
        gen_ok(b, m2),
        m1.from == m2.from,
        m1.to == m2.to,
        (m1.flag.promo_of() is Some) == (m2.flag.promo_of() is Some),
        m1.flag.promo_of() is Some ==> piece_kind(m1.flag.promo_of()->0) == piece_kind(m2.flag.promo_of()->0),
    ensures
        m1 == m2,
{
    let from = m1.from as int;
    let to = m1.to as int;
    let c = b.state.color;
    assert(m1.piece == m2.piece);
    let p = m1.piece;
    if b.state.ep is Some {
        assert(b.squares[b.state.ep->0 as int] is None);
    }
    match (m1.flag, m2.flag) {
        (Flag::Promotion(q1, c1), Flag::Promotion(q2, c2)) => {
            assert(q1 == q2);
            assert(c1 == c2);
        },
        (Flag::Quiet, Flag::EP) | (Flag::EP, Flag::Quiet) => {
            if piece_kind(p) == PAWN {
                assert(col_of(to) == col_of(from));
            }
        },
        (Flag::Quiet, Flag::KingCastle) | (Flag::KingCastle, Flag::Quiet) | (Flag::Quiet, Flag::QueenCastle) | (
            Flag::QueenCastle,
            Flag::Quiet,
        ) => {
            assert(piece_kind(p) == KING);
            assert(!king_target(row_of(from), col_of(from), to));
        },
        _ => {},
    }
}

/// The generator produces the move and, played, it leaves the mover's king safe.
pub open spec fn legal_move(b: &Board, mv: Move) -> bool {
    &&& gen_ok(b, mv)
    &&& exists|b1: Board| made(b, mv, &b1) && !king_attacked(&b1, b.state.color)
}

/// Boards after the same move on the same board hold the same pieces.
pub(crate) proof fn lemma_made_unique(b: &Board, mv: Move, b1: &Board, b2: &Board)
    requires
        made(b, mv, b1),
        made(b, mv, b2),
    ensures
        b1.bitboard == b2.bitboard,
{
    reveal(made);
    assert(b1.squares@ == b2.squares@);
    assert(b1.squares =~= b2.squares);
    lemma_bitboards_from_squares(b1, b2);
}

impl Board {
    /// The move is one of the generated moves and can be played: its king is not left
    /// attacked. The board comes back as it was, with no generated moves held.
    pub fn move_exists(&mut self, mv: &Move) -> (r: bool)
        requires
            old(self).gen_ready(),
            old(self).ply_ok(),
            old(self).gen_moves@.len() == 0,
            old(self).has_king(old(self).state.color as int),
            old(self).state.half_move < 255,
        ensures
            r == legal_move(old(self), *mv),
            same_position(final(self), old(self)),
            final(self).gen_moves@.len() == 0,
    {
        let ghost b0 = *old(self);
        let mut moves = self.gen_moves();
        let ghost bg = *self;
        proof {
            assert(bg.gen_moves@ =~= b0.gen_moves@);
            assert(same_position(&bg, &b0));
            lemma_gen_frame(&b0, &bg, *mv);
        }
        let mut i: usize = 0;
        while i < moves.len()
            invariant
                i <= moves@.len(),
                b0 == *old(self),
                same_position(self, &b0),
                self.gen_moves@.len() == 0,
                b0.gen_ready(),
                b0.has_king(b0.state.color as int),
                b0.state.half_move < 255,
                moves@.no_duplicates(),
                forall|j: int| 0 <= j < moves@.len() ==> gen_ok(&b0, #[trigger] moves@[j]),
                gen_ok(&b0, *mv) ==> moves@.contains(*mv),
                forall|j: int| 0 <= j < i ==> moves@[j] != *mv,
            decreases moves@.len() - i,
        {
            let temp_mv = moves[i];
            if *mv == temp_mv {
                let ghost bm = *self;
                proof {
                    reveal(can_make_spec);
                    lemma_gen_frame(&b0, &bm, *mv);
                    assert(can_make_spec(&bm, *mv));
                }
                if self.make_move(mv) {
                    let ghost b1 = *self;
                    self.undo_move();
                    proof {
                        lemma_undo_after_make(&bm, *mv, &b1, self);
                        assert(made(&b0, *mv, &b1)) by {
                            reveal(made);
                            assert(b0.squares@ == bm.squares@);
                        }
                    }
                    return true;
                } else {
                    proof {
                        let b1 = choose|b1: Board| made(&bm, *mv, &b1) && king_attacked(&b1, bm.state.color);
                        assert forall|b2: Board| made(&b0, *mv, &b2) implies king_attacked(&b2, b0.state.color) by {
                            assert(made(&b0, *mv, &b1)) by {
                                reveal(made);
                                assert(b0.squares@ == bm.squares@);
                            }
                            lemma_made_unique(&b0, *mv, &b1, &b2);
                        }
                    }
                    return false;
                }
            }
            i = i + 1;
        }
        proof {
            if gen_ok(&b0, *mv) {
                let j = choose|j: int| 0 <= j < moves@.len() && moves@[j] == *mv;
                assert(moves@[j] != *mv);
            }
        }
        false
    }
}

} // verus!
